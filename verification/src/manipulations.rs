use vstd::prelude::*;
use crate::folds::lemma_stop_carries;
use crate::error::{ErrorOf, ExtractError, ErrorSpec};
use crate::json::{JsonValue, JsonSpec};
use crate::text::{chars_of, string_of, trim, trim_str, i64_text, dec_i64, ascii_space, law_trim_drops_ascii_space};

verus! {

/// A floating-point cell, as the two texts the extraction uses: how `Display` writes the
/// number, and its JSON text (`None` when the number is not finite).
#[derive(Debug)]
pub struct FloatText {
    pub display: String,
    pub json: Option<String>,
}

/// The content of one worksheet cell.
#[derive(Debug)]
pub enum Cell {
    Empty,
    Int(i64),
    Float(FloatText),
    Bool(bool),
    Str(String),
    /// A date or time, written out as text (`None` when it cannot be written out).
    DateTime(Option<String>),
    /// A date or time in ISO 8601.
    DateTimeIso(String),
    /// A duration in ISO 8601.
    DurationIso(String),
    /// A cell holding an error (such as `#DIV/0!`).
    Error,
}

/// The mathematical model of a cell.
pub enum CellSpec {
    Empty,
    Int(i64),
    Float(Seq<char>, Option<Seq<char>>),
    Bool(bool),
    Str(Seq<char>),
    DateTime(Option<Seq<char>>),
    DateTimeIso(Seq<char>),
    DurationIso(Seq<char>),
    Error,
}

impl Cell {
    pub open spec fn model(self) -> CellSpec {
        match self {
            Cell::Empty => CellSpec::Empty,
            Cell::Int(i) => CellSpec::Int(i),
            Cell::Float(f) => CellSpec::Float(
                f.display@,
                match f.json {
                    Some(j) => Some(j@),
                    None => None,
                },
            ),
            Cell::Bool(b) => CellSpec::Bool(b),
            Cell::Str(s) => CellSpec::Str(s@),
            Cell::DateTime(d) => CellSpec::DateTime(
                match d {
                    Some(s) => Some(s@),
                    None => None,
                },
            ),
            Cell::DateTimeIso(s) => CellSpec::DateTimeIso(s@),
            Cell::DurationIso(s) => CellSpec::DurationIso(s@),
            Cell::Error => CellSpec::Error,
        }
    }
}

/// A rectangular block of a worksheet: `rows[i][j]` is the cell at row `start_row + i`,
/// column `start_col + j` (both 0-based).
#[derive(Debug)]
pub struct Sheet {
    pub start_row: u32,
    pub start_col: u32,
    pub rows: Vec<Vec<Cell>>,
}

impl Sheet {
    /// The cell at 0-based position (`r`, `c`), if the block covers it.
    pub open spec fn cell_at(self, r: int, c: int) -> Option<CellSpec> {
        let i = r - self.start_row;
        let j = c - self.start_col;
        if 0 <= i < self.rows@.len() && 0 <= j < self.rows@[i]@.len() {
            Some(self.rows@[i]@[j].model())
        } else {
            None
        }
    }

    /// The cell at 0-based position (`r`, `c`), as `Range::get_value` answers.
    pub fn get_value(&self, r: u32, c: u32) -> (v: Option<&Cell>)
        ensures
            match v {
                Some(cell) => self.cell_at(r as int, c as int) == Some(cell.model()),
                None => self.cell_at(r as int, c as int) is None,
            },
    {
        if r < self.start_row || c < self.start_col {
            return None;
        }
        let i = (r - self.start_row) as usize;
        let j = (c - self.start_col) as usize;
        if i < self.rows.len() && j < self.rows[i].len() {
            Some(&self.rows[i][j])
        } else {
            None
        }
    }
}

/// The 0-based row of 1-based row `row`. Row 0 wraps around to the 0-based row
/// `u32::MAX`.
pub open spec fn row_index(row: u32) -> u32 {
    if row == 0 {
        u32::MAX
    } else {
        (row - 1) as u32
    }
}

/// The cell at 1-based row `row`, 0-based column `col`.
pub open spec fn cell_of(sheet: Sheet, row: u32, col: u32) -> Option<CellSpec> {
    sheet.cell_at(row_index(row) as int, col as int)
}

/// The text of a boolean.
pub open spec fn bool_text(b: bool) -> Seq<char> {
    if b {
        "true"@
    } else {
        "false"@
    }
}

/// What `extract_cell_value` gives for a cell: the value (`None` when there is no cell)
/// and a description. With `force_str` the value is always text and the description is
/// that text; otherwise the description names the kind of the cell. Text is trimmed.
pub open spec fn cell_result(c: Option<CellSpec>, force_str: bool) -> Result<
    (Option<JsonSpec>, Seq<char>),
    ErrorSpec,
> {
    match c {
        None => Ok((None, "Null"@)),
        Some(cell) => if force_str {
            let text: Result<Seq<char>, ErrorSpec> = match cell {
                CellSpec::Empty => Ok("Null"@),
                CellSpec::Int(i) => Ok(dec_i64(i)),
                CellSpec::Float(d, _) => Ok(d),
                CellSpec::Bool(b) => Ok(bool_text(b)),
                CellSpec::Str(s) => Ok(trim(s)),
                CellSpec::Error => Err(ErrorOf::CellError),
                CellSpec::DateTime(Some(s)) => Ok(s),
                CellSpec::DateTime(None) => Err(ErrorOf::InvalidDateTime),
                CellSpec::DurationIso(s) => Ok(s),
                CellSpec::DateTimeIso(_) => Err(ErrorOf::UnsupportedDataType),
            };
            match text {
                Ok(t) => Ok((Some(JsonSpec::Str(t)), t)),
                Err(e) => Err(e),
            }
        } else {
            match cell {
                CellSpec::Empty => Ok((Some(JsonSpec::Null), "Null"@)),
                CellSpec::Int(i) => Ok((Some(JsonSpec::Int(i)), "Int"@)),
                CellSpec::Float(_, Some(j)) => Ok((Some(JsonSpec::Float(j)), "Float"@)),
                CellSpec::Float(_, None) => Err(ErrorOf::InvalidFloat),
                CellSpec::Bool(b) => Ok((Some(JsonSpec::Bool(b)), "Bool"@)),
                CellSpec::Str(s) => Ok((Some(JsonSpec::Str(trim(s))), "String"@)),
                CellSpec::Error => Err(ErrorOf::CellError),
                CellSpec::DateTime(Some(s)) => Ok((Some(JsonSpec::Str(s)), "DateTime"@)),
                CellSpec::DateTime(None) => Err(ErrorOf::InvalidDateTime),
                CellSpec::DurationIso(s) => Ok((Some(JsonSpec::Str(s)), "DurationIso"@)),
                CellSpec::DateTimeIso(_) => Err(ErrorOf::UnsupportedDataType),
            }
        },
    }
}

/// The value of the cell at 1-based row `row`, 0-based column `col` (without `force_str`).
pub open spec fn cell_json(sheet: Sheet, row: u32, col: u32) -> Result<Option<JsonSpec>, ErrorSpec> {
    match cell_result(cell_of(sheet, row, col), false) {
        Ok((v, _)) => Ok(v),
        Err(e) => Err(e),
    }
}

/// The text of a boolean.
fn bool_string(b: bool) -> (s: String)
    ensures
        s@ == bool_text(b),
{
    if b {
        "true".to_owned()
    } else {
        "false".to_owned()
    }
}

/// The textual form of a cell, as `force_str` asks for it.
fn cell_text(cell: &Cell) -> (r: Result<String, ExtractError>)
    ensures
        match cell_result(Some(cell.model()), true) {
            Ok((_, t)) => r matches Ok(s) && s@ == t,
            Err(e) => r matches Err(x) && x.model() == e,
        },
{
    match cell {
        Cell::Empty => Ok("Null".to_owned()),
        Cell::Int(i) => Ok(string_of(&i64_text(*i))),
        Cell::Float(f) => Ok(f.display.clone()),
        Cell::Bool(b) => Ok(bool_string(*b)),
        Cell::Str(s) => Ok(trim_str(s.as_str())),
        Cell::Error => Err(ErrorOf::CellError),
        Cell::DateTime(Some(s)) => Ok(s.clone()),
        Cell::DateTime(None) => Err(ErrorOf::InvalidDateTime),
        Cell::DurationIso(s) => Ok(s.clone()),
        Cell::DateTimeIso(_) => Err(ErrorOf::UnsupportedDataType),
    }
}

/// The value of the cell at 1-based row `row`, 0-based column `col`, with a description:
/// see `cell_result`.
pub fn extract_cell_value(sheet: &Sheet, row: u32, col: u32, force_str: bool) -> (r: Result<
    (Option<JsonValue>, String),
    ExtractError,
>)
    ensures
        match cell_result(cell_of(*sheet, row, col), force_str) {
            Ok((v, d)) => r matches Ok((rv, rd)) && rd@ == d && match rv {
                Some(x) => v == Some(x.model()),
                None => v is None,
            },
            Err(e) => r matches Err(x) && x.model() == e,
        },
{
    let cell = match sheet.get_value(row.wrapping_sub(1), col) {
        None => {
            return Ok((None, "Null".to_owned()));
        },
        Some(c) => c,
    };
    if force_str {
        let text = cell_text(cell)?;
        let value = JsonValue::Str(text.clone());
        return Ok((Some(value), text));
    }
    match cell {
        Cell::Empty => Ok((Some(JsonValue::Null), "Null".to_owned())),
        Cell::Int(i) => Ok((Some(JsonValue::Int(*i)), "Int".to_owned())),
        Cell::Float(f) => match &f.json {
            Some(j) => Ok((Some(JsonValue::Float(j.clone())), "Float".to_owned())),
            None => Err(ErrorOf::InvalidFloat),
        },
        Cell::Bool(b) => Ok((Some(JsonValue::Bool(*b)), "Bool".to_owned())),
        Cell::Str(s) => Ok((Some(JsonValue::Str(trim_str(s.as_str()))), "String".to_owned())),
        Cell::Error => Err(ErrorOf::CellError),
        Cell::DateTime(Some(s)) => Ok((Some(JsonValue::Str(s.clone())), "DateTime".to_owned())),
        Cell::DateTime(None) => Err(ErrorOf::InvalidDateTime),
        Cell::DurationIso(s) => Ok((Some(JsonValue::Str(s.clone())), "DurationIso".to_owned())),
        Cell::DateTimeIso(_) => Err(ErrorOf::UnsupportedDataType),
    }
}


/// A header text with each line break ("\r\n", "\n" or "\r") turned into a space.
pub open spec fn clean_header(s: Seq<char>) -> Seq<char>
    decreases s.len(),
{
    if s.len() == 0 {
        s
    } else if s.len() >= 2 && s[0] == '\r' && s[1] == '\n' {
        seq![' '] + clean_header(s.skip(2))
    } else if s[0] == '\r' || s[0] == '\n' {
        seq![' '] + clean_header(s.skip(1))
    } else {
        seq![s[0]] + clean_header(s.skip(1))
    }
}

/// The parts joined with `sep` between each two of them.
pub open spec fn join(parts: Seq<Seq<char>>, sep: Seq<char>) -> Seq<char>
    decreases parts.len(),
{
    if parts.len() == 0 {
        Seq::empty()
    } else if parts.len() == 1 {
        parts[0]
    } else {
        join(parts.drop_last(), sep) + sep + parts.last()
    }
}

/// The cleaned texts of the cells of `rows` in column `col`, the first error if one fails.
pub open spec fn header_parts(sheet: Sheet, rows: Seq<u32>, col: u32) -> Result<Seq<Seq<char>>, ErrorSpec>
    decreases rows.len(),
{
    if rows.len() == 0 {
        Ok(Seq::empty())
    } else {
        match header_parts(sheet, rows.drop_last(), col) {
            Err(e) => Err(e),
            Ok(parts) => match cell_result(cell_of(sheet, rows.last(), col), true) {
                Err(e) => Err(e),
                Ok((_, d)) => Ok(parts.push(clean_header(d))),
            },
        }
    }
}

/// The header of column `col`: the cleaned texts of its header rows, joined by `sep`.
pub open spec fn header_spec(sheet: Sheet, rows: Seq<u32>, col: u32, sep: Seq<char>) -> Result<Seq<char>, ErrorSpec> {
    match header_parts(sheet, rows, col) {
        Ok(parts) => Ok(join(parts, sep)),
        Err(e) => Err(e),
    }
}

/// Once a prefix of the header rows fails, the whole fails with the same error.
proof fn lemma_header_parts_err(sheet: Sheet, rows: Seq<u32>, col: u32, j: int)
    requires
        0 <= j <= rows.len(),
        header_parts(sheet, rows.take(j), col) is Err,
    ensures
        header_parts(sheet, rows, col) == header_parts(sheet, rows.take(j), col),
{
    let f = |c: Seq<u32>| header_parts(sheet, c, col);
    let stops = |r| r is Err;
    assert forall|k: int| 0 <= k < rows.len() && stops(#[trigger] f(rows.take(k))) implies f(rows.take(k + 1)) == f(
        rows.take(k),
    ) by {
        assert(rows.take(k + 1).drop_last() == rows.take(k));
    }
    lemma_stop_carries(f, stops, rows, j);
}

/// `s` with line breaks turned into spaces.
fn clean_header_text(s: &str) -> (r: Vec<char>)
    ensures
        r@ == clean_header(s@),
{
    let cs = chars_of(s);
    let n = cs.len();
    let mut out: Vec<char> = Vec::new();
    let mut i: usize = 0;
    assert(cs@.skip(0) == cs@);
    while i < n
        invariant
            n == cs@.len(),
            i <= n,
            clean_header(s@) == out@ + clean_header(cs@.skip(i as int)),
        decreases n - i,
    {
        let ghost rest = cs@.skip(i as int);
        let c = cs[i];
        assert(rest[0] == c);
        if c == '\r' && i + 1 < n && cs[i + 1] == '\n' {
            assert(rest[1] == cs@[i + 1]);
            assert(rest.skip(2) == cs@.skip(i + 2));
            out.push(' ');
            i = i + 2;
        } else if c == '\r' || c == '\n' {
            assert(rest.skip(1) == cs@.skip(i + 1));
            out.push(' ');
            i = i + 1;
        } else {
            assert(rest.skip(1) == cs@.skip(i + 1));
            out.push(c);
            i = i + 1;
        }
    }
    assert(out@ + clean_header(cs@.skip(n as int)) == out@);
    out
}

/// The header of column `column`: the text of each of `header_rows` in that column, line
/// breaks turned into spaces, joined with `separator`.
pub fn extract_headers(sheet: &Sheet, header_rows: &[u32], column: u32, separator: &str) -> (r: Result<String, ExtractError>)
    ensures
        match header_spec(*sheet, header_rows@, column, separator@) {
            Ok(h) => r matches Ok(s) && s@ == h,
            Err(e) => r matches Err(x) && x.model() == e,
        },
{
    let sep = chars_of(separator);
    let mut out: Vec<char> = Vec::new();
    let n = header_rows.len();
    let ghost mut parts: Seq<Seq<char>> = Seq::empty();
    for i in 0..n
        invariant
            n == header_rows@.len(),
            sep@ == separator@,
            header_parts(*sheet, header_rows@.take(i as int), column) == Ok::<Seq<Seq<char>>, ErrorSpec>(parts),
            out@ == join(parts, sep@),
            parts.len() == i,
    {
        assert(header_rows@.take(i + 1).drop_last() == header_rows@.take(i as int));
        assert(header_rows@.take(i + 1).last() == header_rows@[i as int]);
        let (_, description) = match extract_cell_value(sheet, header_rows[i], column, true) {
            Ok(x) => x,
            Err(e) => {
                proof {
                    lemma_header_parts_err(*sheet, header_rows@, column, i + 1);
                }
                return Err(e);
            },
        };
        let clean = clean_header_text(description.as_str());
        if i > 0 {
            for k in 0..sep.len()
                invariant
                    out@ == join(parts, sep@) + sep@.take(k as int),
            {
                out.push(sep[k]);
                assert(sep@.take(k + 1) == sep@.take(k as int).push(sep@[k as int]));
            }
            assert(sep@.take(sep@.len() as int) == sep@);
        }
        let ghost before = out@;
        for k in 0..clean.len()
            invariant
                out@ == before + clean@.take(k as int),
        {
            out.push(clean[k]);
            assert(clean@.take(k + 1) == clean@.take(k as int).push(clean@[k as int]));
        }
        assert(clean@.take(clean@.len() as int) == clean@);
        proof {
            let np = parts.push(clean@);
            assert(np.drop_last() == parts);
            if i == 0 {
                assert(join(np, sep@) == clean@);
            }
            parts = np;
        }
    }
    assert(header_rows@.take(n as int) == header_rows@);
    Ok(string_of(&out))
}

/// The rows `start..=end`, in order.
pub open spec fn row_range(start: u32, end: u32) -> Seq<u32> {
    if start <= end {
        Seq::new((end - start + 1) as nat, |i: int| (start + i) as u32)
    } else {
        Seq::empty()
    }
}

/// The values of column `col` over `rows` (`null` where there is no cell), the first
/// error if a cell fails.
pub open spec fn column_values(sheet: Sheet, col: u32, rows: Seq<u32>) -> Result<Seq<JsonSpec>, ErrorSpec>
    decreases rows.len(),
{
    if rows.len() == 0 {
        Ok(Seq::empty())
    } else {
        match column_values(sheet, col, rows.drop_last()) {
            Err(e) => Err(e),
            Ok(vals) => match cell_json(sheet, rows.last(), col) {
                Err(e) => Err(e),
                Ok(Some(v)) => Ok(vals.push(v)),
                Ok(None) => Ok(vals.push(JsonSpec::Null)),
            },
        }
    }
}

/// Once a prefix of the rows fails, the whole fails with the same error.
proof fn lemma_column_values_err(sheet: Sheet, col: u32, rows: Seq<u32>, j: int)
    requires
        0 <= j <= rows.len(),
        column_values(sheet, col, rows.take(j)) is Err,
    ensures
        column_values(sheet, col, rows) == column_values(sheet, col, rows.take(j)),
{
    let f = |c: Seq<u32>| column_values(sheet, col, c);
    let stops = |r| r is Err;
    assert forall|k: int| 0 <= k < rows.len() && stops(#[trigger] f(rows.take(k))) implies f(rows.take(k + 1)) == f(
        rows.take(k),
    ) by {
        assert(rows.take(k + 1).drop_last() == rows.take(k));
    }
    lemma_stop_carries(f, stops, rows, j);
}

/// The values of column `column` in rows `start_row..=end_row`, as a JSON array (`null`
/// where there is no cell).
pub fn extract_column_data(sheet: &Sheet, column: u32, start_row: u32, end_row: u32) -> (r: Result<JsonValue, ExtractError>)
    ensures
        match column_values(*sheet, column, row_range(start_row, end_row)) {
            Ok(vals) => r matches Ok(v) && v.model() == JsonSpec::Array(vals),
            Err(e) => r matches Err(x) && x.model() == e,
        },
{
    let mut data: Vec<JsonValue> = Vec::new();
    let ghost rows = row_range(start_row, end_row);
    let mut row: u64 = start_row as u64;
    assert(crate::json::models(data@) =~= Seq::<JsonSpec>::empty());
    assert(rows.take(0) =~= Seq::<u32>::empty());
    while row <= end_row as u64
        invariant
            start_row <= row <= end_row as u64 + 1 || (row == start_row && start_row > end_row),
            rows == row_range(start_row, end_row),
            row >= start_row,
            column_values(*sheet, column, rows.take(row - start_row)) == Ok::<Seq<JsonSpec>, ErrorSpec>(crate::json::models(data@)),
        decreases end_row as u64 + 1 - row,
    {
        let ghost k = (row - start_row as u64) as int;
        assert(rows.take(k + 1).drop_last() == rows.take(k));
        assert(rows.take(k + 1).last() == row as u32);
        let (cell_value, _) = match extract_cell_value(sheet, row as u32, column, false) {
            Ok(x) => x,
            Err(e) => {
                proof {
                    lemma_column_values_err(*sheet, column, rows, k + 1);
                }
                return Err(e);
            },
        };
        let value = match cell_value {
            Some(v) => v,
            None => JsonValue::Null,
        };
        let ghost old_data = data@;
        let ghost vm = value.model();
        data.push(value);
        assert(crate::json::models(data@) =~= crate::json::models(old_data).push(vm));
        row = row + 1;
    }
    proof {
        if start_row <= end_row {
            assert(rows.take(row - start_row) == rows);
        } else {
            assert(rows.take(row - start_row) == rows);
        }
        crate::json::lemma_array_model(data);
    }
    Ok(JsonValue::Array(data))
}


/// The views of a sequence of character vectors.
pub open spec fn char_views(v: Seq<Vec<char>>) -> Seq<Seq<char>> {
    Seq::new(v.len(), |i: int| v[i]@)
}

/// The parts joined with `sep` between each two of them.
pub fn join_chars(parts: &Vec<Vec<char>>, sep: &[char]) -> (r: Vec<char>)
    ensures
        r@ == join(char_views(parts@), sep@),
{
    let mut out: Vec<char> = Vec::new();
    let n = parts.len();
    assert(char_views(parts@).take(0) =~= Seq::<Seq<char>>::empty());
    for i in 0..n
        invariant
            n == parts@.len(),
            out@ == join(char_views(parts@).take(i as int), sep@),
    {
        let ghost pv = char_views(parts@);
        assert(pv.take(i + 1).drop_last() == pv.take(i as int));
        assert(pv.take(i + 1).last() == parts@[i as int]@);
        if i > 0 {
            for k in 0..sep.len()
                invariant
                    out@ == join(pv.take(i as int), sep@) + sep@.take(k as int),
            {
                out.push(sep[k]);
                assert(sep@.take(k + 1) == sep@.take(k as int).push(sep@[k as int]));
            }
            assert(sep@.take(sep@.len() as int) == sep@);
        }
        let ghost before = out@;
        let part = &parts[i];
        for k in 0..part.len()
            invariant
                out@ == before + part@.take(k as int),
        {
            out.push(part[k]);
            assert(part@.take(k + 1) == part@.take(k as int).push(part@[k as int]));
        }
        assert(part@.take(part@.len() as int) == part@);
        if i == 0 {
            assert(join(pv.take(1), sep@) == pv.take(1)[0]);
        }
    }
    assert(char_views(parts@).take(n as int) == char_views(parts@));
    out
}

/// A text cell gives the same value and description when ASCII white space (a tab, a
/// line break, a space, ...) is added at either end of its text: cell text is trimmed.
pub proof fn law_cell_text_trimmed(s: Seq<char>, c: char, force_str: bool)
    requires
        ascii_space(c),
    ensures
        cell_result(Some(CellSpec::Str(s.push(c))), force_str) == cell_result(Some(CellSpec::Str(s)), force_str),
        cell_result(Some(CellSpec::Str(seq![c] + s)), force_str) == cell_result(
            Some(CellSpec::Str(s)),
            force_str,
        ),
{
    law_trim_drops_ascii_space(s, c);
}

/// The header of a column over two header rows is the text of the first row's cell, the
/// separator, and the text of the second row's cell, line breaks turned into spaces.
pub proof fn law_two_header_rows_joined(sheet: Sheet, r1: u32, r2: u32, col: u32, sep: Seq<char>)
    requires
        cell_result(cell_of(sheet, r1, col), true) is Ok,
        cell_result(cell_of(sheet, r2, col), true) is Ok,
    ensures
        header_spec(sheet, seq![r1, r2], col, sep) == Ok::<Seq<char>, ErrorSpec>(
            clean_header(cell_result(cell_of(sheet, r1, col), true)->Ok_0.1) + sep + clean_header(
                cell_result(cell_of(sheet, r2, col), true)->Ok_0.1,
            ),
        ),
{
    let rows = seq![r1, r2];
    assert(rows.drop_last() =~= seq![r1]);
    assert(seq![r1].drop_last() =~= Seq::<u32>::empty());
    let p1 = clean_header(cell_result(cell_of(sheet, r1, col), true)->Ok_0.1);
    let p2 = clean_header(cell_result(cell_of(sheet, r2, col), true)->Ok_0.1);
    assert(header_parts(sheet, Seq::<u32>::empty(), col) == Ok::<Seq<Seq<char>>, ErrorSpec>(Seq::empty()));
    assert(seq![r1].last() == r1);
    assert(rows.last() == r2);
    assert(header_parts(sheet, seq![r1], col) == Ok::<Seq<Seq<char>>, ErrorSpec>(seq![p1])) by {
        assert(Seq::<Seq<char>>::empty().push(p1) =~= seq![p1]);
    }
    assert(header_parts(sheet, rows, col) == Ok::<Seq<Seq<char>>, ErrorSpec>(seq![p1, p2])) by {
        assert(seq![p1].push(p2) =~= seq![p1, p2]);
    }
    assert(seq![p1, p2].drop_last() =~= seq![p1]);
    assert(join(seq![p1], sep) == p1);
    assert(seq![p1, p2].last() == p2);
}

} // verus!
