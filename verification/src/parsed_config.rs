use vstd::prelude::*;
use crate::folds::lemma_stop_carries;
use crate::error::{ErrorOf, ExtractError, ErrorSpec};
use crate::json::{JsonMap, JsonValue, JsonSpec, Entries, lookup, has_key, as_u64, as_array, as_str, as_object, models, lemma_array_model};
use crate::conversions::{column_index_spec, column_name_to_index};
use crate::dataframe::elem;

verus! {

/// Pre-parsed column specification with indices already computed.
///
/// Instead of parsing column names like "A", "B" on every row iteration,
/// the numeric indices are computed once during config parsing.
#[derive(Debug, Clone)]
pub struct ParsedColumn {
    /// The output key name for this column in the result JSON
    pub name: String,
    /// Pre-computed column indices (0-based). May have multiple indices
    /// when the column spec is an array like ["A", "B"] for merged values.
    pub indices: Vec<u32>,
}

/// Pre-parsed configuration for multirow extraction.
///
/// Holds all configuration values parsed and validated once,
/// before the row loop.
#[derive(Debug)]
pub struct ParsedMultirowConfig {
    /// Starting row number (1-based, as specified in config)
    pub start_row: u32,
    /// Ending row number (1-based, as specified in config)
    pub end_row: u32,
    /// Pre-parsed column specifications with computed indices
    pub columns: Vec<ParsedColumn>,
    /// Pre-computed column indices for unique_id (empty if no unique_id)
    pub unique_id_indices: Vec<u32>,
    /// Separator for joining composite unique_id parts
    pub unique_id_separator: String,
    /// Whether unique_id is being used
    pub use_unique_id: bool,
}

/// The model of a `ParsedColumn`.
pub struct ColumnSpec {
    pub name: Seq<char>,
    pub indices: Seq<u32>,
}

/// The model of a `ParsedMultirowConfig`.
pub struct MultirowSpec {
    pub start_row: u32,
    pub end_row: u32,
    pub columns: Seq<ColumnSpec>,
    pub unique_id_indices: Seq<u32>,
    pub unique_id_separator: Seq<char>,
    pub use_unique_id: bool,
}

impl ParsedColumn {
    pub open spec fn model(self) -> ColumnSpec {
        ColumnSpec { name: self.name@, indices: self.indices@ }
    }
}

/// The models of a sequence of columns.
pub open spec fn column_models(v: Seq<ParsedColumn>) -> Seq<ColumnSpec> {
    Seq::new(v.len(), |i: int| v[i].model())
}

impl ParsedMultirowConfig {
    pub open spec fn model(self) -> MultirowSpec {
        MultirowSpec {
            start_row: self.start_row,
            end_row: self.end_row,
            columns: column_models(self.columns@),
            unique_id_indices: self.unique_id_indices@,
            unique_id_separator: self.unique_id_separator@,
            use_unique_id: self.use_unique_id,
        }
    }
}

/// Which list of column names is being read; it decides the errors.
pub enum ListKind {
    /// An output column merged from several sheet columns.
    Columns,
    /// The columns of a composite unique id.
    UniqueId,
    /// The columns a stop condition watches.
    Stop,
}

/// The error for an entry at `i` that is not a string.
pub open spec fn not_string_error(k: ListKind, i: usize) -> ErrorSpec {
    match k {
        ListKind::Columns => ErrorOf::ColumnArrayNotString(i),
        ListKind::UniqueId => ErrorOf::UniqueIdArrayNotString(i),
        ListKind::Stop => ErrorOf::StopArrayNotString(i),
    }
}

/// The error for an entry `s` that names no column.
pub open spec fn bad_column_error(k: ListKind, s: Seq<char>) -> ErrorSpec {
    match k {
        ListKind::Columns => ErrorOf::InvalidColumn(s),
        ListKind::UniqueId => ErrorOf::InvalidUniqueIdColumn(s),
        ListKind::Stop => ErrorOf::InvalidStopColumn(s),
    }
}

/// The 0-based indices of an array of column names, in order; the first error if an
/// entry is not a string or names no column.
pub open spec fn column_list_spec(a: Seq<JsonSpec>, k: ListKind) -> Result<Seq<u32>, ErrorSpec>
    decreases a.len(),
{
    if a.len() == 0 {
        Ok(Seq::empty())
    } else {
        match column_list_spec(a.drop_last(), k) {
            Err(e) => Err(e),
            Ok(acc) => match a.last() {
                JsonSpec::Str(s) => match column_index_spec(s) {
                    Ok(c) => Ok(acc.push(c)),
                    Err(_) => Err(bad_column_error(k, s)),
                },
                _ => Err(not_string_error(k, (a.len() - 1) as usize)),
            },
        }
    }
}

proof fn lemma_column_list_err(a: Seq<JsonSpec>, k: ListKind, j: int)
    requires
        0 <= j <= a.len(),
        column_list_spec(a.take(j), k) is Err,
    ensures
        column_list_spec(a, k) == column_list_spec(a.take(j), k),
{
    let f = |c: Seq<JsonSpec>| column_list_spec(c, k);
    let stops = |r| r is Err;
    assert forall|k: int| 0 <= k < a.len() && stops(#[trigger] f(a.take(k))) implies f(a.take(k + 1)) == f(
        a.take(k),
    ) by {
        assert(a.take(k + 1).drop_last() == a.take(k));
    }
    lemma_stop_carries(f, stops, a, j);
}

/// The 0-based indices of an array of column names.
pub fn parse_column_list(a: &Vec<JsonValue>, k: ListKind) -> (r: Result<Vec<u32>, ExtractError>)
    ensures
        match column_list_spec(models(a@), k) {
            Ok(v) => r matches Ok(x) && x@ == v,
            Err(e) => r matches Err(x) && x.model() == e,
        },
{
    let ghost ms = models(a@);
    let mut out: Vec<u32> = Vec::new();
    let n = a.len();
    assert(ms.take(0) =~= Seq::<JsonSpec>::empty());
    for i in 0..n
        invariant
            n == a@.len(),
            ms == models(a@),
            column_list_spec(ms.take(i as int), k) == Ok::<Seq<u32>, ErrorSpec>(out@),
    {
        assert(ms.take(i + 1).drop_last() == ms.take(i as int));
        assert(ms.take(i + 1).last() == a@[i as int].model());
        match &a[i] {
            JsonValue::Str(s) => {
                match column_name_to_index(s.as_str()) {
                    Ok(c) => {
                        out.push(c);
                    },
                    Err(_) => {
                        proof {
                            lemma_column_list_err(ms, k, i + 1);
                        }
                        let name = s.clone();
                        return Err(
                            match k {
                                ListKind::Columns => ErrorOf::InvalidColumn(name),
                                ListKind::UniqueId => ErrorOf::InvalidUniqueIdColumn(name),
                                ListKind::Stop => ErrorOf::InvalidStopColumn(name),
                            },
                        );
                    },
                }
            },
            _ => {
                proof {
                    lemma_column_list_err(ms, k, i + 1);
                }
                return Err(
                    match k {
                        ListKind::Columns => ErrorOf::ColumnArrayNotString(i),
                        ListKind::UniqueId => ErrorOf::UniqueIdArrayNotString(i),
                        ListKind::Stop => ErrorOf::StopArrayNotString(i),
                    },
                );
            },
        }
    }
    assert(ms.take(n as int) == ms);
    Ok(out)
}

/// The indices of an output column: one column name, or an array of them to merge.
pub open spec fn column_spec_spec(spec: JsonSpec) -> Result<Seq<u32>, ErrorSpec> {
    match spec {
        JsonSpec::Str(s) => match column_index_spec(s) {
            Ok(c) => Ok(seq![c]),
            Err(_) => Err(ErrorOf::InvalidColumnInSpec(s)),
        },
        JsonSpec::Array(a) => column_list_spec(a, ListKind::Columns),
        _ => Err(ErrorOf::ColumnSpecType),
    }
}

/// The indices of the unique id: one column name, or a non-empty array of them.
pub open spec fn unique_id_spec(v: JsonSpec) -> Result<Seq<u32>, ErrorSpec> {
    match v {
        JsonSpec::Str(s) => match column_index_spec(s) {
            Ok(c) => Ok(seq![c]),
            Err(_) => Err(ErrorOf::InvalidUniqueIdColumn(s)),
        },
        JsonSpec::Array(a) => if a.len() == 0 {
            Err(ErrorOf::EmptyUniqueId)
        } else {
            column_list_spec(a, ListKind::UniqueId)
        },
        _ => Err(ErrorOf::UniqueIdType),
    }
}

/// The output columns, each with its indices, in order; the first error if one fails.
pub open spec fn columns_spec(cols: Entries) -> Result<Seq<ColumnSpec>, ErrorSpec>
    decreases cols.len(),
{
    if cols.len() == 0 {
        Ok(Seq::empty())
    } else {
        match columns_spec(cols.drop_last()) {
            Err(e) => Err(e),
            Ok(acc) => match column_spec_spec(cols.last().1) {
                Err(e) => Err(e),
                Ok(ix) => Ok(acc.push(ColumnSpec { name: cols.last().0, indices: ix })),
            },
        }
    }
}

proof fn lemma_columns_err(cols: Entries, j: int)
    requires
        0 <= j <= cols.len(),
        columns_spec(cols.take(j)) is Err,
    ensures
        columns_spec(cols) == columns_spec(cols.take(j)),
{
    let f = |c: Seq<(Seq<char>, JsonSpec)>| columns_spec(c);
    let stops = |r| r is Err;
    assert forall|k: int| 0 <= k < cols.len() && stops(#[trigger] f(cols.take(k))) implies f(cols.take(k + 1)) == f(
        cols.take(k),
    ) by {
        assert(cols.take(k + 1).drop_last() == cols.take(k));
    }
    lemma_stop_carries(f, stops, cols, j);
}

/// The settings that multirow instructions give.
pub open spec fn multirow_config_spec(ins: Entries) -> Result<MultirowSpec, ErrorSpec> {
    let rr = match lookup(ins, "row_range"@) {
        Some(v) => as_array(v),
        None => None,
    };
    match rr {
        None => Err(ErrorOf::MissingRowRange),
        Some(rr) => {
            let start = match elem(rr, 0) {
                Some(v) => as_u64(v),
                None => None,
            };
            let end = match elem(rr, 1) {
                Some(v) => as_u64(v),
                None => None,
            };
            let cols = match lookup(ins, "columns"@) {
                Some(v) => as_object(v),
                None => None,
            };
            match (start, end, cols) {
                (None, _, _) => Err(ErrorOf::MissingStartRow),
                (Some(_), None, _) => Err(ErrorOf::MissingEndRow),
                (Some(_), Some(_), None) => Err(ErrorOf::MissingColumns),
                (Some(s), Some(e), Some(cols)) => match columns_spec(cols) {
                    Err(err) => Err(err),
                    Ok(columns) => {
                        let use_uid = has_key(ins, "unique_id"@);
                        let uid = if use_uid {
                            unique_id_spec(lookup(ins, "unique_id"@)->0)
                        } else {
                            Ok(Seq::empty())
                        };
                        match uid {
                            Err(err) => Err(err),
                            Ok(ix) => Ok(MultirowSpec {
                                start_row: s as u32,
                                end_row: e as u32,
                                columns,
                                unique_id_indices: ix,
                                unique_id_separator: match lookup(ins, "unique_id_separator"@) {
                                    Some(v) => match as_str(v) {
                                        Some(t) => t,
                                        None => "_"@,
                                    },
                                    None => "_"@,
                                },
                                use_unique_id: use_uid,
                            }),
                        }
                    },
                },
            }
        },
    }
}

impl ParsedMultirowConfig {
    /// Parse and validate multirow extraction instructions upfront.
    ///
    /// This converts all column names to indices once, rather than
    /// on every row iteration.
    pub fn from_instructions(instructions: &JsonMap) -> (r: Result<Self, ExtractError>)
        ensures
            match multirow_config_spec(instructions.model()) {
                Ok(c) => r matches Ok(x) && x.model() == c,
                Err(e) => r matches Err(x) && x.model() == e,
            },
    {
        let rr = match instructions.get("row_range") {
            Some(v) => v.as_array(),
            None => None,
        };
        let rr = match rr {
            None => {
                return Err(ErrorOf::MissingRowRange);
            },
            Some(a) => a,
        };
        let start = if rr.len() > 0 {
            rr[0].as_u64()
        } else {
            None
        };
        let start_row = match start {
            Some(s) => s as u32,
            None => {
                return Err(ErrorOf::MissingStartRow);
            },
        };
        let end = if rr.len() > 1 {
            rr[1].as_u64()
        } else {
            None
        };
        let end_row = match end {
            Some(e) => e as u32,
            None => {
                return Err(ErrorOf::MissingEndRow);
            },
        };
        let columns_map = match instructions.get("columns") {
            Some(v) => v.as_object(),
            None => None,
        };
        let columns_map = match columns_map {
            Some(m) => m,
            None => {
                return Err(ErrorOf::MissingColumns);
            },
        };
        let ghost cm = columns_map.model();
        proof {
            lemma_array_model(*rr);
        }
        let mut columns: Vec<ParsedColumn> = Vec::new();
        let n = columns_map.entries.len();
        assert(cm.take(0) =~= Seq::<(Seq<char>, JsonSpec)>::empty());
        assert(column_models(columns@) =~= Seq::<ColumnSpec>::empty());
        for i in 0..n
            invariant
                n == columns_map.entries@.len(),
                cm == columns_map.model(),
                match lookup(instructions.model(), "columns"@) {
                    Some(v) => as_object(v) == Some(cm),
                    None => false,
                },
                match lookup(instructions.model(), "row_range"@) {
                    Some(v) => as_array(v) == Some(models(rr@)),
                    None => false,
                },
                rr@.len() > 1,
                as_u64(rr@[0].model()) == Some(start.unwrap()),
                as_u64(rr@[1].model()) == Some(end.unwrap()),
                start is Some && end is Some,
                columns_spec(cm.take(i as int)) == Ok::<Seq<ColumnSpec>, ErrorSpec>(column_models(columns@)),
        {
            assert(cm.take(i + 1).drop_last() == cm.take(i as int));
            assert(cm.take(i + 1).last() == (columns_map.entries@[i as int].0@, columns_map.entries@[i as int].1.model()));
            let indices = match Self::parse_column_spec(&columns_map.entries[i].1) {
                Ok(ix) => ix,
                Err(e) => {
                    proof {
                        lemma_columns_err(cm, i + 1);
                    }
                    return Err(e);
                },
            };
            let col = ParsedColumn { name: columns_map.entries[i].0.clone(), indices };
            let ghost old_cols = columns@;
            let ghost cmod = col.model();
            columns.push(col);
            assert(column_models(columns@) =~= column_models(old_cols).push(cmod));
        }
        assert(cm.take(n as int) == cm);
        let use_unique_id = instructions.contains_key("unique_id");
        let unique_id_indices = if use_unique_id {
            match instructions.get("unique_id") {
                Some(v) => Self::parse_unique_id(v)?,
                None => Vec::new(),
            }
        } else {
            Vec::new()
        };
        let unique_id_separator = match instructions.get("unique_id_separator") {
            Some(v) => match v.as_str() {
                Some(s) => s.to_owned(),
                None => "_".to_owned(),
            },
            None => "_".to_owned(),
        };
        proof {
            lemma_array_model(*rr);
        }
        Ok(ParsedMultirowConfig {
            start_row,
            end_row,
            columns,
            unique_id_indices,
            unique_id_separator,
            use_unique_id,
        })
    }

    /// Parse a column specification which can be a string ("A") or array (["A", "B"]).
    fn parse_column_spec(spec: &JsonValue) -> (r: Result<Vec<u32>, ExtractError>)
        ensures
            match column_spec_spec(spec.model()) {
                Ok(v) => r matches Ok(x) && x@ == v,
                Err(e) => r matches Err(x) && x.model() == e,
            },
    {
        match spec {
            JsonValue::Str(s) => match column_name_to_index(s.as_str()) {
                Ok(idx) => Ok(vec![idx]),
                Err(_) => Err(ErrorOf::InvalidColumnInSpec(s.clone())),
            },
            JsonValue::Array(arr) => {
                proof {
                    lemma_array_model(*arr);
                }
                parse_column_list(arr, ListKind::Columns)
            },
            _ => Err(ErrorOf::ColumnSpecType),
        }
    }

    /// Parse unique_id specification which can be a string or array of strings.
    fn parse_unique_id(value: &JsonValue) -> (r: Result<Vec<u32>, ExtractError>)
        ensures
            match unique_id_spec(value.model()) {
                Ok(v) => r matches Ok(x) && x@ == v,
                Err(e) => r matches Err(x) && x.model() == e,
            },
    {
        match value {
            JsonValue::Str(s) => match column_name_to_index(s.as_str()) {
                Ok(idx) => Ok(vec![idx]),
                Err(_) => Err(ErrorOf::InvalidUniqueIdColumn(s.clone())),
            },
            JsonValue::Array(arr) => {
                proof {
                    lemma_array_model(*arr);
                }
                if arr.len() == 0 {
                    return Err(ErrorOf::EmptyUniqueId);
                }
                parse_column_list(arr, ListKind::UniqueId)
            },
            _ => Err(ErrorOf::UniqueIdType),
        }
    }
}

} // verus!
