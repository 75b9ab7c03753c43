# sheet_excavator

Extraction of structured data from Excel forms into JSON: single cells, repeating row
patterns and column-oriented tables, over sheets picked by name or wildcard, for many
files at once.

## Layout

- `src/` is the extraction logic, verified with Verus. Every public function states its
  result over a mathematical model (`JsonSpec` for JSON values, `CellSpec` for sheet
  cells, `Seq<char>` for text), and the `law_*` proof functions state the properties that
  hold across calls.
  - `json.rs`: the JSON values the logic reads and builds, as ordered objects.
  - `conversions.rs`: column names, cell addresses, file names.
  - `manipulations.rs`: sheets, cell values, headers and columns.
  - `single_cells.rs`, `multirow_patterns.rs`, `parsed_config.rs`, `dataframe.rs`: the
    three extraction functions and their settings.
  - `sheets.rs`: wildcard sheet matching and the sheets of a sheet group.
  - `helpers.rs`: keys that never overwrite (`name`, `name_1`, `name_2`, ...).
  - `read_excel.rs`: one workbook under a list of sheet groups.
  - `parallel.rs`: gathering the results of many files.
  - `folds.rs`: the lemma that an error met on a prefix is the result of the whole run.
  - `index_map.rs`, `text.rs`: the calls into `indexmap` and `std` that the proofs rely on.
- `app/` is the Python extension around it: `pyo3` argument conversion, opening the
  workbooks with `calamine`, the `tokio` worker pool, and floating-point formatting.
- `tests/` runs the library on concrete sheets and configurations.
