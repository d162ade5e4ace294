# data_generation

The logic of a transport-data pipeline, verified with Verus.

- `src/no_change.rs`: journeys on one route between two districts (no change of vehicle),
  and the segments that make up each journey; `src/no_change_laws.rs` proves that the
  journeys found are exactly the forward journeys on non-MTR routes between listed districts.
- `src/change_once.rs`: the list of districts, and the candidate journeys with one change
  between districts that no route joins directly; `src/change_once_laws.rs` proves both exact.
- `src/add_columns.rs`: the lookups that widen the journey table, and the MTR rows carried over.
- `src/combine.rs`: the transport labels and stop counts of the combined table.
- `src/step.rs`: the pipeline step chosen by name.
- `app/`: the command-line driver; it reads and writes the CSV tables with polars and keeps
  the floating-point work (walking distances, summed lengths and prices).
- `tests/`: tests on concrete tables.
