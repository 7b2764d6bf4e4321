# rust_query

Builds SQL `SELECT` statements from table descriptions, with every step
specified and proved in Verus.

- `column`, `column_map`: columns, and the columns of each table keyed by
  table name (entries in order, a repeated name replacing the columns in place).
- `query::select`: a `SELECT` with optional `WHERE`, `ORDER BY`, `LIMIT` and
  `OFFSET`, and its text.
- `reference`: the join clause of one foreign-key description
  (`"<table> ON <conditions>"` or `"<conditions>"`).
- `table`: `ReferenceJoin`, `Reference`, the `Table` trait that tables
  implement and the `Queries` every table gets.
- `joins`: the columns a query selects and the tables it joins, visiting the
  references as a queue in which each reference is handled once.
- `derive`: what deriving `Table` or `MySQLRow` decides from a struct's
  fields, attributes and field types.
- `basic`: a lighter API whose columns carry only a name, with its own
  `select_all` and derive decisions.
- `mysqlrow`: `RowFlatten`, and `merge_rows`, which merges rows with equal
  identifiers in order of first appearance.
- `text`: searching, splitting and joining text, as specified sequences of characters.

`app/main.rs` prints the columns and the query of a table that refers to two others.
