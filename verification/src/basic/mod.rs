//! A lighter API: a column is only a name, and a query selects
//! `<table>.<column>` from the tables it is given.
pub mod column;
pub mod derive;
pub mod select;
pub mod table;
