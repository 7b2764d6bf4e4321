//! Building SQL `SELECT` statements from table descriptions: the columns of
//! a table, the tables its foreign keys reach, and the join clauses between them.
pub mod basic;
pub mod column;
pub mod column_map;
pub mod derive;
pub mod joins;
pub mod mysqlrow;
pub mod query;
pub mod reference;
pub mod table;
pub mod text;
