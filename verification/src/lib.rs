//! Sorting of records for the virtual machine and the bytecode emission of
//! compound SELECT statements.
pub mod ast;
pub mod collate;
pub mod types;
pub mod sorter;
pub mod schema;
pub mod plan;
pub mod builder;
pub mod error;
pub mod compound_select;
pub mod compound_laws;
pub mod wide_table;
