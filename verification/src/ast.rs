//! The parts of the SQL syntax tree that this library reads.
use vstd::prelude::*;

verus! {

/// Direction of one sort key.
#[derive(Clone, Copy, Debug, PartialEq, Eq, Structural)]
pub enum SortOrder {
    /// `ASC`
    Asc,
    /// `DESC`
    Desc,
}

/// The operator that joins two SELECTs of a compound SELECT.
#[derive(Clone, Copy, Debug, PartialEq, Eq, Structural)]
pub enum CompoundOperator {
    /// `UNION`
    Union,
    /// `UNION ALL`
    UnionAll,
    /// `EXCEPT`
    Except,
    /// `INTERSECT`
    Intersect,
}

} // verus!
