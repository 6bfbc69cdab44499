//! Query plans, as far as the emission of compound SELECTs reads them.
use crate::ast::{CompoundOperator, SortOrder};
use crate::builder::BranchOffset;
use crate::schema::{Index, IndexView};
use vstd::prelude::*;

verus! {

/// One column of a SELECT's result.
#[derive(Debug, PartialEq, Eq)]
pub struct ResultSetColumn {
    /// The name the column goes by (its alias, or the name of the table
    /// column it reads), if it has one.
    pub name: Option<String>,
}

impl View for ResultSetColumn {
    type V = Option<Seq<char>>;

    open spec fn view(&self) -> Option<Seq<char>> {
        match &self.name {
            Some(n) => Some(n@),
            None => None,
        }
    }
}

impl Clone for ResultSetColumn {
    fn clone(&self) -> (r: Self)
        ensures
            r@ == self@,
    {
        let name = match &self.name {
            Some(n) => Some(n.clone()),
            None => None,
        };
        ResultSetColumn { name }
    }
}

impl ResultSetColumn {
    /// The name of the column, if it has one.
    pub fn name(&self) -> (r: Option<&String>)
        ensures
            r is Some <==> self.name is Some,
            r matches Some(n) ==> self@ == Some(n@),
    {
        self.name.as_ref()
    }
}

/// A table that a SELECT reads, by the identifier it goes by in the query.
#[derive(Debug, PartialEq, Eq)]
pub struct TableReference {
    pub identifier: String,
}

impl View for TableReference {
    type V = Seq<char>;

    open spec fn view(&self) -> Seq<char> {
        self.identifier@
    }
}

impl Clone for TableReference {
    fn clone(&self) -> (r: Self)
        ensures
            r@ == self@,
    {
        TableReference { identifier: self.identifier.clone() }
    }
}

/// Where the rows of a SELECT go.
#[derive(Debug, PartialEq, Eq)]
pub enum QueryDestination {
    /// Out of the program, one result row each.
    ResultRows,
    /// Into an ephemeral index open on a cursor.
    EphemeralIndex { cursor_id: usize, index: Index },
    /// To a coroutine, through the registers that follow `yield_reg`.
    CoroutineYield { yield_reg: usize, coroutine_implementation_start: BranchOffset },
}

/// What a destination is.
pub enum DestinationView {
    ResultRows,
    EphemeralIndex { cursor_id: usize, index: IndexView },
    CoroutineYield { yield_reg: usize, coroutine_implementation_start: BranchOffset },
}

impl View for QueryDestination {
    type V = DestinationView;

    open spec fn view(&self) -> DestinationView {
        match self {
            QueryDestination::ResultRows => DestinationView::ResultRows,
            QueryDestination::EphemeralIndex { cursor_id, index } => DestinationView::EphemeralIndex {
                cursor_id: *cursor_id,
                index: index@,
            },
            QueryDestination::CoroutineYield { yield_reg, coroutine_implementation_start } =>
                DestinationView::CoroutineYield {
                yield_reg: *yield_reg,
                coroutine_implementation_start: *coroutine_implementation_start,
            },
        }
    }
}

impl Clone for QueryDestination {
    fn clone(&self) -> (r: Self)
        ensures
            r@ == self@,
    {
        match self {
            QueryDestination::ResultRows => QueryDestination::ResultRows,
            QueryDestination::EphemeralIndex { cursor_id, index } => QueryDestination::EphemeralIndex {
                cursor_id: *cursor_id,
                index: index.clone(),
            },
            QueryDestination::CoroutineYield { yield_reg, coroutine_implementation_start } =>
                QueryDestination::CoroutineYield {
                yield_reg: *yield_reg,
                coroutine_implementation_start: *coroutine_implementation_start,
            },
        }
    }
}

/// The plan of one simple SELECT.
#[derive(Debug, PartialEq, Eq)]
pub struct SelectPlan {
    pub result_columns: Vec<ResultSetColumn>,
    pub table_references: Vec<TableReference>,
    pub query_destination: QueryDestination,
    pub limit: Option<isize>,
    pub offset: Option<isize>,
}

/// What a SELECT plan is.
pub struct SelectPlanView {
    pub result_columns: Seq<Option<Seq<char>>>,
    pub table_references: Seq<Seq<char>>,
    pub query_destination: DestinationView,
    pub limit: Option<isize>,
    pub offset: Option<isize>,
}

impl View for SelectPlan {
    type V = SelectPlanView;

    open spec fn view(&self) -> SelectPlanView {
        SelectPlanView {
            result_columns: self.result_columns@.map_values(|c: ResultSetColumn| c@),
            table_references: self.table_references@.map_values(|t: TableReference| t@),
            query_destination: self.query_destination@,
            limit: self.limit,
            offset: self.offset,
        }
    }
}

/// A query plan.
#[derive(Debug, PartialEq, Eq)]
pub enum Plan {
    /// A simple SELECT.
    Select(SelectPlan),
    /// `left[0].0 left[0].1 left[1].0 left[1].1 ... right_most`: SELECTs
    /// joined by compound operators, with the LIMIT, OFFSET and ORDER BY of
    /// the whole statement (ORDER BY as result column and direction).
    CompoundSelect {
        left: Vec<(SelectPlan, CompoundOperator)>,
        right_most: SelectPlan,
        limit: Option<isize>,
        offset: Option<isize>,
        order_by: Option<Vec<(usize, SortOrder)>>,
    },
}

/// The views of the SELECTs left of the right-most one, with the operator
/// that follows each.
pub open spec fn left_views(left: Seq<(SelectPlan, CompoundOperator)>) -> Seq<(SelectPlanView, CompoundOperator)> {
    left.map_values(|p: (SelectPlan, CompoundOperator)| (p.0@, p.1))
}

} // verus!
