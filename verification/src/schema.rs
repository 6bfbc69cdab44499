//! Index descriptions.
use crate::ast::SortOrder;
use crate::collate::CollationSeq;
use vstd::prelude::*;

verus! {

/// One column of an index.
#[derive(Debug, PartialEq, Eq)]
pub struct IndexColumn {
    pub name: String,
    pub order: SortOrder,
    pub pos_in_table: usize,
    pub collation: Option<CollationSeq>,
}

/// What an index column is.
pub struct IndexColumnView {
    pub name: Seq<char>,
    pub order: SortOrder,
    pub pos_in_table: usize,
    pub collation: Option<CollationSeq>,
}

impl View for IndexColumn {
    type V = IndexColumnView;

    open spec fn view(&self) -> IndexColumnView {
        IndexColumnView {
            name: self.name@,
            order: self.order,
            pos_in_table: self.pos_in_table,
            collation: self.collation,
        }
    }
}

impl Clone for IndexColumn {
    fn clone(&self) -> (r: Self)
        ensures
            r@ == self@,
    {
        IndexColumn {
            name: self.name.clone(),
            order: self.order,
            pos_in_table: self.pos_in_table,
            collation: self.collation,
        }
    }
}

/// An index: its name, the table it belongs to, and its columns.
#[derive(Debug, PartialEq, Eq)]
pub struct Index {
    pub name: String,
    pub table_name: String,
    pub root_page: usize,
    pub columns: Vec<IndexColumn>,
    pub unique: bool,
    pub ephemeral: bool,
    pub has_rowid: bool,
}

/// What an index is.
pub struct IndexView {
    pub name: Seq<char>,
    pub table_name: Seq<char>,
    pub root_page: usize,
    pub columns: Seq<IndexColumnView>,
    pub unique: bool,
    pub ephemeral: bool,
    pub has_rowid: bool,
}

impl View for Index {
    type V = IndexView;

    open spec fn view(&self) -> IndexView {
        IndexView {
            name: self.name@,
            table_name: self.table_name@,
            root_page: self.root_page,
            columns: self.columns@.map_values(|c: IndexColumn| c@),
            unique: self.unique,
            ephemeral: self.ephemeral,
            has_rowid: self.has_rowid,
        }
    }
}

impl Clone for Index {
    fn clone(&self) -> (r: Self)
        ensures
            r@ == self@,
    {
        let mut columns: Vec<IndexColumn> = Vec::new();
        for i in 0..self.columns.len()
            invariant
                columns@.len() == i,
                forall|j: int| 0 <= j < i ==> columns@[j]@ == self.columns@[j]@,
        {
            columns.push(self.columns[i].clone());
        }
        let r = Index {
            name: self.name.clone(),
            table_name: self.table_name.clone(),
            root_page: self.root_page,
            columns,
            unique: self.unique,
            ephemeral: self.ephemeral,
            has_rowid: self.has_rowid,
        };
        assert(r@.columns =~= self@.columns);
        r
    }
}

} // verus!
