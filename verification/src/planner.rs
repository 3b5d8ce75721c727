//! A light planning pass: summarizes a statement as the step the
//! executor will take.

use vstd::prelude::*;
use crate::catalog::{type_label, type_name_spec};
use crate::filter::clone_string;
use crate::stmt::{SelectItem, Statement, StatementS};
use crate::text::string_from_chars;

verus! {

/// The summarized step of one statement.
#[derive(Debug, Clone, PartialEq)]
pub enum Plan {
    CreateTable { name: String, columns: Vec<(String, String)> },
    Insert { table: String, rows: usize },
    Select { table: String, columns: Vec<String> },
    Delete { table: String, has_where: bool },
    Update { table: String, assignments: usize, has_where: bool },
    DropTable { name: String, if_exists: bool },
    ShowTables,
    DescribeTable { name: String },
}

pub struct Planner;

impl Planner {
    /// Summarizes a statement. The summary carries the table acted on,
    /// and per kind: the columns with their type discriminators, the row
    /// or assignment count, the projected names (`*` for a wildcard), or
    /// the predicate's presence.
    pub fn plan(statement: Statement) -> (p: Plan)
        ensures
            match statement@ {
                StatementS::CreateTable { name, columns } => p matches Plan::CreateTable {
                    name: pn,
                    columns: pc,
                } && pn@ == name && pc@.len() == columns.len() && (forall|i: int|
                    0 <= i < columns.len() ==> (#[trigger] pc@[i]).0@ == columns[i].name
                        && pc@[i].1@ == type_name_spec(columns[i].data_type)),
                StatementS::Insert { table, columns: _, values } => p matches Plan::Insert {
                    table: pt,
                    rows,
                } && pt@ == table && rows == values.len(),
                StatementS::Select { table, projection, .. } => p matches Plan::Select {
                    table: pt,
                    columns: pc,
                } && pt@ == table && pc@.len() == projection.len() && (forall|i: int|
                    0 <= i < projection.len() ==> (#[trigger] pc@[i])@ == (match projection[i] {
                        crate::stmt::SelectItemS::Wildcard => seq!['*'],
                        crate::stmt::SelectItemS::Column { name, alias: _ } => name,
                    })),
                StatementS::Delete { table, where_clause } => p matches Plan::Delete {
                    table: pt,
                    has_where,
                } && pt@ == table && has_where == where_clause is Some,
                StatementS::Update { table, assignments, where_clause } => p matches Plan::Update {
                    table: pt,
                    assignments: pa,
                    has_where,
                } && pt@ == table && pa == assignments.len() && has_where
                    == where_clause is Some,
                StatementS::DropTable { name, if_exists } => p matches Plan::DropTable {
                    name: pn,
                    if_exists: pe,
                } && pn@ == name && pe == if_exists,
                StatementS::ShowTables => p is ShowTables,
                StatementS::DescribeTable { name } => p matches Plan::DescribeTable { name: pn }
                    && pn@ == name,
            },
    {
        match statement {
            Statement::CreateTable { name, columns } => {
                let mut cols: Vec<(String, String)> = Vec::new();
                let n = columns.len();
                let mut i: usize = 0;
                while i < n
                    invariant
                        0 <= i <= n,
                        n == columns@.len(),
                        cols@.len() == i,
                        forall|j: int|
                            0 <= j < i ==> (#[trigger] cols@[j]).0@ == columns@[j].name@
                                && cols@[j].1@ == type_name_spec(columns@[j].data_type),
                    decreases n - i,
                {
                    let cn = clone_string(&columns[i].name);
                    let tn = type_label(columns[i].data_type);
                    cols.push((cn, tn));
                    i = i + 1;
                }
                proof {
                    assert forall|j: int|
                        0 <= j < n implies (#[trigger] cols@[j]).0@ == cols_name_at(
                        statement@,
                        j,
                    ) by {
                        assert(crate::stmt::cols_view(columns@)[j] == columns@[j]@);
                    }
                }
                Plan::CreateTable { name, columns: cols }
            },
            Statement::Insert { table, columns: _, values } => Plan::Insert {
                table,
                rows: values.len(),
            },
            Statement::Select { table, projection, .. } => {
                let mut cols: Vec<String> = Vec::new();
                let n = projection.len();
                let mut i: usize = 0;
                while i < n
                    invariant
                        0 <= i <= n,
                        n == projection@.len(),
                        cols@.len() == i,
                        forall|j: int|
                            0 <= j < i ==> (#[trigger] cols@[j])@ == (match crate::stmt::items_view(
                                projection@,
                            )[j] {
                                crate::stmt::SelectItemS::Wildcard => seq!['*'],
                                crate::stmt::SelectItemS::Column { name, alias: _ } => name,
                            }),
                    decreases n - i,
                {
                    proof {
                        assert(crate::stmt::items_view(projection@)[i as int]
                            == projection@[i as int]@);
                    }
                    match &projection[i] {
                        SelectItem::Wildcard => {
                            let mut star: Vec<char> = Vec::new();
                            star.push('*');
                            proof {
                                assert(star@ =~= seq!['*']);
                            }
                            cols.push(string_from_chars(&star));
                        },
                        SelectItem::Column { name, alias: _ } => {
                            cols.push(clone_string(name));
                        },
                    }
                    i = i + 1;
                }
                Plan::Select { table, columns: cols }
            },
            Statement::Delete { table, where_clause } => Plan::Delete {
                table,
                has_where: where_clause.is_some(),
            },
            Statement::Update { table, assignments, where_clause } => Plan::Update {
                table,
                assignments: assignments.len(),
                has_where: where_clause.is_some(),
            },
            Statement::DropTable { name, if_exists } => Plan::DropTable { name, if_exists },
            Statement::ShowTables => Plan::ShowTables,
            Statement::DescribeTable { name } => Plan::DescribeTable { name },
        }
    }
}

/// The name of column `j` of a `CREATE TABLE` statement's model.
pub open spec fn cols_name_at(s: StatementS, j: int) -> Seq<char> {
    match s {
        StatementS::CreateTable { name: _, columns } => columns[j].name,
        _ => Seq::empty(),
    }
}

} // verus!
