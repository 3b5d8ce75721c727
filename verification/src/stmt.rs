//! The statement language the executor consumes, the schema types the
//! catalog stores, and their mathematical models.

use vstd::prelude::*;
use crate::expr::{Expr, ExprS};
use crate::value::{Value, ValueS};

verus! {

/// One column of a table: a name and a declared type.
#[derive(Debug, Clone, PartialEq)]
pub struct Column {
    pub name: String,
    pub data_type: crate::value::DataType,
}

/// A table's schema: its name and its columns in physical order.
#[derive(Debug, Clone, PartialEq)]
pub struct TableSchema {
    pub name: String,
    pub columns: Vec<Column>,
}

/// One `ORDER BY` key with its direction.
#[derive(Debug, Clone, PartialEq)]
pub struct OrderByClause {
    pub column: String,
    pub ascending: bool,
}

/// One projected output of a `SELECT`.
#[derive(Debug, Clone, PartialEq)]
pub enum SelectItem {
    Wildcard,
    Column { name: String, alias: Option<String> },
}

/// A parsed statement, ready for the executor.
#[derive(Debug, PartialEq)]
pub enum Statement {
    CreateTable { name: String, columns: Vec<Column> },
    DropTable { name: String, if_exists: bool },
    ShowTables,
    DescribeTable { name: String },
    Insert { table: String, columns: Option<Vec<String>>, values: Vec<Vec<Value>> },
    Select {
        table: String,
        projection: Vec<SelectItem>,
        where_clause: Option<Expr>,
        order_by: Option<Vec<OrderByClause>>,
        limit: Option<usize>,
    },
    Update {
        table: String,
        assignments: Vec<(String, Value)>,
        where_clause: Option<Expr>,
    },
    Delete { table: String, where_clause: Option<Expr> },
}

/// Model of a column.
pub struct ColumnS {
    pub name: Seq<char>,
    pub data_type: crate::value::DataType,
}

/// Model of an order key.
pub struct OrderS {
    pub column: Seq<char>,
    pub ascending: bool,
}

/// Model of a projected item.
pub enum SelectItemS {
    Wildcard,
    Column { name: Seq<char>, alias: Option<Seq<char>> },
}

/// Model of a statement.
pub enum StatementS {
    CreateTable { name: Seq<char>, columns: Seq<ColumnS> },
    DropTable { name: Seq<char>, if_exists: bool },
    ShowTables,
    DescribeTable { name: Seq<char> },
    Insert { table: Seq<char>, columns: Option<Seq<Seq<char>>>, values: Seq<Seq<ValueS>> },
    Select {
        table: Seq<char>,
        projection: Seq<SelectItemS>,
        where_clause: Option<ExprS>,
        order_by: Option<Seq<OrderS>>,
        limit: Option<usize>,
    },
    Update {
        table: Seq<char>,
        assignments: Seq<(Seq<char>, ValueS)>,
        where_clause: Option<ExprS>,
    },
    Delete { table: Seq<char>, where_clause: Option<ExprS> },
}

impl View for Column {
    type V = ColumnS;

    open spec fn view(&self) -> ColumnS {
        ColumnS { name: self.name@, data_type: self.data_type }
    }
}

impl View for OrderByClause {
    type V = OrderS;

    open spec fn view(&self) -> OrderS {
        OrderS { column: self.column@, ascending: self.ascending }
    }
}

impl View for SelectItem {
    type V = SelectItemS;

    open spec fn view(&self) -> SelectItemS {
        match self {
            SelectItem::Wildcard => SelectItemS::Wildcard,
            SelectItem::Column { name, alias } => SelectItemS::Column {
                name: name@,
                alias: match alias {
                    Some(a) => Some(a@),
                    None => None,
                },
            },
        }
    }
}

/// Model of a projection list.
pub open spec fn items_view(s: Seq<SelectItem>) -> Seq<SelectItemS> {
    s.map(|i: int, x: SelectItem| x@)
}

/// Model of an order-key list.
pub open spec fn orders_view(s: Seq<OrderByClause>) -> Seq<OrderS> {
    s.map(|i: int, o: OrderByClause| o@)
}

/// Model of an optional predicate.
pub open spec fn opt_expr_view(o: Option<Expr>) -> Option<ExprS> {
    match o {
        Some(e) => Some(e@),
        None => None,
    }
}

/// Model of an optional order-key list.
pub open spec fn opt_orders_view(o: Option<Vec<OrderByClause>>) -> Option<Seq<OrderS>> {
    match o {
        Some(os) => Some(orders_view(os@)),
        None => None,
    }
}

/// Model of a column vector.
pub open spec fn cols_view(cs: Seq<Column>) -> Seq<ColumnS> {
    cs.map(|i: int, c: Column| c@)
}

/// Model of a name vector.
pub open spec fn strings_view(ss: Seq<String>) -> Seq<Seq<char>> {
    ss.map(|i: int, s: String| s@)
}

/// Model of an assignment list.
pub open spec fn assigns_view(s: Seq<(String, Value)>) -> Seq<(Seq<char>, ValueS)> {
    s.map(|i: int, a: (String, Value)| (a.0@, a.1@))
}

/// Model of a vector of rows.
pub open spec fn rows_view(rs: Seq<Vec<Value>>) -> Seq<Seq<ValueS>> {
    rs.map(|i: int, r: Vec<Value>| crate::value::row_view(r@))
}

impl View for Statement {
    type V = StatementS;

    open spec fn view(&self) -> StatementS {
        match self {
            Statement::CreateTable { name, columns } => StatementS::CreateTable {
                name: name@,
                columns: cols_view(columns@),
            },
            Statement::DropTable { name, if_exists } => StatementS::DropTable {
                name: name@,
                if_exists: *if_exists,
            },
            Statement::ShowTables => StatementS::ShowTables,
            Statement::DescribeTable { name } => StatementS::DescribeTable { name: name@ },
            Statement::Insert { table, columns, values } => StatementS::Insert {
                table: table@,
                columns: match columns {
                    Some(cs) => Some(strings_view(cs@)),
                    None => None,
                },
                values: rows_view(values@),
            },
            Statement::Select { table, projection, where_clause, order_by, limit } => {
                StatementS::Select {
                    table: table@,
                    projection: items_view(projection@),
                    where_clause: opt_expr_view(*where_clause),
                    order_by: opt_orders_view(*order_by),
                    limit: *limit,
                }
            },
            Statement::Update { table, assignments, where_clause } => StatementS::Update {
                table: table@,
                assignments: assigns_view(assignments@),
                where_clause: opt_expr_view(*where_clause),
            },
            Statement::Delete { table, where_clause } => StatementS::Delete {
                table: table@,
                where_clause: opt_expr_view(*where_clause),
            },
        }
    }
}

/// One row of a table: its cell values in schema order.
#[derive(Debug, Clone, PartialEq)]
pub struct Row {
    pub values: Vec<Value>,
}

impl View for Row {
    type V = Seq<ValueS>;

    open spec fn view(&self) -> Seq<ValueS> {
        crate::value::row_view(self.values@)
    }
}

/// Model of a vector of `Row`s.
pub open spec fn rowvec_view(rs: Seq<Row>) -> Seq<Seq<ValueS>> {
    rs.map(|i: int, r: Row| r@)
}

impl Row {
    /// A copy whose model is the same.
    pub fn clone_row(&self) -> (r: Row)
        ensures
            r@ == self@,
            crate::value::row_wf(r@) == crate::value::row_wf(self@),
    {
        let mut values: Vec<Value> = Vec::new();
        let n = self.values.len();
        let mut i: usize = 0;
        while i < n
            invariant
                0 <= i <= n,
                n == self.values@.len(),
                values@.len() == i,
                forall|j: int| 0 <= j < i ==> (#[trigger] values@[j])@ == self.values@[j]@,
            decreases n - i,
        {
            values.push(self.values[i].clone_value());
            i = i + 1;
        }
        let r = Row { values };
        proof {
            assert(r@ =~= self@);
        }
        r
    }
}

} // verus!
