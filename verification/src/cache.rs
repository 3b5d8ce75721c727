//! The result cache: a memo from a query's full shape — table,
//! projection with aliases, predicate, order keys and limit — to the
//! projected rows it returned. Any mutation clears it wholesale.

use vstd::prelude::*;
use crate::expr::{Expr, ExprS, Operand, OperandS};
use crate::filter::clone_string;
use crate::expr::operands_view;
use crate::stmt::{items_view, opt_expr_view, opt_orders_view, orders_view, rowvec_view,
    strings_view, OrderByClause, OrderS, Row, SelectItem, SelectItemS};
use crate::value::{Value, ValueS};

verus! {

/// One memoized query with its projected result.
pub struct CacheEntry {
    pub table: String,
    pub projection: Vec<SelectItem>,
    pub where_clause: Option<Expr>,
    pub order_by: Option<Vec<OrderByClause>>,
    pub limit: Option<usize>,
    pub columns: Vec<String>,
    pub rows: Vec<Row>,
}

/// Model of one entry.
pub struct CacheEntryS {
    pub table: Seq<char>,
    pub projection: Seq<SelectItemS>,
    pub where_clause: Option<ExprS>,
    pub order_by: Option<Seq<OrderS>>,
    pub limit: Option<usize>,
    pub columns: Seq<Seq<char>>,
    pub rows: Seq<Seq<ValueS>>,
}

impl View for CacheEntry {
    type V = CacheEntryS;

    open spec fn view(&self) -> CacheEntryS {
        CacheEntryS {
            table: self.table@,
            projection: items_view(self.projection@),
            where_clause: opt_expr_view(self.where_clause),
            order_by: opt_orders_view(self.order_by),
            limit: self.limit,
            columns: strings_view(self.columns@),
            rows: rowvec_view(self.rows@),
        }
    }
}

/// The in-memory result cache.
pub struct ResultCache {
    pub entries: Vec<CacheEntry>,
}

impl View for ResultCache {
    type V = Seq<CacheEntryS>;

    open spec fn view(&self) -> Seq<CacheEntryS> {
        self.entries@.map(|i: int, e: CacheEntry| e@)
    }
}

/// Whether two values are the same value, structurally.
pub fn eq_value(a: &Value, b: &Value) -> (r: bool)
    ensures
        r == (a@ == b@),
{
    match (a, b) {
        (Value::Integer(l), Value::Integer(rr)) => *l == *rr,
        (Value::Float(l), Value::Float(rr)) => *l == *rr,
        (Value::Text(l), Value::Text(rr)) => *l == *rr,
        (Value::Boolean(l), Value::Boolean(rr)) => *l == *rr,
        (Value::Null, Value::Null) => true,
        _ => false,
    }
}

/// Whether two operands have the same model.
pub fn eq_operand(a: &Operand, b: &Operand) -> (r: bool)
    ensures
        r == (a@ == b@),
{
    match (a, b) {
        (Operand::Column(l), Operand::Column(rr)) => *l == *rr,
        (Operand::Literal(l), Operand::Literal(rr)) => eq_value(l, rr),
        _ => false,
    }
}

/// Whether two predicate trees have the same model. The escape marker of
/// `LIKE` carries no meaning and is ignored, as the model ignores it.
pub fn eq_expr(a: &Expr, b: &Expr) -> (r: bool)
    ensures
        r == (a@ == b@),
    decreases a,
{
    match (a, b) {
        (
            Expr::Compare { left: l1, op: o1, right: r1 },
            Expr::Compare { left: l2, op: o2, right: r2 },
        ) => eq_operand(l1, l2) && *o1 == *o2 && eq_operand(r1, r2),
        (Expr::And(x1, y1), Expr::And(x2, y2)) => eq_expr(x1, x2) && eq_expr(y1, y2),
        (Expr::Or(x1, y1), Expr::Or(x2, y2)) => eq_expr(x1, x2) && eq_expr(y1, y2),
        (Expr::Column(n1), Expr::Column(n2)) => *n1 == *n2,
        (
            Expr::Like { expr: e1, pattern: p1, negated: n1, escape: _ },
            Expr::Like { expr: e2, pattern: p2, negated: n2, escape: _ },
        ) => eq_operand(e1, e2) && eq_operand(p1, p2) && *n1 == *n2,
        (
            Expr::InList { expr: e1, list: l1, negated: n1 },
            Expr::InList { expr: e2, list: l2, negated: n2 },
        ) => {
            if !(eq_operand(e1, e2) && *n1 == *n2 && l1.len() == l2.len()) {
                proof {
                    if a@ == b@ {
                        assert(operands_view(l1@).len() == operands_view(l2@).len());
                    }
                }
                false
            } else {
                let ghost lv1 = operands_view(l1@);
                let ghost lv2 = operands_view(l2@);
                let n = l1.len();
                let mut i: usize = 0;
                while i < n
                    invariant
                        0 <= i <= n,
                        n == l1@.len() == l2@.len(),
                        lv1 == operands_view(l1@),
                        lv2 == operands_view(l2@),
                        a@ matches ExprS::InList { expr: ea, list: la, negated: na } && la == lv1,
                        b@ matches ExprS::InList { expr: eb, list: lb, negated: nb } && lb == lv2,
                        forall|k: int| 0 <= k < i ==> lv1[k] == lv2[k],
                    decreases n - i,
                {
                    proof {
                        assert(lv1[i as int] == l1@[i as int]@);
                        assert(lv2[i as int] == l2@[i as int]@);
                    }
                    if !eq_operand(&l1[i], &l2[i]) {
                        proof {
                            if a@ == b@ {
                                assert(lv1 =~= lv2);
                            }
                        }
                        return false;
                    }
                    i = i + 1;
                }
                proof {
                    assert(lv1 =~= lv2);
                }
                true
            }
        },
        (
            Expr::Between { expr: e1, low: lo1, high: h1, negated: n1 },
            Expr::Between { expr: e2, low: lo2, high: h2, negated: n2 },
        ) => eq_operand(e1, e2) && eq_operand(lo1, lo2) && eq_operand(h1, h2) && *n1 == *n2,
        _ => false,
    }
}

/// Whether two optional predicates have the same model.
pub fn eq_opt_expr(a: &Option<Expr>, b: &Option<Expr>) -> (r: bool)
    ensures
        r == (opt_expr_view(*a) == opt_expr_view(*b)),
{
    match (a, b) {
        (Some(x), Some(y)) => eq_expr(x, y),
        (None, None) => true,
        _ => false,
    }
}

/// Whether two projected items have the same model.
pub fn eq_select_item(a: &SelectItem, b: &SelectItem) -> (r: bool)
    ensures
        r == (a@ == b@),
{
    match (a, b) {
        (SelectItem::Wildcard, SelectItem::Wildcard) => true,
        (
            SelectItem::Column { name: n1, alias: a1 },
            SelectItem::Column { name: n2, alias: a2 },
        ) => *n1 == *n2 && (match (a1, a2) {
            (Some(x), Some(y)) => *x == *y,
            (None, None) => true,
            _ => false,
        }),
        _ => false,
    }
}

/// Whether two projection lists have the same model.
pub fn eq_projection(a: &Vec<SelectItem>, b: &Vec<SelectItem>) -> (r: bool)
    ensures
        r == (items_view(a@) == items_view(b@)),
{
    let ghost av = items_view(a@);
    let ghost bv = items_view(b@);
    if a.len() != b.len() {
        proof {
            if av == bv {
                assert(av.len() == bv.len());
            }
        }
        return false;
    }
    let n = a.len();
    let mut i: usize = 0;
    while i < n
        invariant
            0 <= i <= n,
            n == a@.len() == b@.len(),
            av == items_view(a@),
            bv == items_view(b@),
            forall|k: int| 0 <= k < i ==> av[k] == bv[k],
        decreases n - i,
    {
        proof {
            assert(av[i as int] == a@[i as int]@);
            assert(bv[i as int] == b@[i as int]@);
        }
        if !eq_select_item(&a[i], &b[i]) {
            proof {
                if av == bv {
                    assert(av[i as int] == bv[i as int]);
                }
            }
            return false;
        }
        i = i + 1;
    }
    proof {
        assert(av =~= bv);
    }
    true
}

/// Whether two optional order-key lists have the same model.
pub fn eq_order_by(a: &Option<Vec<OrderByClause>>, b: &Option<Vec<OrderByClause>>) -> (r: bool)
    ensures
        r == (opt_orders_view(*a) == opt_orders_view(*b)),
{
    match (a, b) {
        (None, None) => true,
        (Some(x), Some(y)) => {
            let ghost xv = orders_view(x@);
            let ghost yv = orders_view(y@);
            if x.len() != y.len() {
                proof {
                    if xv == yv {
                        assert(xv.len() == yv.len());
                    }
                }
                return false;
            }
            let n = x.len();
            let mut i: usize = 0;
            while i < n
                invariant
                    0 <= i <= n,
                    n == x@.len() == y@.len(),
                    xv == orders_view(x@),
                    yv == orders_view(y@),
                    opt_orders_view(*a) == Some(xv),
                    opt_orders_view(*b) == Some(yv),
                    forall|k: int| 0 <= k < i ==> xv[k] == yv[k],
                decreases n - i,
            {
                proof {
                    assert(xv[i as int] == x@[i as int]@);
                    assert(yv[i as int] == y@[i as int]@);
                }
                let same = eq_order_key(&x[i], &y[i]);
                if !same {
                    proof {
                        if xv == yv {
                            assert(xv[i as int] == yv[i as int]);
                        }
                    }
                    return false;
                }
                i = i + 1;
            }
            proof {
                assert(xv =~= yv);
            }
            true
        },
        _ => false,
    }
}

/// Whether two order keys have the same model.
fn eq_order_key(a: &OrderByClause, b: &OrderByClause) -> (r: bool)
    ensures
        r == (a@ == b@),
{
    a.column == b.column && a.ascending == b.ascending
}

/// Whether two optional limits are the same.
pub fn eq_limit(a: &Option<usize>, b: &Option<usize>) -> (r: bool)
    ensures
        r == (*a == *b),
{
    match (a, b) {
        (Some(x), Some(y)) => *x == *y,
        (None, None) => true,
        _ => false,
    }
}

/// Copies a name vector, keeping its model.
pub fn clone_strings(v: &Vec<String>) -> (r: Vec<String>)
    ensures
        strings_view(r@) == strings_view(v@),
{
    let mut out: Vec<String> = Vec::new();
    let n = v.len();
    let mut i: usize = 0;
    while i < n
        invariant
            0 <= i <= n,
            n == v@.len(),
            out@.len() == i,
            forall|k: int| 0 <= k < i ==> (#[trigger] out@[k])@ == v@[k]@,
        decreases n - i,
    {
        out.push(clone_string(&v[i]));
        i = i + 1;
    }
    proof {
        assert(strings_view(out@) =~= strings_view(v@));
    }
    out
}

/// Copies a row vector, keeping its model.
pub fn clone_rows(v: &Vec<Row>) -> (r: Vec<Row>)
    ensures
        rowvec_view(r@) == rowvec_view(v@),
{
    let mut out: Vec<Row> = Vec::new();
    let n = v.len();
    let mut i: usize = 0;
    while i < n
        invariant
            0 <= i <= n,
            n == v@.len(),
            out@.len() == i,
            forall|k: int| 0 <= k < i ==> (#[trigger] out@[k])@ == v@[k]@,
        decreases n - i,
    {
        out.push(v[i].clone_row());
        i = i + 1;
    }
    proof {
        assert(rowvec_view(out@) =~= rowvec_view(v@));
    }
    out
}

impl ResultCache {
    /// A cache holding nothing.
    pub fn new() -> (c: ResultCache)
        ensures
            c@ == Seq::<CacheEntryS>::empty(),
    {
        let c = ResultCache { entries: Vec::new() };
        proof {
            assert(c@ =~= Seq::<CacheEntryS>::empty());
        }
        c
    }

    /// Forgets every memo.
    pub fn clear_all(&mut self)
        ensures
            final(self)@ == Seq::<CacheEntryS>::empty(),
    {
        self.entries.clear();
        proof {
            assert(self@ =~= Seq::<CacheEntryS>::empty());
        }
    }

    /// The memoized result of a query with exactly this shape, if one is
    /// held.
    pub fn lookup(
        &self,
        table: &String,
        projection: &Vec<SelectItem>,
        where_clause: &Option<Expr>,
        order_by: &Option<Vec<OrderByClause>>,
        limit: &Option<usize>,
    ) -> (r: Option<(Vec<String>, Vec<Row>)>)
        ensures
            r matches Some((cols, rows)) ==> exists|i: int|
                0 <= i < self@.len() && {
                    let e = #[trigger] self@[i];
                    &&& e.table == table@
                    &&& e.projection == items_view(projection@)
                    &&& e.where_clause == opt_expr_view(*where_clause)
                    &&& e.order_by == opt_orders_view(*order_by)
                    &&& e.limit == *limit
                    &&& e.columns == strings_view(cols@)
                    &&& e.rows == rowvec_view(rows@)
                },
    {
        let n = self.entries.len();
        let mut i: usize = 0;
        while i < n
            invariant
                0 <= i <= n,
                n == self.entries@.len(),
            decreases n - i,
        {
            let e = &self.entries[i];
            proof {
                assert(self@[i as int] == self.entries@[i as int]@);
            }
            let hit = e.table == *table && eq_projection(&e.projection, projection)
                && eq_opt_expr(&e.where_clause, where_clause) && eq_order_by(
                &e.order_by,
                order_by,
            ) && eq_limit(&e.limit, limit);
            if hit {
                let cols = clone_strings(&e.columns);
                let rows = clone_rows(&e.rows);
                return Some((cols, rows));
            }
            i = i + 1;
        }
        None
    }

    /// Memoizes one query's result.
    pub fn put(&mut self, entry: CacheEntry)
        ensures
            final(self)@ == old(self)@.push(entry@),
    {
        self.entries.push(entry);
        proof {
            assert(self@ =~= old(self)@.push(self.entries@.last()@));
        }
    }
}

} // verus!
