//! The expression evaluator: decides a predicate tree against one row,
//! given the schema's column-name vector.

use vstd::prelude::*;
use crate::expr::{CmpOp, Expr, ExprS, Operand, OperandS};
use crate::like::like_spec;
use crate::text::text_cmp_spec;
use crate::value::{row_view, row_wf, Value, ValueS};

verus! {

/// Why an evaluation failed.
#[derive(Debug, Clone, PartialEq)]
pub enum EvalError {
    /// The named column is not part of the schema, or its index is outside
    /// the row.
    ColumnNotFound(String),
    /// The operand tags do not admit the requested comparison.
    TypeMismatch,
    /// A bare column used as a predicate did not hold a boolean.
    NotBoolean,
    /// `LIKE` was applied to something other than two text values.
    NotText,
}

/// Index of the first column named `name`, if any.
pub open spec fn col_index(cols: Seq<Seq<char>>, name: Seq<char>) -> Option<int>
    decreases cols.len(),
{
    if cols.len() == 0 {
        None
    } else if cols[0] == name {
        Some(0)
    } else {
        match col_index(cols.drop_first(), name) {
            Some(i) => Some(i + 1),
            None => None,
        }
    }
}

pub proof fn lemma_col_index_some(cols: Seq<Seq<char>>, name: Seq<char>, i: int)
    requires
        0 <= i < cols.len(),
        cols[i] == name,
        forall|j: int| 0 <= j < i ==> cols[j] != name,
    ensures
        col_index(cols, name) == Some(i),
    decreases cols.len(),
{
    if cols[0] != name {
        assert(i > 0);
        assert forall|j: int| 0 <= j < i - 1 implies cols.drop_first()[j] != name by {
            assert(cols.drop_first()[j] == cols[j + 1]);
        }
        assert(cols.drop_first()[i - 1] == cols[i]);
        lemma_col_index_some(cols.drop_first(), name, i - 1);
    }
}

pub proof fn lemma_col_index_none(cols: Seq<Seq<char>>, name: Seq<char>)
    requires
        forall|j: int| 0 <= j < cols.len() ==> cols[j] != name,
    ensures
        col_index(cols, name) is None,
    decreases cols.len(),
{
    if cols.len() > 0 {
        assert forall|j: int| 0 <= j < cols.len() - 1 implies cols.drop_first()[j] != name by {
            assert(cols.drop_first()[j] == cols[j + 1]);
        }
        lemma_col_index_none(cols.drop_first(), name);
    }
}

pub proof fn lemma_col_index_bounds(cols: Seq<Seq<char>>, name: Seq<char>)
    ensures
        col_index(cols, name) matches Some(i) ==> 0 <= i < cols.len() && cols[i] == name,
    decreases cols.len(),
{
    if cols.len() > 0 && cols[0] != name {
        lemma_col_index_bounds(cols.drop_first(), name);
        match col_index(cols.drop_first(), name) {
            Some(i) => {
                assert(cols.drop_first()[i] == cols[i + 1]);
            },
            None => {},
        }
    }
}

/// The value an operand denotes for a row, if the operand is valid.
pub open spec fn operand_value(o: OperandS, cols: Seq<Seq<char>>, row: Seq<ValueS>) -> Option<
    ValueS,
> {
    match o {
        OperandS::Literal(v) => Some(v),
        OperandS::Column(name) => match col_index(cols, name) {
            Some(i) => if i < row.len() {
                Some(row[i])
            } else {
                None
            },
            None => None,
        },
    }
}

/// Truth of `sign(a - b) op 0`.
pub open spec fn cmp_holds(op: CmpOp, sign: int) -> bool {
    match op {
        CmpOp::Eq => sign == 0,
        CmpOp::NotEq => sign != 0,
        CmpOp::Lt => sign < 0,
        CmpOp::LtEq => sign <= 0,
        CmpOp::Gt => sign > 0,
        CmpOp::GtEq => sign >= 0,
    }
}

pub open spec fn int_sign(d: int) -> int {
    if d < 0 {
        -1
    } else if d == 0 {
        0
    } else {
        1
    }
}

/// Same-tag comparison: integers, decimals and text admit every operator,
/// booleans and nulls only equality, everything else is a type mismatch.
/// `null = null` holds and `null ≠ null` does not.
pub open spec fn compare_op_spec(op: CmpOp, a: ValueS, b: ValueS) -> Option<bool> {
    match (a, b) {
        (ValueS::Integer(l), ValueS::Integer(r)) => Some(cmp_holds(op, int_sign(l - r))),
        (ValueS::Float(l), ValueS::Float(r)) => Some(cmp_holds(op, l.cmp_spec(r))),
        (ValueS::Text(l), ValueS::Text(r)) => Some(cmp_holds(op, text_cmp_spec(l, r))),
        (ValueS::Boolean(l), ValueS::Boolean(r)) => match op {
            CmpOp::Eq => Some(l == r),
            CmpOp::NotEq => Some(l != r),
            _ => None,
        },
        (ValueS::Null, ValueS::Null) => match op {
            CmpOp::Eq => Some(true),
            CmpOp::NotEq => Some(false),
            _ => None,
        },
        _ => None,
    }
}

/// Same-tag equality; values of different tags are simply unequal.
pub open spec fn val_eq_spec(a: ValueS, b: ValueS) -> bool {
    match (a, b) {
        (ValueS::Integer(l), ValueS::Integer(r)) => l == r,
        (ValueS::Float(l), ValueS::Float(r)) => l.eq_spec(r),
        (ValueS::Text(l), ValueS::Text(r)) => l == r,
        (ValueS::Boolean(l), ValueS::Boolean(r)) => l == r,
        (ValueS::Null, ValueS::Null) => true,
        _ => false,
    }
}

/// How one evaluation ends: a truth value, or the error it reports — an
/// unresolved column by name, a tag mismatch, a non-boolean bare column,
/// or a non-text `LIKE` operand.
pub enum EvalOut {
    Val(bool),
    ColErr(Seq<char>),
    TypeErr,
    BoolErr,
    TextErr,
}

/// The error an operand reports when it does not resolve: only a column
/// reference can fail, and it names itself.
pub open spec fn operand_err(o: OperandS) -> EvalOut {
    match o {
        OperandS::Column(name) => EvalOut::ColErr(name),
        OperandS::Literal(_) => EvalOut::TypeErr,
    }
}

/// The outcome an executable evaluation error denotes.
pub open spec fn err_out(e: EvalError) -> EvalOut {
    match e {
        EvalError::ColumnNotFound(n) => EvalOut::ColErr(n@),
        EvalError::TypeMismatch => EvalOut::TypeErr,
        EvalError::NotBoolean => EvalOut::BoolErr,
        EvalError::NotText => EvalOut::TextErr,
    }
}

/// Membership test of `v` against the listed operands, first match wins;
/// an invalid operand before the first match is an error.
pub open spec fn in_list_spec(
    v: ValueS,
    list: Seq<OperandS>,
    cols: Seq<Seq<char>>,
    row: Seq<ValueS>,
) -> EvalOut
    decreases list.len(),
{
    if list.len() == 0 {
        EvalOut::Val(false)
    } else {
        match operand_value(list[0], cols, row) {
            None => operand_err(list[0]),
            Some(w) => if val_eq_spec(v, w) {
                EvalOut::Val(true)
            } else {
                in_list_spec(v, list.drop_first(), cols, row)
            },
        }
    }
}

/// What evaluating a predicate yields: its truth value, or the error it
/// fails with, the leftmost failure winning, as the evaluator reports it.
pub open spec fn eval_spec(e: ExprS, cols: Seq<Seq<char>>, row: Seq<ValueS>) -> EvalOut
    decreases e,
{
    match e {
        ExprS::Compare { left, op, right } => match operand_value(left, cols, row) {
            None => operand_err(left),
            Some(a) => match operand_value(right, cols, row) {
                None => operand_err(right),
                Some(b) => match compare_op_spec(op, a, b) {
                    Some(x) => EvalOut::Val(x),
                    None => EvalOut::TypeErr,
                },
            },
        },
        ExprS::And(a, b) => match eval_spec(*a, cols, row) {
            EvalOut::Val(x) => match eval_spec(*b, cols, row) {
                EvalOut::Val(y) => EvalOut::Val(x && y),
                eb => eb,
            },
            ea => ea,
        },
        ExprS::Or(a, b) => match eval_spec(*a, cols, row) {
            EvalOut::Val(x) => match eval_spec(*b, cols, row) {
                EvalOut::Val(y) => EvalOut::Val(x || y),
                eb => eb,
            },
            ea => ea,
        },
        ExprS::Column(name) => match col_index(cols, name) {
            Some(i) => if i < row.len() {
                match row[i] {
                    ValueS::Boolean(b) => EvalOut::Val(b),
                    _ => EvalOut::BoolErr,
                }
            } else {
                EvalOut::ColErr(name)
            },
            None => EvalOut::ColErr(name),
        },
        ExprS::Like { expr, pattern, negated } => match operand_value(expr, cols, row) {
            None => operand_err(expr),
            Some(tv) => match operand_value(pattern, cols, row) {
                None => operand_err(pattern),
                Some(pv) => match (tv, pv) {
                    (ValueS::Text(t), ValueS::Text(p)) => EvalOut::Val(negated != like_spec(t, p)),
                    _ => EvalOut::TextErr,
                },
            },
        },
        ExprS::InList { expr, list, negated } => match operand_value(expr, cols, row) {
            None => operand_err(expr),
            Some(v) => match in_list_spec(v, list, cols, row) {
                EvalOut::Val(found) => EvalOut::Val(negated != found),
                el => el,
            },
        },
        ExprS::Between { expr, low, high, negated } => match operand_value(expr, cols, row) {
            None => operand_err(expr),
            Some(v) => match operand_value(low, cols, row) {
                None => operand_err(low),
                Some(lo) => match operand_value(high, cols, row) {
                    None => operand_err(high),
                    Some(hi) => match compare_op_spec(CmpOp::GtEq, v, lo) {
                        None => EvalOut::TypeErr,
                        Some(ge) => match compare_op_spec(CmpOp::LtEq, v, hi) {
                            None => EvalOut::TypeErr,
                            Some(le) => EvalOut::Val(negated != (ge && le)),
                        },
                    },
                },
            },
        },
    }
}

/// Well-formedness of the decimals inside an operand.
pub open spec fn operand_wf(o: OperandS) -> bool {
    match o {
        OperandS::Literal(v) => v.wf(),
        OperandS::Column(_) => true,
    }
}

/// Well-formedness of every literal in a predicate tree.
pub open spec fn expr_wf(e: ExprS) -> bool
    decreases e,
{
    match e {
        ExprS::Compare { left, op: _, right } => operand_wf(left) && operand_wf(right),
        ExprS::And(a, b) => expr_wf(*a) && expr_wf(*b),
        ExprS::Or(a, b) => expr_wf(*a) && expr_wf(*b),
        ExprS::Column(_) => true,
        ExprS::Like { expr, pattern, negated: _ } => operand_wf(expr) && operand_wf(pattern),
        ExprS::InList { expr, list, negated: _ } => operand_wf(expr) && (forall|i: int|
            0 <= i < list.len() ==> operand_wf(#[trigger] list[i])),
        ExprS::Between { expr, low, high, negated: _ } => operand_wf(expr) && operand_wf(low)
            && operand_wf(high),
    }
}

/// The model of a column-name vector.
pub open spec fn names_view(names: Seq<String>) -> Seq<Seq<char>> {
    names.map(|i: int, s: String| s@)
}

/// Evaluates predicates against rows of one schema, whose column names it
/// holds in declaration order.
pub struct ExpressionEvaluator {
    pub column_names: Vec<String>,
}

impl ExpressionEvaluator {
    /// The column names the evaluator resolves references against.
    pub open spec fn cols(self) -> Seq<Seq<char>> {
        names_view(self.column_names@)
    }

    pub fn new(column_names: Vec<String>) -> (e: ExpressionEvaluator)
        ensures
            e.cols() == names_view(column_names@),
    {
        ExpressionEvaluator { column_names }
    }

    /// Index of the first column with this name, as `col_index` describes.
    fn find_col(&self, name: &String) -> (r: Option<usize>)
        ensures
            match r {
                Some(i) => col_index(self.cols(), name@) == Some(i as int),
                None => col_index(self.cols(), name@) is None,
            },
    {
        let n = self.column_names.len();
        let mut i: usize = 0;
        while i < n
            invariant
                0 <= i <= n,
                n == self.column_names@.len(),
                forall|j: int| 0 <= j < i ==> self.cols()[j] != name@,
            decreases n - i,
        {
            proof {
                assert(self.cols()[i as int] == self.column_names@[i as int]@);
            }
            if self.column_names[i] == *name {
                proof {
                    lemma_col_index_some(self.cols(), name@, i as int);
                }
                return Some(i);
            }
            i = i + 1;
        }
        proof {
            lemma_col_index_none(self.cols(), name@);
        }
        None
    }

    /// Resolves an operand to a value, as `operand_value` describes.
    fn extract_value(&self, o: &Operand, row: &Vec<Value>) -> (r: Result<Value, EvalError>)
        ensures
            r is Ok <==> operand_value(o@, self.cols(), row_view(row@)) is Some,
            r matches Ok(v) ==> operand_value(o@, self.cols(), row_view(row@)) == Some(v@),
            r matches Err(e2) ==> err_out(e2) == operand_err(o@),
            row_wf(row_view(row@)) && operand_wf(o@) && (r matches Ok(v)) ==> (r matches Ok(v)
                && v@.wf()),
    {
        match o {
            Operand::Literal(v) => Ok(v.clone_value()),
            Operand::Column(name) => match self.find_col(name) {
                Some(i) => {
                    if i < row.len() {
                        Ok(row[i].clone_value())
                    } else {
                        Err(EvalError::ColumnNotFound(clone_string(name)))
                    }
                },
                None => Err(EvalError::ColumnNotFound(clone_string(name))),
            },
        }
    }

    /// Decides `left op right`, as `compare_op_spec` describes.
    pub fn compare_values(&self, left: &Value, op: CmpOp, right: &Value) -> (r: Result<
        bool,
        EvalError,
    >)
        requires
            left@.wf(),
            right@.wf(),
        ensures
            r is Ok <==> compare_op_spec(op, left@, right@) is Some,
            r matches Ok(b) ==> compare_op_spec(op, left@, right@) == Some(b),
            r matches Err(e2) ==> err_out(e2) == EvalOut::TypeErr,
    {
        match (left, right) {
            (Value::Integer(l), Value::Integer(r)) => {
                let sign: i8 = if *l < *r {
                    -1
                } else if *l == *r {
                    0
                } else {
                    1
                };
                Ok(cmp_op_holds(op, sign))
            },
            (Value::Float(l), Value::Float(r)) => {
                let sign = l.compare(r);
                Ok(cmp_op_holds(op, sign))
            },
            (Value::Text(l), Value::Text(r)) => {
                let sign = crate::text::text_compare(l.as_str(), r.as_str());
                Ok(cmp_op_holds(op, sign))
            },
            (Value::Boolean(l), Value::Boolean(r)) => match op {
                CmpOp::Eq => Ok(*l == *r),
                CmpOp::NotEq => Ok(*l != *r),
                _ => Err(EvalError::TypeMismatch),
            },
            (Value::Null, Value::Null) => match op {
                CmpOp::Eq => Ok(true),
                CmpOp::NotEq => Ok(false),
                _ => Err(EvalError::TypeMismatch),
            },
            _ => Err(EvalError::TypeMismatch),
        }
    }

    /// Same-tag equality of two values, as `val_eq_spec` describes.
    pub fn values_equal(&self, left: &Value, right: &Value) -> (b: bool)
        requires
            left@.wf(),
            right@.wf(),
        ensures
            b == val_eq_spec(left@, right@),
    {
        match (left, right) {
            (Value::Integer(l), Value::Integer(r)) => *l == *r,
            (Value::Float(l), Value::Float(r)) => l.compare(r) == 0,
            (Value::Text(l), Value::Text(r)) => {
                proof {
                    crate::text::lemma_text_cmp_eq(l@, r@);
                }
                crate::text::text_compare(l.as_str(), r.as_str()) == 0
            },
            (Value::Boolean(l), Value::Boolean(r)) => *l == *r,
            (Value::Null, Value::Null) => true,
            _ => false,
        }
    }

    /// Decides the predicate for one row, exactly as `eval_spec` describes:
    /// it returns a truth value precisely when the model does, and an error
    /// otherwise.
    pub fn evaluate(&self, expr: &Expr, row: &Vec<Value>) -> (r: Result<bool, EvalError>)
        requires
            expr_wf(expr@),
            row_wf(row_view(row@)),
        ensures
            r is Ok <==> eval_spec(expr@, self.cols(), row_view(row@)) is Val,
            r matches Ok(b) ==> eval_spec(expr@, self.cols(), row_view(row@)) == EvalOut::Val(b),
            r matches Err(e2) ==> eval_spec(expr@, self.cols(), row_view(row@)) == err_out(e2),
        decreases expr,
    {
        let ghost cols = self.cols();
        let ghost rowv = row_view(row@);
        match expr {
            Expr::Compare { left, op, right } => {
                let a = self.extract_value(left, row)?;
                let b = self.extract_value(right, row)?;
                self.compare_values(&a, *op, &b)
            },
            Expr::And(x, y) => {
                let a = self.evaluate(x, row)?;
                let b = self.evaluate(y, row)?;
                Ok(a && b)
            },
            Expr::Or(x, y) => {
                let a = self.evaluate(x, row)?;
                let b = self.evaluate(y, row)?;
                Ok(a || b)
            },
            Expr::Column(name) => match self.find_col(name) {
                Some(i) => {
                    if i < row.len() {
                        match &row[i] {
                            Value::Boolean(b) => Ok(*b),
                            _ => Err(EvalError::NotBoolean),
                        }
                    } else {
                        Err(EvalError::ColumnNotFound(clone_string(name)))
                    }
                },
                None => Err(EvalError::ColumnNotFound(clone_string(name))),
            },
            Expr::Like { expr: e, pattern, negated, escape: _ } => {
                let v = self.extract_value(e, row)?;
                let p = self.extract_value(pattern, row)?;
                match (&v, &p) {
                    (Value::Text(t), Value::Text(pat)) => {
                        let m = crate::like::like_match(t.as_str(), pat.as_str());
                        Ok(if *negated {
                            !m
                        } else {
                            m
                        })
                    },
                    _ => Err(EvalError::NotText),
                }
            },
            Expr::InList { expr: e, list, negated } => {
                let v = self.extract_value(e, row)?;
                let ghost listv = list@.map(|i: int, o: Operand| o@);
                proof {
                    assert(listv.skip(0) =~= listv);
                }
                let mut i: usize = 0;
                while i < list.len()
                    invariant
                        0 <= i <= list@.len(),
                        listv == list@.map(|k: int, o: Operand| o@),
                        expr_wf(expr@),
                        expr@ == (ExprS::InList { expr: e@, list: listv, negated: *negated }),
                        row_wf(rowv),
                        rowv == row_view(row@),
                        cols == self.cols(),
                        v@.wf(),
                        operand_value(e@, cols, rowv) == Some(v@),
                        in_list_spec(v@, listv, cols, rowv) == in_list_spec(
                            v@,
                            listv.skip(i as int),
                            cols,
                            rowv,
                        ),
                    decreases list@.len() - i,
                {
                    proof {
                        assert(listv.skip(i as int)[0] == listv[i as int]);
                        assert(listv[i as int] == list@[i as int]@);
                        assert(operand_wf(listv[i as int]));
                        assert(listv.skip(i as int).drop_first() =~= listv.skip(i as int + 1));
                    }
                    let w = match self.extract_value(&list[i], row) {
                        Ok(w) => w,
                        Err(err) => {
                            return Err(err);
                        },
                    };
                    if self.values_equal(&v, &w) {
                        return Ok(!*negated);
                    }
                    i = i + 1;
                }
                proof {
                    assert(listv.skip(i as int) =~= Seq::<OperandS>::empty());
                }
                Ok(*negated)
            },
            Expr::Between { expr: e, low, high, negated } => {
                let v = self.extract_value(e, row)?;
                let lo = self.extract_value(low, row)?;
                let hi = self.extract_value(high, row)?;
                let ge = self.compare_values(&v, CmpOp::GtEq, &lo)?;
                let le = self.compare_values(&v, CmpOp::LtEq, &hi)?;
                let in_range = ge && le;
                Ok(if *negated {
                    !in_range
                } else {
                    in_range
                })
            },
        }
    }
}

/// Truth of `sign op 0` as an executable step.
fn cmp_op_holds(op: CmpOp, sign: i8) -> (b: bool)
    ensures
        b == cmp_holds(op, sign as int),
{
    match op {
        CmpOp::Eq => sign == 0,
        CmpOp::NotEq => sign != 0,
        CmpOp::Lt => sign < 0,
        CmpOp::LtEq => sign <= 0,
        CmpOp::Gt => sign > 0,
        CmpOp::GtEq => sign >= 0,
    }
}

/// A clone whose contract says the copy has the same view.
pub fn clone_string(s: &String) -> (r: String)
    ensures
        r@ == s@,
{
    let r = s.clone();
    r
}

impl Value {
    /// A clone whose contract says the copy has the same model.
    pub fn clone_value(&self) -> (r: Value)
        ensures
            r@ == self@,
            r@.wf() == self@.wf(),
    {
        match self {
            Value::Integer(i) => Value::Integer(*i),
            Value::Float(d) => Value::Float(*d),
            Value::Text(s) => Value::Text(clone_string(s)),
            Value::Boolean(b) => Value::Boolean(*b),
            Value::Null => Value::Null,
        }
    }
}

} // verus!
