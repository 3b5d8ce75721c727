//! The stable sort an `ORDER BY` key applies. Rows are ordered by one
//! column; values of different tags compare as equal, so the stable
//! insertion keeps their earlier order.

use vstd::prelude::*;
use crate::expr::CmpOp;
use crate::filter::{cmp_holds, int_sign};
use crate::stmt::{rowvec_view, Row};
use crate::text::text_cmp_spec;


use crate::value::{row_wf, Value, ValueS};

verus! {

/// Sort-path comparison: same-tag values order as usual (booleans by
/// `false < true`), any cross-tag pair counts as equal.
pub open spec fn order_cmp_spec(a: ValueS, b: ValueS) -> int {
    match (a, b) {
        (ValueS::Integer(l), ValueS::Integer(r)) => int_sign(l - r),
        (ValueS::Float(l), ValueS::Float(r)) => l.cmp_spec(r),
        (ValueS::Text(l), ValueS::Text(r)) => text_cmp_spec(l, r),
        (ValueS::Boolean(l), ValueS::Boolean(r)) => if l == r {
            0
        } else if !l {
            -1
        } else {
            1
        },
        _ => 0,
    }
}

/// Comparison of two rows under one order key.
pub open spec fn row_cmp_spec(a: Seq<ValueS>, b: Seq<ValueS>, idx: int, asc: bool) -> int {
    let c = order_cmp_spec(a[idx], b[idx]);
    if asc {
        c
    } else {
        -c
    }
}

/// Stable insertion of `x` into a sorted run: `x` goes after every row
/// not strictly above it.
pub open spec fn ins_spec(s: Seq<Seq<ValueS>>, x: Seq<ValueS>, idx: int, asc: bool) -> Seq<
    Seq<ValueS>,
>
    decreases s.len(),
{
    if s.len() == 0 {
        seq![x]
    } else if row_cmp_spec(s.last(), x, idx, asc) > 0 {
        ins_spec(s.drop_last(), x, idx, asc).push(s.last())
    } else {
        s.push(x)
    }
}

/// Stable insertion sort of rows by one key.
pub open spec fn sort_rows_spec(rs: Seq<Seq<ValueS>>, idx: int, asc: bool) -> Seq<Seq<ValueS>>
    decreases rs.len(),
{
    if rs.len() == 0 {
        Seq::empty()
    } else {
        ins_spec(sort_rows_spec(rs.drop_last(), idx, asc), rs.last(), idx, asc)
    }
}

/// Compares two values on the sort path, exactly as `order_cmp_spec`
/// describes.
pub fn order_compare(a: &Value, b: &Value) -> (c: i8)
    requires
        a@.wf(),
        b@.wf(),
    ensures
        c as int == order_cmp_spec(a@, b@),
        -1 <= c <= 1,
{
    proof {
        match (a@, b@) {
            (ValueS::Text(l), ValueS::Text(r)) => {
                lemma_text_cmp_range(l, r);
            },
            _ => {},
        }
    }
    match (a, b) {
        (Value::Integer(l), Value::Integer(r)) => {
            if *l < *r {
                -1
            } else if *l == *r {
                0
            } else {
                1
            }
        },
        (Value::Float(l), Value::Float(r)) => l.compare(r),
        (Value::Text(l), Value::Text(r)) => crate::text::text_compare(l.as_str(), r.as_str()),
        (Value::Boolean(l), Value::Boolean(r)) => {
            if *l == *r {
                0
            } else if !*l {
                -1
            } else {
                1
            }
        },
        _ => 0,
    }
}

/// Every row has the sort column in range and well-formed cells.
pub open spec fn rows_sortable(rs: Seq<Seq<ValueS>>, idx: int) -> bool {
    forall|i: int| 0 <= i < rs.len() ==> idx < (#[trigger] rs[i]).len() && row_wf(rs[i])
}

/// Sorts rows stably by one column, exactly as `sort_rows_spec`
/// describes.
pub fn sort_rows(rows: Vec<Row>, idx: usize, asc: bool) -> (out: Vec<Row>)
    requires
        rows_sortable(rowvec_view(rows@), idx as int),
    ensures
        rowvec_view(out@) == sort_rows_spec(rowvec_view(rows@), idx as int, asc),
        rows_sortable(rowvec_view(out@), idx as int),
{
    let ghost rv = rowvec_view(rows@);
    let mut out: Vec<Row> = Vec::new();
    let n = rows.len();
    let mut i: usize = 0;
    proof {
        assert(rv.take(0) =~= Seq::<Seq<ValueS>>::empty());
        assert(rowvec_view(out@) =~= Seq::<Seq<ValueS>>::empty());
    }
    while i < n
        invariant
            0 <= i <= n,
            n == rows@.len(),
            rv == rowvec_view(rows@),
            rows_sortable(rv, idx as int),
            rowvec_view(out@) == sort_rows_spec(rv.take(i as int), idx as int, asc),
            rows_sortable(rowvec_view(out@), idx as int),
        decreases n - i,
    {
        proof {
            assert(rv[i as int] == rows@[i as int]@);
            assert(rv.take(i + 1).drop_last() =~= rv.take(i as int));
            assert(rv.take(i + 1).last() == rv[i as int]);
        }
        let x = rows[i].clone_row();
        insert_sorted(&mut out, x, idx, asc);
        i = i + 1;
    }
    proof {
        assert(rv.take(n as int) =~= rv);
    }
    out
}

/// The spot a stable insertion puts a row: after every element not
/// strictly above it, before the strictly greater tail.
fn find_pos(out: &Vec<Row>, x: &Row, idx: usize, asc: bool) -> (j: usize)
    requires
        idx < x@.len(),
        row_wf(x@),
        rows_sortable(rowvec_view(out@), idx as int),
    ensures
        j <= out@.len(),
        forall|k: int|
            j <= k < out@.len() ==> row_cmp_spec(
                #[trigger] rowvec_view(out@)[k],
                x@,
                idx as int,
                asc,
            ) > 0,
        j > 0 ==> row_cmp_spec(rowvec_view(out@)[j - 1], x@, idx as int, asc) <= 0,
{
    let ghost ov = rowvec_view(out@);
    let mut j: usize = out.len();
    while j > 0
        invariant
            0 <= j <= out@.len(),
            idx < x@.len(),
            row_wf(x@),
            ov == rowvec_view(out@),
            rows_sortable(ov, idx as int),
            forall|k: int|
                j <= k < ov.len() ==> row_cmp_spec(#[trigger] ov[k], x@, idx as int, asc) > 0,
        decreases j,
    {
        proof {
            assert(ov[j - 1] == out@[j - 1]@);
            assert(idx < out@[j - 1]@.len());
            assert(out@[j - 1]@[idx as int] == out@[j - 1].values@[idx as int]@);
            assert(out@[j - 1]@[idx as int].wf());
            assert(x@[idx as int] == x.values@[idx as int]@);
            assert(x@[idx as int].wf());
        }
        let c = order_compare(&out[j - 1].values[idx], &x.values[idx]);
        let cc: i8 = if asc {
            c
        } else {
            -c
        };
        if cc <= 0 {
            return j;
        }
        j = j - 1;
    }
    j
}

/// A stable insertion is a splice at the found spot.
proof fn lemma_ins_at(s: Seq<Seq<ValueS>>, x: Seq<ValueS>, idx: int, asc: bool, j: int)
    requires
        0 <= j <= s.len(),
        forall|k: int| j <= k < s.len() ==> row_cmp_spec(#[trigger] s[k], x, idx, asc) > 0,
        j > 0 ==> row_cmp_spec(s[j - 1], x, idx, asc) <= 0,
    ensures
        ins_spec(s, x, idx, asc) == s.take(j) + seq![x] + s.skip(j),
    decreases s.len(),
{
    if s.len() == 0 {
        assert(ins_spec(s, x, idx, asc) =~= s.take(0) + seq![x] + s.skip(0));
    } else if j == s.len() {
        assert(row_cmp_spec(s.last(), x, idx, asc) <= 0);
        assert(ins_spec(s, x, idx, asc) == s.push(x));
        assert(s.push(x) =~= s.take(j) + seq![x] + s.skip(j));
    } else {
        assert(row_cmp_spec(s.last(), x, idx, asc) > 0);
        let d = s.drop_last();
        assert forall|k: int| j <= k < d.len() implies row_cmp_spec(
            #[trigger] d[k],
            x,
            idx,
            asc,
        ) > 0 by {
            assert(d[k] == s[k]);
        }
        if j > 0 {
            assert(d[j - 1] == s[j - 1]);
        }
        lemma_ins_at(d, x, idx, asc, j);
        assert(ins_spec(s, x, idx, asc) == (d.take(j) + seq![x] + d.skip(j)).push(s.last()));
        assert((d.take(j) + seq![x] + d.skip(j)).push(s.last()) =~= s.take(j) + seq![x] + s.skip(
            j,
        ));
    }
}

/// Inserts one row into a run, exactly as `ins_spec` describes.
fn insert_sorted(out: &mut Vec<Row>, x: Row, idx: usize, asc: bool)
    requires
        idx < x@.len(),
        row_wf(x@),
        rows_sortable(rowvec_view(old(out)@), idx as int),
    ensures
        rowvec_view(final(out)@) == ins_spec(rowvec_view(old(out)@), x@, idx as int, asc),
        rows_sortable(rowvec_view(final(out)@), idx as int),
{
    let ghost ov = rowvec_view(out@);
    let ghost xv = x@;
    let j = find_pos(out, &x, idx, asc);
    proof {
        lemma_ins_at(ov, xv, idx as int, asc, j as int);
    }
    out.insert(j, x);
    proof {
        assert(rowvec_view(out@) =~= ov.take(j as int) + seq![xv] + ov.skip(j as int)) by {
            assert forall|k: int| 0 <= k < rowvec_view(out@).len() implies rowvec_view(out@)[k]
                == (ov.take(j as int) + seq![xv] + ov.skip(j as int))[k] by {
                assert(rowvec_view(out@)[k] == out@[k]@);
                if k < j {
                    assert(out@[k] == old(out)@[k]);
                    assert(ov[k] == old(out)@[k]@);
                } else if k > j {
                    assert(out@[k] == old(out)@[k - 1]);
                    assert(ov[k - 1] == old(out)@[k - 1]@);
                }
            }
        }
        let newv = rowvec_view(out@);
        assert forall|k: int| 0 <= k < newv.len() implies idx < (#[trigger] newv[k]).len()
            && row_wf(newv[k]) by {
            if k < j {
                assert(newv[k] == ov[k]);
            } else if k == j {
                assert(newv[k] == xv);
            } else {
                assert(newv[k] == ov[k - 1]);
            }
        }
    }
}

proof fn lemma_text_cmp_range(a: Seq<char>, b: Seq<char>)
    ensures
        -1 <= text_cmp_spec(a, b) <= 1,
    decreases a.len(),
{
    if a.len() > 0 && b.len() > 0 && a[0] == b[0] {
        lemma_text_cmp_range(a.drop_first(), b.drop_first());
    }
}

/// Everything a stable insertion holds came from the run or is the new
/// row.
pub proof fn lemma_ins_elems(s: Seq<Seq<ValueS>>, x: Seq<ValueS>, idx: int, asc: bool)
    ensures
        forall|e: Seq<ValueS>|
            #[trigger] ins_spec(s, x, idx, asc).contains(e) ==> s.contains(e) || e == x,
        ins_spec(s, x, idx, asc).len() == s.len() + 1,
    decreases s.len(),
{
    if s.len() == 0 {
    } else if row_cmp_spec(s.last(), x, idx, asc) > 0 {
        lemma_ins_elems(s.drop_last(), x, idx, asc);
        assert forall|e: Seq<ValueS>|
            #[trigger] ins_spec(s, x, idx, asc).contains(e) implies s.contains(e) || e == x by {
            let out = ins_spec(s.drop_last(), x, idx, asc).push(s.last());
            let i = choose|i: int| 0 <= i < out.len() && out[i] == e;
            if i == out.len() - 1 {
                assert(s.contains(s.last()));
            } else {
                assert(ins_spec(s.drop_last(), x, idx, asc).contains(e));
                if s.drop_last().contains(e) {
                    let j = choose|j: int|
                        0 <= j < s.drop_last().len() && s.drop_last()[j] == e;
                    assert(s[j] == e);
                }
            }
        }
    } else {
        assert forall|e: Seq<ValueS>|
            #[trigger] ins_spec(s, x, idx, asc).contains(e) implies s.contains(e) || e == x by {
            let i = choose|i: int| 0 <= i < s.push(x).len() && s.push(x)[i] == e;
            if i < s.len() {
                assert(s[i] == e);
            }
        }
    }
}

/// Everything a sorted run holds came from the input.
pub proof fn lemma_sort_elems(s: Seq<Seq<ValueS>>, idx: int, asc: bool)
    ensures
        forall|e: Seq<ValueS>|
            #[trigger] sort_rows_spec(s, idx, asc).contains(e) ==> s.contains(e),
        sort_rows_spec(s, idx, asc).len() == s.len(),
    decreases s.len(),
{
    if s.len() > 0 {
        lemma_sort_elems(s.drop_last(), idx, asc);
        lemma_ins_elems(sort_rows_spec(s.drop_last(), idx, asc), s.last(), idx, asc);
        assert forall|e: Seq<ValueS>|
            #[trigger] sort_rows_spec(s, idx, asc).contains(e) implies s.contains(e) by {
            if e != s.last() {
                assert(sort_rows_spec(s.drop_last(), idx, asc).contains(e));
                assert(s.drop_last().contains(e));
                let j = choose|j: int| 0 <= j < s.drop_last().len() && s.drop_last()[j] == e;
                assert(s[j] == e);
            } else {
                assert(s[s.len() - 1] == e);
            }
        }
    }
}

/// Every row's sort key is an integer.
pub open spec fn int_keyed(s: Seq<Seq<ValueS>>, idx: int) -> bool {
    forall|i: int| 0 <= i < s.len() ==> (#[trigger] s[i])[idx] is Integer
}

/// The rows ascend pairwise under the key.
pub open spec fn sorted_rows(s: Seq<Seq<ValueS>>, idx: int, asc: bool) -> bool {
    forall|i: int, j: int| 0 <= i < j < s.len() ==> row_cmp_spec(#[trigger] s[i], #[trigger] s[j], idx, asc) <= 0
}

/// A stable insertion into a sorted run of integer-keyed rows stays
/// sorted.
pub proof fn lemma_ins_sorted(s: Seq<Seq<ValueS>>, x: Seq<ValueS>, idx: int, asc: bool)
    requires
        sorted_rows(s, idx, asc),
        int_keyed(s, idx),
        x[idx] is Integer,
    ensures
        sorted_rows(ins_spec(s, x, idx, asc), idx, asc),
    decreases s.len(),
{
    if s.len() == 0 {
    } else if row_cmp_spec(s.last(), x, idx, asc) > 0 {
        assert(sorted_rows(s.drop_last(), idx, asc)) by {
            assert(forall|i: int|
                0 <= i < s.drop_last().len() ==> (#[trigger] s.drop_last()[i]) == s[i]);
        }
        assert(int_keyed(s.drop_last(), idx)) by {
            assert(forall|i: int|
                0 <= i < s.drop_last().len() ==> (#[trigger] s.drop_last()[i]) == s[i]);
        }
        lemma_ins_sorted(s.drop_last(), x, idx, asc);
        lemma_ins_elems(s.drop_last(), x, idx, asc);
        let inner = ins_spec(s.drop_last(), x, idx, asc);
        let out = inner.push(s.last());
        assert forall|i: int, j: int| 0 <= i < j < out.len() implies row_cmp_spec(
            #[trigger] out[i],
            #[trigger] out[j],
            idx,
            asc,
        ) <= 0 by {
            if j < out.len() - 1 {
                assert(out[i] == inner[i]);
                assert(out[j] == inner[j]);
            } else {
                assert(out[j] == s.last());
                assert(out[i] == inner[i]);
                assert(inner.contains(inner[i]));
                if inner[i] == x {
                    assert(row_cmp_spec(s.last(), x, idx, asc) > 0);
                } else {
                    assert(s.drop_last().contains(inner[i]));
                    let k = choose|k: int|
                        0 <= k < s.drop_last().len() && s.drop_last()[k] == inner[i];
                    assert(s[k] == inner[i]);
                    assert(row_cmp_spec(s[k], s[s.len() - 1], idx, asc) <= 0);
                }
            }
        }
    } else {
        let out = s.push(x);
        assert forall|i: int, j: int| 0 <= i < j < out.len() implies row_cmp_spec(
            #[trigger] out[i],
            #[trigger] out[j],
            idx,
            asc,
        ) <= 0 by {
            if j < out.len() - 1 {
                assert(out[i] == s[i]);
                assert(out[j] == s[j]);
            } else {
                assert(out[j] == x);
                assert(out[i] == s[i]);
                if i < s.len() - 1 {
                    assert(row_cmp_spec(s[i], s[s.len() - 1], idx, asc) <= 0);
                }
                assert(row_cmp_spec(s[s.len() - 1], x, idx, asc) <= 0);
            }
        }
    }
}

/// The stable sort of integer-keyed rows is sorted and a permutation of
/// its input.
pub proof fn lemma_sort_sorted(s: Seq<Seq<ValueS>>, idx: int, asc: bool)
    requires
        int_keyed(s, idx),
    ensures
        sorted_rows(sort_rows_spec(s, idx, asc), idx, asc),
        sort_rows_spec(s, idx, asc).to_multiset() == s.to_multiset(),
    decreases s.len(),
{
    broadcast use vstd::seq_lib::group_to_multiset_ensures;

    if s.len() > 0 {
        assert(int_keyed(s.drop_last(), idx)) by {
            assert(forall|i: int|
                0 <= i < s.drop_last().len() ==> (#[trigger] s.drop_last()[i]) == s[i]);
        }
        lemma_sort_sorted(s.drop_last(), idx, asc);
        let inner = sort_rows_spec(s.drop_last(), idx, asc);
        assert(int_keyed(inner, idx)) by {
            crate::sort::lemma_sort_elems(s.drop_last(), idx, asc);
            assert forall|i: int| 0 <= i < inner.len() implies (#[trigger] inner[i])[idx]
                is Integer by {
                assert(inner.contains(inner[i]));
                assert(s.drop_last().contains(inner[i]));
                let k = choose|k: int|
                    0 <= k < s.drop_last().len() && s.drop_last()[k] == inner[i];
                assert(s[k] == inner[i]);
            }
        }
        assert(s[s.len() - 1][idx] is Integer);
        lemma_ins_sorted(inner, s.last(), idx, asc);
        lemma_ins_multiset(inner, s.last(), idx, asc);
        assert(s =~= s.drop_last().push(s.last()));
        assert(s.drop_last().push(s.last()).to_multiset() =~= s.drop_last().to_multiset().insert(
            s.last(),
        ));
    }
}

/// A stable insertion adds exactly the inserted row to the multiset.
pub proof fn lemma_ins_multiset(s: Seq<Seq<ValueS>>, x: Seq<ValueS>, idx: int, asc: bool)
    ensures
        ins_spec(s, x, idx, asc).to_multiset() == s.to_multiset().insert(x),
    decreases s.len(),
{
    broadcast use vstd::seq_lib::group_to_multiset_ensures;

    if s.len() == 0 {
        assert(seq![x] =~= Seq::<Seq<ValueS>>::empty().push(x));
        assert(Seq::<Seq<ValueS>>::empty().push(x).to_multiset()
            =~= Seq::<Seq<ValueS>>::empty().to_multiset().insert(x));
    } else if row_cmp_spec(s.last(), x, idx, asc) > 0 {
        lemma_ins_multiset(s.drop_last(), x, idx, asc);
        let inner = ins_spec(s.drop_last(), x, idx, asc);
        assert(inner.push(s.last()).to_multiset() =~= inner.to_multiset().insert(s.last()));
        assert(s =~= s.drop_last().push(s.last()));
        assert(s.drop_last().push(s.last()).to_multiset() =~= s.drop_last().to_multiset().insert(
            s.last(),
        ));
        assert(s.drop_last().to_multiset().insert(x).insert(s.last())
            =~= s.drop_last().to_multiset().insert(s.last()).insert(x));
    } else {
        assert(s.push(x).to_multiset() =~= s.to_multiset().insert(x));
    }
}

} // verus!

