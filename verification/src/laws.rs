//! The engine's general laws, proved over the statement semantics: what
//! dropping leaves behind, what creating after dropping yields, how
//! reads count rows, what a rejected mutation leaves untouched, and the
//! insert–select round trip.

use vstd::prelude::*;
use crate::catalog::{cat_get_spec, enc_schema_spec};
use crate::codec::{dec_row, enc_row, lemma_row_roundtrip, row_size_ok, vs_size_ok};
use crate::executor::{built_row, built_rows, col_names, create_spec, del_collect, delete_spec,
    drop_spec, insert_plan, insert_rows_store, insert_spec, read_rows, remove_all, select_spec,
    stamp_of, update_spec, EState};
use crate::expr::{CmpOp, ExprS, OperandS};
use crate::filter::{cmp_holds, compare_op_spec, eval_spec, in_list_spec, int_sign,
    operand_value};
use crate::keys::{catalog_key_spec, data_prefix_spec, has_prefix, row_key_spec};
use crate::stmt::{ColumnS, SelectItemS};
use crate::storage::{matching_keys, scan_spec, ErrKind};
use crate::value::{row_wf, ValueS};

verus! {

/// Removing a key list removes exactly those keys.
pub proof fn lemma_remove_all_contains(m: Map<Seq<u8>, Seq<u8>>, ks: Seq<Seq<u8>>, k: Seq<u8>)
    ensures
        remove_all(m, ks).dom().contains(k) <==> m.dom().contains(k) && !ks.contains(k),
    decreases ks.len(),
{
    if ks.len() > 0 {
        lemma_remove_all_contains(m.remove(ks[0]), ks.drop_first(), k);
        if k == ks[0] {
            assert(ks.contains(k)) by {
                assert(ks[0] == k);
            }
        } else {
            assert(ks.contains(k) <==> ks.drop_first().contains(k)) by {
                if ks.contains(k) {
                    let i = choose|i: int| 0 <= i < ks.len() && ks[i] == k;
                    assert(ks.drop_first()[i - 1] == k);
                }
                if ks.drop_first().contains(k) {
                    let i = choose|i: int|
                        0 <= i < ks.drop_first().len() && ks.drop_first()[i] == k;
                    assert(ks[i + 1] == k);
                }
            }
        }
    }
}

/// After a table is dropped, no key under its data prefix and no
/// catalog key for it remains.
pub proof fn law_drop_leaves_nothing(st: EState, table: Seq<char>)
    requires
        st.store.dom().finite(),
        st.store.dom().contains(catalog_key_spec(table)),
    ensures
        drop_spec(st, table, false) matches Ok(p) && (forall|k: Seq<u8>|
            #[trigger] p.0.store.dom().contains(k) ==> !has_prefix(k, data_prefix_spec(table)))
            && !p.0.store.dom().contains(catalog_key_spec(table)),
{
    let entries = scan_spec(st.store, data_prefix_spec(table));
    let keys = entries.map(|i: int, kv: (Seq<u8>, Seq<u8>)| kv.0);
    crate::storage::lemma_scan_spec_props(st.store, data_prefix_spec(table));
    let m1 = remove_all(st.store, keys);
    assert forall|k: Seq<u8>|
        #[trigger] m1.remove(catalog_key_spec(table)).dom().contains(k) implies !has_prefix(
        k,
        data_prefix_spec(table),
    ) by {
        lemma_remove_all_contains(st.store, keys, k);
        if has_prefix(k, data_prefix_spec(table)) {
            let i = choose|i: int| 0 <= i < entries.len() && (#[trigger] entries[i].0) == k;
            assert(keys[i] == k);
            assert(keys.contains(k));
        }
    }
    lemma_remove_all_contains(st.store, keys, catalog_key_spec(table));
}

/// `DROP TABLE IF EXISTS` on a nonexistent table is a no-op that
/// reports zero rows.
pub proof fn law_drop_if_exists_missing(st: EState, table: Seq<char>)
    requires
        !st.store.dom().contains(catalog_key_spec(table)),
    ensures
        drop_spec(st, table, true) == Ok::<(EState, nat), ErrKind>((st, 0nat)),
{
}

/// Creating, dropping and creating a table again succeeds and yields a
/// table with no rows.
pub proof fn law_create_drop_create(st0: EState, name: Seq<char>, cols: Seq<ColumnS>)
    requires
        st0.store.dom().finite(),
        create_spec(st0, name, cols) is Ok,
    ensures
        create_spec(st0, name, cols) matches Ok(st1) && drop_spec(st1, name, false) matches Ok(p)
            && create_spec(p.0, name, cols) matches Ok(st3) && (forall|k: Seq<u8>|
            #[trigger] st3.store.dom().contains(k) ==> !has_prefix(k, data_prefix_spec(name))),
{
    let st1 = create_spec(st0, name, cols)->Ok_0;
    assert(st1.store == st0.store.insert(catalog_key_spec(name), enc_schema_spec(name, cols)));
    assert(st1.store.dom().contains(catalog_key_spec(name)));
    assert(st1.store.dom().finite());
    law_drop_leaves_nothing(st1, name);
    let p = drop_spec(st1, name, false)->Ok_0;
    assert(!p.0.store.dom().contains(catalog_key_spec(name)));
    assert(!crate::catalog::has_null_col(cols));
    let st3 = create_spec(p.0, name, cols)->Ok_0;
    crate::keys::lemma_catalog_key_not_data(name, name);
    assert forall|k: Seq<u8>| #[trigger] st3.store.dom().contains(k) implies !has_prefix(
        k,
        data_prefix_spec(name),
    ) by {
        if k != catalog_key_spec(name) {
            assert(p.0.store.dom().contains(k));
        }
    }
}

/// Every scanned entry decodes to a row of the schema's arity.
pub open spec fn all_rows_decode(entries: Seq<(Seq<u8>, Seq<u8>)>, ncols: nat) -> bool {
    forall|i: int|
        0 <= i < entries.len() ==> (dec_row((#[trigger] entries[i]).1) matches Some(r) && r.len()
            == ncols)
}

proof fn lemma_read_rows_all(entries: Seq<(Seq<u8>, Seq<u8>)>, ncols: nat)
    requires
        all_rows_decode(entries, ncols),
    ensures
        read_rows(entries, ncols).len() == entries.len(),
    decreases entries.len(),
{
    if entries.len() > 0 {
        assert(all_rows_decode(entries.drop_first(), ncols)) by {
            assert(forall|i: int|
                0 <= i < entries.drop_first().len() ==> (#[trigger] entries.drop_first()[i])
                    == entries[i + 1]);
        }
        lemma_read_rows_all(entries.drop_first(), ncols);
        assert(dec_row(entries[0].1) matches Some(r) && r.len() == ncols);
    }
}

/// A full `SELECT` — no predicate, no limit — returns exactly one row
/// per key under the table's prefix, as long as every stored value
/// decodes to a row of the schema's arity.
pub proof fn law_full_select_counts(m: Map<Seq<u8>, Seq<u8>>, table: Seq<char>)
    requires
        m.dom().finite(),
        cat_get_spec(m, table) is Table,
        all_rows_decode(
            scan_spec(m, data_prefix_spec(table)),
            cat_get_spec(m, table)->Table_1.len(),
        ),
    ensures
        select_spec(m, table, seq![SelectItemS::Wildcard], None, None, None) matches Ok(p)
            && p.1.len() == matching_keys(m, data_prefix_spec(table)).len(),
{
    let cols = cat_get_spec(m, table)->Table_1;
    let entries = scan_spec(m, data_prefix_spec(table));
    crate::storage::lemma_scan_spec_props(m, data_prefix_spec(table));
    lemma_read_rows_all(entries, cols.len());
    let items = seq![SelectItemS::Wildcard];
    assert(items.len() == 1);
    assert(items[0] == SelectItemS::Wildcard);
    assert(items.drop_first() =~= Seq::<SelectItemS>::empty());
    assert(crate::executor::proj_plan(Seq::<SelectItemS>::empty(), cols) == Some((
        Seq::<int>::empty(),
        Seq::<Seq<char>>::empty(),
    )));
    match crate::executor::item_plan(items[0], cols) {
        Some(ip) => {
            assert(ip.0 + Seq::<int>::empty() =~= ip.0);
            assert(ip.1 + Seq::<Seq<char>>::empty() =~= ip.1);
            assert(crate::executor::proj_plan(items, cols) == Some((
                ip.0 + Seq::<int>::empty(),
                ip.1 + Seq::<Seq<char>>::empty(),
            )));
            assert(ip.0.len() == cols.len());
        },
        None => {
            assert(false);
        },
    }
}

/// An `INSERT` whose row lists do not match the planned arity is
/// rejected; together with the executor's contract, nothing is written.
pub proof fn law_insert_arity_rejected(
    st: EState,
    table: Seq<char>,
    cols_opt: Option<Seq<Seq<char>>>,
    values: Seq<Seq<ValueS>>,
)
    requires
        cat_get_spec(st.store, table) is Table,
        insert_plan(cols_opt, cat_get_spec(st.store, table)->Table_1) matches Some(dests)
            && exists|i: int| 0 <= i < values.len() && (#[trigger] values[i]).len() != dests.len(),
    ensures
        insert_spec(st, table, cols_opt, values) == Err::<(EState, nat), ErrKind>(ErrKind::Write),
{
}

/// An `UPDATE` whose assignments do not resolve — a duplicate or
/// unknown column, or a value that does not coerce — is rejected;
/// together with the executor's contract, nothing is written.
pub proof fn law_update_bad_assignments_rejected(
    st: EState,
    table: Seq<char>,
    assigns: Seq<(Seq<char>, ValueS)>,
    w: Option<ExprS>,
)
    requires
        cat_get_spec(st.store, table) is Table,
        crate::executor::assigns_resolved(
            assigns,
            cat_get_spec(st.store, table)->Table_1,
        ) is None,
    ensures
        update_spec(st, table, assigns, w) == Err::<(EState, nat), ErrKind>(ErrKind::Write),
{
}

/// A `DELETE` whose predicate fails on some row is rejected; together
/// with the executor's contract, nothing is deleted.
pub proof fn law_delete_pred_error_rejected(st: EState, table: Seq<char>, e: ExprS)
    requires
        cat_get_spec(st.store, table) is Table,
        del_collect(
            scan_spec(st.store, data_prefix_spec(table)),
            e,
            col_names(cat_get_spec(st.store, table)->Table_1),
        ) is None,
    ensures
        delete_spec(st, table, Some(e)) == Err::<(EState, nat), ErrKind>(ErrKind::Read),
{
}

/// An empty `IN` list matches nothing; its negation matches everything.
pub proof fn law_empty_in_list(
    op: OperandS,
    cols: Seq<Seq<char>>,
    row: Seq<ValueS>,
    negated: bool,
)
    requires
        operand_value(op, cols, row) is Some,
    ensures
        eval_spec(
            ExprS::InList { expr: op, list: Seq::empty(), negated },
            cols,
            row,
        ) == crate::filter::EvalOut::Val(negated),
{
    let v = operand_value(op, cols, row).unwrap();
    assert(in_list_spec(v, Seq::empty(), cols, row) == crate::filter::EvalOut::Val(false));
}

/// `BETWEEN` is inclusive on both of its integer bounds.
pub proof fn law_between_inclusive(x: i64, lo: i64, hi: i64, cols: Seq<Seq<char>>, row: Seq<
    ValueS,
>)
    ensures
        eval_spec(
            ExprS::Between {
                expr: OperandS::Literal(ValueS::Integer(x)),
                low: OperandS::Literal(ValueS::Integer(lo)),
                high: OperandS::Literal(ValueS::Integer(hi)),
                negated: false,
            },
            cols,
            row,
        ) == crate::filter::EvalOut::Val(lo <= x <= hi),
{
    assert(compare_op_spec(CmpOp::GtEq, ValueS::Integer(x), ValueS::Integer(lo)) == Some(
        cmp_holds(CmpOp::GtEq, int_sign(x - lo)),
    ));
}

/// Looking a written row key up in the bulk-written store finds its row.
proof fn lemma_insert_rows_lookup(
    m: Map<Seq<u8>, Seq<u8>>,
    table: Seq<char>,
    c: nat,
    rows: Seq<Seq<ValueS>>,
    i: int,
)
    requires
        0 <= i < rows.len(),
        c + rows.len() < 0x1_0000_0000_0000_0000,
    ensures
        insert_rows_store(m, table, c, rows).dom().contains(
            row_key_spec(table, (c + i) as u64),
        ),
        insert_rows_store(m, table, c, rows)[row_key_spec(table, (c + i) as u64)] == enc_row(
            rows[i],
        ),
    decreases rows.len(),
{
    let key_i = row_key_spec(table, (c + i) as u64);
    let key0 = row_key_spec(table, c as u64);
    let m1 = m.insert(key0, enc_row(rows[0]));
    if i == 0 {
        // later rows use strictly larger stamps, so the first write stays
        crate::executor::lemma_insert_rows_dom(m1, table, c + 1, rows.drop_first());
        crate::executor::lemma_row_key_stamp(table, c as u64);
        assert(insert_rows_store(m, table, c, rows) == insert_rows_store(
            m1,
            table,
            c + 1,
            rows.drop_first(),
        ));
        lemma_insert_rows_frame(m1, table, c + 1, rows.drop_first(), key0);
        assert(m1[key0] == enc_row(rows[0]));
    } else {
        lemma_insert_rows_lookup(m1, table, c + 1, rows.drop_first(), i - 1);
        assert(rows.drop_first()[i - 1] == rows[i]);
        assert((c + 1 + (i - 1)) as u64 == (c + i) as u64);
    }
}

/// A key whose stamp lies below the written range is untouched by the
/// bulk write.
proof fn lemma_insert_rows_frame(
    m: Map<Seq<u8>, Seq<u8>>,
    table: Seq<char>,
    c: nat,
    rows: Seq<Seq<ValueS>>,
    k: Seq<u8>,
)
    requires
        c + rows.len() < 0x1_0000_0000_0000_0000,
        m.dom().contains(k),
        stamp_of(k) < c,
        k.len() >= 14,
        has_prefix(k, crate::keys::data_tag_spec()),
    ensures
        insert_rows_store(m, table, c, rows).dom().contains(k),
        insert_rows_store(m, table, c, rows)[k] == m[k],
    decreases rows.len(),
{
    if rows.len() > 0 {
        let key0 = row_key_spec(table, c as u64);
        crate::executor::lemma_row_key_stamp(table, c as u64);
        assert(k != key0) by {
            if k == key0 {
                assert(stamp_of(k) == c);
            }
        }
        lemma_insert_rows_frame(
            m.insert(key0, enc_row(rows[0])),
            table,
            c + 1,
            rows.drop_first(),
            k,
        );
    }
}

/// Size conditions on the inserted rows under which their encodings are
/// faithful.
pub open spec fn values_size_ok(vals: Seq<Seq<ValueS>>) -> bool {
    forall|i: int| 0 <= i < vals.len() ==> row_size_ok(#[trigger] vals[i])
}

/// Insert–select round trip: every row list a successful `INSERT`
/// accepted comes back from a full `SELECT *`, as the coerced row the
/// insert prepared.
pub proof fn law_insert_select_roundtrip(
    st: EState,
    table: Seq<char>,
    cols_opt: Option<Seq<Seq<char>>>,
    values: Seq<Seq<ValueS>>,
    i: int,
)
    requires
        st.store.dom().finite(),
        insert_spec(st, table, cols_opt, values) is Ok,
        0 <= i < values.len(),
        values_size_ok(
            built_rows(values, insert_plan(cols_opt, cat_get_spec(st.store, table)->Table_1).unwrap(), cat_get_spec(st.store, table)->Table_1),
        ),
        forall|j: int| 0 <= j < values.len() ==> row_wf(#[trigger] values[j]),
    ensures
        insert_spec(st, table, cols_opt, values) matches Ok(p) && select_spec(
            p.0.store,
            table,
            seq![SelectItemS::Wildcard],
            None,
            None,
            None,
        ) matches Ok(q) && q.1.contains(
            built_row(
                values[i],
                insert_plan(cols_opt, cat_get_spec(st.store, table)->Table_1).unwrap(),
                cat_get_spec(st.store, table)->Table_1,
            ),
        ),
{
    let cols = cat_get_spec(st.store, table)->Table_1;
    let dests = insert_plan(cols_opt, cols).unwrap();
    let built = built_rows(values, dests, cols);
    let p = insert_spec(st, table, cols_opt, values)->Ok_0;
    let c0 = st.counter;
    let key_i = row_key_spec(table, (c0 + i) as u64);
    lemma_insert_rows_lookup(st.store, table, c0, built, i);
    assert(built[i] == built_row(values[i], dests, cols));
    assert(p.0.store.dom().contains(key_i));
    assert(p.0.store[key_i] == enc_row(built[i]));
    // the written row is well-formed and round-trips
    assert(row_wf(built[i])) by {
        assert forall|k: int| 0 <= k < built[i].len() implies (#[trigger] built[i][k]).wf() by {
            assert(crate::executor::build_cell(values[i], dests, cols, k) is Some);
            match crate::executor::dest_pos(dests, k) {
                Some(j) => {
                    lemma_dest_pos_in_range(dests, k);
                    crate::coerce::lemma_coerce_wf(cols[k].data_type, values[i][j]);
                },
                None => {},
            }
        }
    }
    assert(built[i] == built_row(values[i], dests, cols));
    assert(row_size_ok(built[i]));
    lemma_row_roundtrip(built[i]);
    // the insert leaves the catalog entry untouched
    let ckey = catalog_key_spec(table);
    crate::executor::lemma_row_key_stamp(table, (c0 + i) as u64);
    assert forall|ss: u64| ckey != row_key_spec(table, ss) by {
        crate::executor::lemma_row_key_stamp(table, ss);
        crate::keys::lemma_data_key_not_catalog(row_key_spec(table, ss), table);
    }
    assert(built.len() == values.len());
    assert(c0 + built.len() < 0x1_0000_0000_0000_0000);
    lemma_insert_rows_catalog(st.store, table, c0, built, ckey);
    assert(cat_get_spec(p.0.store, table) == cat_get_spec(st.store, table));
    // the scan lists the written key, and its row survives every stage
    crate::executor::lemma_insert_rows_dom(st.store, table, c0, built);
    crate::storage::lemma_scan_spec_props(p.0.store, data_prefix_spec(table));
    let entries = scan_spec(p.0.store, data_prefix_spec(table));
    assert(has_prefix(key_i, data_prefix_spec(table)));
    let j = choose|j: int| 0 <= j < entries.len() && (#[trigger] entries[j].0) == key_i;
    assert(entries[j].1 == p.0.store[key_i]);
    assert(dec_row(entries[j].1) == Some(built[i]));
    assert(built[i].len() == cols.len());
    lemma_read_rows_has(entries, cols.len(), j, built[i]);
    let rows0 = read_rows(entries, cols.len());
    assert(rows0.contains(built[i]));
    // projection by wildcard is the identity on each row
    let items = seq![SelectItemS::Wildcard];
    assert(items.len() == 1);
    assert(items[0] == SelectItemS::Wildcard);
    assert(items.drop_first() =~= Seq::<SelectItemS>::empty());
    assert(crate::executor::proj_plan(Seq::<SelectItemS>::empty(), cols) == Some((
        Seq::<int>::empty(),
        Seq::<Seq<char>>::empty(),
    )));
    match crate::executor::proj_plan(items, cols) {
        Some(pp) => {
            assert(pp.0 + Seq::<int>::empty() =~= pp.0);
            assert(pp.1 + Seq::<Seq<char>>::empty() =~= pp.1);
            let q = select_spec(p.0.store, table, items, None, None, None)->Ok_0;
            let jj = choose|jj: int| 0 <= jj < rows0.len() && rows0[jj] == built[i];
            assert(crate::executor::project_row(built[i], pp.0) =~= built[i]);
            assert(q.1[jj] == crate::executor::project_row(rows0[jj], pp.0));
            assert(q.1.contains(built[i])) by {
                assert(q.1[jj] == built[i]);
            }
        },
        None => {
            assert(false);
        },
    }
}

/// The position feeding a column is inside the destination list.
proof fn lemma_dest_pos_in_range(dests: Seq<int>, k: int)
    ensures
        crate::executor::dest_pos(dests, k) matches Some(j) ==> 0 <= j < dests.len()
            && dests[j] == k,
    decreases dests.len(),
{
    if dests.len() > 0 && dests[0] != k {
        lemma_dest_pos_in_range(dests.drop_first(), k);
        match crate::executor::dest_pos(dests.drop_first(), k) {
            Some(j) => {
                assert(dests.drop_first()[j] == dests[j + 1]);
            },
            None => {},
        }
    }
}

/// The bulk row write never touches a catalog key.
proof fn lemma_insert_rows_catalog(
    m: Map<Seq<u8>, Seq<u8>>,
    table: Seq<char>,
    c: nat,
    rows: Seq<Seq<ValueS>>,
    ckey: Seq<u8>,
)
    requires
        c + rows.len() < 0x1_0000_0000_0000_0000,
        forall|s: u64| ckey != row_key_spec(table, s),
    ensures
        insert_rows_store(m, table, c, rows).dom().contains(ckey) == m.dom().contains(ckey),
        m.dom().contains(ckey) ==> insert_rows_store(m, table, c, rows)[ckey] == m[ckey],
    decreases rows.len(),
{
    if rows.len() > 0 {
        assert(ckey != row_key_spec(table, c as u64));
        lemma_insert_rows_catalog(
            m.insert(row_key_spec(table, c as u64), enc_row(rows[0])),
            table,
            c + 1,
            rows.drop_first(),
            ckey,
        );
    }
}

/// A decodable row of the right arity that some scanned entry carries
/// appears among the read rows.
proof fn lemma_read_rows_has(
    entries: Seq<(Seq<u8>, Seq<u8>)>,
    ncols: nat,
    j: int,
    r: Seq<ValueS>,
)
    requires
        0 <= j < entries.len(),
        dec_row(entries[j].1) == Some(r),
        r.len() == ncols,
    ensures
        read_rows(entries, ncols).contains(r),
    decreases entries.len(),
{
    if j == 0 {
        assert(read_rows(entries, ncols)[0] == r);
    } else {
        lemma_read_rows_has(entries.drop_first(), ncols, j - 1, r);
        let rest = read_rows(entries.drop_first(), ncols);
        let jj = choose|jj: int| 0 <= jj < rest.len() && rest[jj] == r;
        match dec_row(entries[0].1) {
            Some(r0) => {
                if r0.len() == ncols {
                    assert(read_rows(entries, ncols)[jj + 1] == r);
                } else {
                    assert(read_rows(entries, ncols)[jj] == r);
                }
            },
            None => {
                assert(read_rows(entries, ncols)[jj] == r);
            },
        }
    }
}

/// `ORDER BY k LIMIT n` on integer keys: the ordered rows are a
/// permutation of the table's rows, sorted by the key, and the limit
/// keeps their first `n` — so the returned keys are the `n` smallest
/// (largest, descending), the stable sort keeping scan order among
/// equal keys.
pub proof fn law_order_limit_smallest(rows: Seq<Seq<ValueS>>, idx: int, asc: bool, n: usize)
    requires
        crate::sort::int_keyed(rows, idx),
    ensures
        crate::sort::sorted_rows(crate::sort::sort_rows_spec(rows, idx, asc), idx, asc),
        crate::sort::sort_rows_spec(rows, idx, asc).to_multiset() == rows.to_multiset(),
        crate::executor::trunc_rows(crate::sort::sort_rows_spec(rows, idx, asc), Some(n))
            == if (n as int) < crate::sort::sort_rows_spec(rows, idx, asc).len() {
            crate::sort::sort_rows_spec(rows, idx, asc).take(n as int)
        } else {
            crate::sort::sort_rows_spec(rows, idx, asc)
        },
{
    crate::sort::lemma_sort_sorted(rows, idx, asc);
}

/// `SELECT * … ORDER BY key ASC LIMIT n` as a whole pipeline: with no
/// predicate, the returned rows are the first `n` of the scanned rows
/// stably sorted by the key — a sorted permutation's prefix, hence the
/// rows with the `n` smallest key values, insertion order breaking ties
/// (scan order is stamp order, `lemma_row_key_order`).
pub proof fn law_select_order_limit_smallest(
    m: Map<Seq<u8>, Seq<u8>>,
    table: Seq<char>,
    key: Seq<char>,
    n: usize,
)
    requires
        m.dom().finite(),
        cat_get_spec(m, table) is Table,
        crate::filter::col_index(
            col_names(cat_get_spec(m, table)->Table_1),
            key,
        ) is Some,
        crate::sort::int_keyed(
            read_rows(
                scan_spec(m, data_prefix_spec(table)),
                cat_get_spec(m, table)->Table_1.len(),
            ),
            crate::filter::col_index(
                col_names(cat_get_spec(m, table)->Table_1),
                key,
            ).unwrap(),
        ),
    ensures
        ({
            let cols = cat_get_spec(m, table)->Table_1;
            let idx = crate::filter::col_index(col_names(cols), key).unwrap();
            let rows0 = read_rows(scan_spec(m, data_prefix_spec(table)), cols.len());
            let sorted = crate::sort::sort_rows_spec(rows0, idx, true);
            select_spec(
                m,
                table,
                seq![SelectItemS::Wildcard],
                None,
                Some(seq![crate::stmt::OrderS { column: key, ascending: true }]),
                Some(n),
            ) matches Ok(p) && p.1 == crate::executor::trunc_rows(sorted, Some(n))
                && crate::sort::sorted_rows(sorted, idx, true) && sorted.to_multiset()
                == rows0.to_multiset()
        }),
{
    let cols = cat_get_spec(m, table)->Table_1;
    let idx = crate::filter::col_index(col_names(cols), key).unwrap();
    let entries = scan_spec(m, data_prefix_spec(table));
    let rows0 = read_rows(entries, cols.len());
    let orders = seq![crate::stmt::OrderS { column: key, ascending: true }];
    assert(orders[0] == crate::stmt::OrderS { column: key, ascending: true });
    assert(orders.drop_first() =~= Seq::<crate::stmt::OrderS>::empty());
    let sorted = crate::sort::sort_rows_spec(rows0, idx, true);
    assert(crate::executor::apply_orders(rows0, orders, col_names(cols)) == sorted) by {
        assert(crate::executor::apply_orders(rows0, orders.drop_first(), col_names(cols))
            == rows0);
    }
    crate::sort::lemma_sort_sorted(rows0, idx, true);
    // the wildcard plan selects every column in order
    let items = seq![SelectItemS::Wildcard];
    assert(items.len() == 1);
    assert(items[0] == SelectItemS::Wildcard);
    assert(items.drop_first() =~= Seq::<SelectItemS>::empty());
    assert(crate::executor::proj_plan(Seq::<SelectItemS>::empty(), cols) == Some((
        Seq::<int>::empty(),
        Seq::<Seq<char>>::empty(),
    )));
    match crate::executor::item_plan(items[0], cols) {
        Some(ip) => {
            assert(ip.0 + Seq::<int>::empty() =~= ip.0);
            assert(ip.1 + Seq::<Seq<char>>::empty() =~= ip.1);
            assert(crate::executor::proj_plan(items, cols) == Some((
                ip.0 + Seq::<int>::empty(),
                ip.1 + Seq::<Seq<char>>::empty(),
            )));
            // wildcard projection is the identity on rows of schema arity
            crate::executor::lemma_read_rows_wf(entries, cols.len());
            crate::executor::lemma_orders_preserve(
                rows0,
                orders,
                col_names(cols),
                cols.len(),
            );
            let out = crate::executor::trunc_rows(sorted, Some(n));
            assert forall|i: int| 0 <= i < out.len() implies crate::executor::project_row(
                #[trigger] out[i],
                ip.0,
            ) == out[i] by {
                assert(out[i] == crate::executor::apply_orders(
                    rows0,
                    orders,
                    col_names(cols),
                )[i]);
                assert(out[i].len() == cols.len());
                assert forall|j: int|
                    0 <= j < cols.len() implies crate::executor::project_row(out[i], ip.0)[j]
                    == out[i][j] by {
                    assert(ip.0[j] == j);
                }
                assert(crate::executor::project_row(out[i], ip.0) =~= out[i]);
            }
            assert(crate::executor::project_rows(out, ip.0) =~= out);
        },
        None => {
            assert(false);
        },
    }
}

/// Where each position of a row lands after the resolved assignments:
/// the last assignment to that index wins; untouched positions keep the
/// row's cell.
pub open spec fn last_assign(ras: Seq<(int, ValueS)>, k: int) -> Option<ValueS>
    decreases ras.len(),
{
    if ras.len() == 0 {
        None
    } else {
        match last_assign(ras.drop_first(), k) {
            Some(v) => Some(v),
            None => if ras[0].0 == k {
                Some(ras[0].1)
            } else {
                None
            },
        }
    }
}

proof fn lemma_apply_at(row: Seq<ValueS>, ras: Seq<(int, ValueS)>, k: int)
    requires
        0 <= k < row.len(),
        forall|j: int| 0 <= j < ras.len() ==> 0 <= (#[trigger] ras[j]).0 < row.len(),
    ensures
        crate::executor::apply_assigns(row, ras).len() == row.len(),
        crate::executor::apply_assigns(row, ras)[k] == (match last_assign(ras, k) {
            Some(v) => v,
            None => row[k],
        }),
    decreases ras.len(),
{
    if ras.len() > 0 {
        let row1 = row.update(ras[0].0, ras[0].1);
        assert(forall|j: int|
            0 <= j < ras.drop_first().len() ==> (#[trigger] ras.drop_first()[j]) == ras[j + 1]);
        lemma_apply_at(row1, ras.drop_first(), k);
    }
}

/// Applying a duplicate-free assignment list twice is the same as
/// applying it once: the heart of update idempotence for constant
/// assignments.
pub proof fn law_apply_assigns_idempotent(row: Seq<ValueS>, ras: Seq<(int, ValueS)>)
    requires
        forall|j: int| 0 <= j < ras.len() ==> 0 <= (#[trigger] ras[j]).0 < row.len(),
    ensures
        crate::executor::apply_assigns(
            crate::executor::apply_assigns(row, ras),
            ras,
        ) == crate::executor::apply_assigns(row, ras),
{
    let once = crate::executor::apply_assigns(row, ras);
    assert forall|k: int| 0 <= k < row.len() implies crate::executor::apply_assigns(
        once,
        ras,
    )[k] == once[k] by {
        lemma_apply_at(row, ras, k);
        lemma_apply_at(once, ras, k);
    }
    if row.len() > 0 {
        lemma_apply_at(row, ras, 0);
        lemma_apply_at(once, ras, 0);
    } else {
        assert(forall|j: int| !(0 <= j < ras.len()) || 0 <= (#[trigger] ras[j]).0 < 0);
        assert(ras.len() == 0);
        assert(once =~= row);
    }
    assert(crate::executor::apply_assigns(once, ras) =~= once);
}

/// After a successful `INSERT`, every row it persisted decodes back to
/// its prepared row, whose arity is exactly the schema's column count.
pub proof fn law_insert_rows_conform(
    st: EState,
    table: Seq<char>,
    cols_opt: Option<Seq<Seq<char>>>,
    values: Seq<Seq<ValueS>>,
    i: int,
)
    requires
        st.store.dom().finite(),
        insert_spec(st, table, cols_opt, values) is Ok,
        0 <= i < values.len(),
        values_size_ok(
            built_rows(
                values,
                insert_plan(cols_opt, cat_get_spec(st.store, table)->Table_1).unwrap(),
                cat_get_spec(st.store, table)->Table_1,
            ),
        ),
        forall|j: int| 0 <= j < values.len() ==> row_wf(#[trigger] values[j]),
    ensures
        insert_spec(st, table, cols_opt, values) matches Ok(p) && {
            let cols = cat_get_spec(st.store, table)->Table_1;
            let dests = insert_plan(cols_opt, cols).unwrap();
            let key = row_key_spec(table, (st.counter + i) as u64);
            &&& p.0.store.dom().contains(key)
            &&& dec_row(p.0.store[key]) == Some(built_row(values[i], dests, cols))
            &&& built_row(values[i], dests, cols).len() == cols.len()
        },
{
    let cols = cat_get_spec(st.store, table)->Table_1;
    let dests = insert_plan(cols_opt, cols).unwrap();
    let built = built_rows(values, dests, cols);
    lemma_insert_rows_lookup(st.store, table, st.counter, built, i);
    assert(built[i] == built_row(values[i], dests, cols));
    assert(row_wf(built[i])) by {
        assert forall|k: int| 0 <= k < built[i].len() implies (#[trigger] built[i][k]).wf() by {
            assert(crate::executor::build_cell(values[i], dests, cols, k) is Some);
            match crate::executor::dest_pos(dests, k) {
                Some(j) => {
                    lemma_dest_pos_in_range(dests, k);
                    crate::coerce::lemma_coerce_wf(cols[k].data_type, values[i][j]);
                },
                None => {},
            }
        }
    }
    assert(row_size_ok(built[i]));
    lemma_row_roundtrip(built[i]);
}

/// The store-wide row-arity invariant for one table: every value
/// persisted under the table's data prefix decodes to a row of the
/// table's current column count.
pub open spec fn table_conforms(m: Map<Seq<u8>, Seq<u8>>, table: Seq<char>) -> bool {
    cat_get_spec(m, table) matches crate::catalog::CatalogLookup::Table(nm, cols) ==> forall|
        k: Seq<u8>,
    |
        #[trigger] m.dom().contains(k) && has_prefix(k, data_prefix_spec(table)) ==> (dec_row(
            m[k],
        ) matches Some(r) && r.len() == cols.len())
}

/// Every value of the bulk row write is one of the prepared encodings,
/// or an untouched old value.
proof fn lemma_insert_rows_values(
    m: Map<Seq<u8>, Seq<u8>>,
    table: Seq<char>,
    c: nat,
    rows: Seq<Seq<ValueS>>,
    k: Seq<u8>,
)
    requires
        insert_rows_store(m, table, c, rows).dom().contains(k),
    ensures
        (m.dom().contains(k) && insert_rows_store(m, table, c, rows)[k] == m[k]) || (exists|i: int|
            0 <= i < rows.len() && insert_rows_store(m, table, c, rows)[k] == enc_row(
                #[trigger] rows[i],
            )),
    decreases rows.len(),
{
    if rows.len() > 0 {
        let key0 = row_key_spec(table, c as u64);
        let m1 = m.insert(key0, enc_row(rows[0]));
        lemma_insert_rows_values(m1, table, c + 1, rows.drop_first(), k);
        if m1.dom().contains(k) && insert_rows_store(m1, table, c + 1, rows.drop_first())[k]
            == m1[k] {
            if k == key0 {
                assert(insert_rows_store(m, table, c, rows)[k] == enc_row(rows[0]));
            }
        } else {
            let i = choose|i: int|
                0 <= i < rows.drop_first().len() && insert_rows_store(
                    m1,
                    table,
                    c + 1,
                    rows.drop_first(),
                )[k] == enc_row(#[trigger] rows.drop_first()[i]);
            assert(rows.drop_first()[i] == rows[i + 1]);
        }
    }
}

/// A successful `INSERT` preserves the row-arity invariant of its table.
pub proof fn law_insert_preserves_conform(
    st: EState,
    table: Seq<char>,
    cols_opt: Option<Seq<Seq<char>>>,
    values: Seq<Seq<ValueS>>,
)
    requires
        table_conforms(st.store, table),
        insert_spec(st, table, cols_opt, values) is Ok,
        values_size_ok(
            built_rows(
                values,
                insert_plan(cols_opt, cat_get_spec(st.store, table)->Table_1).unwrap(),
                cat_get_spec(st.store, table)->Table_1,
            ),
        ),
        forall|j: int| 0 <= j < values.len() ==> row_wf(#[trigger] values[j]),
    ensures
        insert_spec(st, table, cols_opt, values) matches Ok(p) && table_conforms(
            p.0.store,
            table,
        ),
{
    let cols = cat_get_spec(st.store, table)->Table_1;
    let dests = insert_plan(cols_opt, cols).unwrap();
    let built = built_rows(values, dests, cols);
    let p = insert_spec(st, table, cols_opt, values)->Ok_0;
    let c0 = st.counter;
    assert(c0 + built.len() < 0x1_0000_0000_0000_0000);
    let ckey = catalog_key_spec(table);
    assert forall|ss: u64| ckey != row_key_spec(table, ss) by {
        crate::executor::lemma_row_key_stamp(table, ss);
        crate::keys::lemma_data_key_not_catalog(row_key_spec(table, ss), table);
    }
    lemma_insert_rows_catalog(st.store, table, c0, built, ckey);
    assert(cat_get_spec(p.0.store, table) == cat_get_spec(st.store, table));
    assert forall|k: Seq<u8>|
        #[trigger] p.0.store.dom().contains(k) && has_prefix(k, data_prefix_spec(table)) implies (
    dec_row(p.0.store[k]) matches Some(r) && r.len() == cols.len()) by {
        lemma_insert_rows_values(st.store, table, c0, built, k);
        if st.store.dom().contains(k) && p.0.store[k] == st.store[k] {
        } else {
            let i = choose|i: int|
                0 <= i < built.len() && p.0.store[k] == enc_row(#[trigger] built[i]);
            assert(built[i] == built_row(values[i], dests, cols));
            assert(row_wf(built[i])) by {
                assert forall|kk: int| 0 <= kk < built[i].len() implies (
                #[trigger] built[i][kk]).wf() by {
                    assert(crate::executor::build_cell(values[i], dests, cols, kk) is Some);
                    match crate::executor::dest_pos(dests, kk) {
                        Some(j) => {
                            lemma_dest_pos_in_range(dests, kk);
                            crate::coerce::lemma_coerce_wf(cols[kk].data_type, values[i][j]);
                        },
                        None => {},
                    }
                }
            }
            assert(row_size_ok(built[i]));
            lemma_row_roundtrip(built[i]);
        }
    }
}

/// The values surviving a key removal are unchanged.
proof fn lemma_remove_all_values(m: Map<Seq<u8>, Seq<u8>>, ks: Seq<Seq<u8>>, k: Seq<u8>)
    requires
        remove_all(m, ks).dom().contains(k),
    ensures
        m.dom().contains(k) && remove_all(m, ks)[k] == m[k],
    decreases ks.len(),
{
    if ks.len() > 0 {
        lemma_remove_all_values(m.remove(ks[0]), ks.drop_first(), k);
    }
}

/// A successful `DELETE` preserves the row-arity invariant of every
/// table: it only removes keys.
pub proof fn law_delete_preserves_conform(
    st: EState,
    table: Seq<char>,
    w: Option<ExprS>,
    other: Seq<char>,
)
    requires
        st.store.dom().finite(),
        table_conforms(st.store, other),
        delete_spec(st, table, w) is Ok,
    ensures
        delete_spec(st, table, w) matches Ok(p) && table_conforms(p.0.store, other),
{
    let p = delete_spec(st, table, w)->Ok_0;
    let okey = catalog_key_spec(other);
    assert forall|k: Seq<u8>| #[trigger] p.0.store.dom().contains(k) implies st.store.dom()
        .contains(k) && p.0.store[k] == st.store[k] by {
        match cat_get_spec(st.store, table) {
            crate::catalog::CatalogLookup::Table(nm, cols) => {
                let entries = scan_spec(st.store, data_prefix_spec(table));
                match w {
                    None => {
                        lemma_remove_all_values(
                            st.store,
                            entries.map(|i: int, kv: (Seq<u8>, Seq<u8>)| kv.0),
                            k,
                        );
                    },
                    Some(e) => {
                        lemma_remove_all_values(
                            st.store,
                            del_collect(entries, e, col_names(cols)).unwrap(),
                            k,
                        );
                    },
                }
            },
            _ => {},
        }
    }
    assert(cat_get_spec(p.0.store, other) is Table ==> cat_get_spec(st.store, other) is Table
        && cat_get_spec(p.0.store, other) == cat_get_spec(st.store, other)) by {
        if p.0.store.dom().contains(okey) {
            assert(p.0.store.dom().contains(okey));
        }
    }
}

/// Creating a table whose data region is empty establishes its row-arity
/// invariant.
pub proof fn law_create_establishes_conform(st: EState, name: Seq<char>, cols: Seq<ColumnS>)
    requires
        create_spec(st, name, cols) is Ok,
        forall|k: Seq<u8>|
            #[trigger] st.store.dom().contains(k) ==> !has_prefix(k, data_prefix_spec(name)),
    ensures
        create_spec(st, name, cols) matches Ok(st1) && table_conforms(st1.store, name),
{
    let st1 = create_spec(st, name, cols)->Ok_0;
    crate::keys::lemma_catalog_key_not_data(name, name);
    assert forall|k: Seq<u8>|
        #[trigger] st1.store.dom().contains(k) && has_prefix(
            k,
            data_prefix_spec(name),
        ) implies false by {
        if k != catalog_key_spec(name) {
            assert(st.store.dom().contains(k));
        }
    }
}

/// A successful `DROP TABLE` preserves the row-arity invariant of every
/// other table: it only removes keys, and only its own catalog entry.
pub proof fn law_drop_preserves_conform(
    st: EState,
    table: Seq<char>,
    if_exists: bool,
    other: Seq<char>,
)
    requires
        st.store.dom().finite(),
        table_conforms(st.store, other),
        other != table,
        drop_spec(st, table, if_exists) is Ok,
    ensures
        drop_spec(st, table, if_exists) matches Ok(p) && table_conforms(p.0.store, other),
{
    let p = drop_spec(st, table, if_exists)->Ok_0;
    if st.store.dom().contains(catalog_key_spec(table)) {
        let entries = scan_spec(st.store, data_prefix_spec(table));
        let keys = entries.map(|i: int, kv: (Seq<u8>, Seq<u8>)| kv.0);
        let m1 = remove_all(st.store, keys);
        assert forall|k: Seq<u8>| #[trigger] p.0.store.dom().contains(k) implies st.store.dom()
            .contains(k) && p.0.store[k] == st.store[k] by {
            lemma_remove_all_values(st.store, keys, k);
        }
        assert(cat_get_spec(p.0.store, other) is Table ==> cat_get_spec(st.store, other)
            is Table && cat_get_spec(p.0.store, other) == cat_get_spec(st.store, other));
    }
}

/// Keys outside a batch keep their presence and value.
proof fn lemma_insert_all_frame(
    m: Map<Seq<u8>, Seq<u8>>,
    es: Seq<(Seq<u8>, Seq<u8>)>,
    k: Seq<u8>,
)
    requires
        forall|i: int| 0 <= i < es.len() ==> (#[trigger] es[i]).0 != k,
    ensures
        crate::storage::insert_all(m, es).dom().contains(k) == m.dom().contains(k),
        m.dom().contains(k) ==> crate::storage::insert_all(m, es)[k] == m[k],
    decreases es.len(),
{
    if es.len() > 0 {
        assert(forall|i: int|
            0 <= i < es.drop_first().len() ==> (#[trigger] es.drop_first()[i]) == es[i + 1]);
        lemma_insert_all_frame(m.insert(es[0].0, es[0].1), es.drop_first(), k);
    }
}

/// A batch with pairwise distinct keys writes each entry's value.
proof fn lemma_insert_all_at(m: Map<Seq<u8>, Seq<u8>>, es: Seq<(Seq<u8>, Seq<u8>)>, j: int)
    requires
        0 <= j < es.len(),
        forall|i1: int, i2: int|
            0 <= i1 < i2 < es.len() ==> (#[trigger] es[i1]).0 != (#[trigger] es[i2]).0,
    ensures
        crate::storage::insert_all(m, es).dom().contains(es[j].0),
        crate::storage::insert_all(m, es)[es[j].0] == es[j].1,
    decreases es.len(),
{
    let m1 = m.insert(es[0].0, es[0].1);
    assert(forall|i: int|
        0 <= i < es.drop_first().len() ==> (#[trigger] es.drop_first()[i]) == es[i + 1]);
    if j == 0 {
        assert forall|i: int| 0 <= i < es.drop_first().len() implies (
        #[trigger] es.drop_first()[i]).0 != es[0].0 by {
            assert(es.drop_first()[i] == es[i + 1]);
        }
        lemma_insert_all_frame(m1, es.drop_first(), es[0].0);
    } else {
        lemma_insert_all_at(m1, es.drop_first(), j - 1);
        assert(es.drop_first()[j - 1] == es[j]);
    }
}

/// What the update batch holds, entry by entry: the key and the
/// re-encoded row of some scanned entry the predicate selected; with
/// distinct scan keys the batch keys are distinct too.
proof fn lemma_upd_collect_entries(
    entries: Seq<(Seq<u8>, Seq<u8>)>,
    w: Option<ExprS>,
    cols: Seq<Seq<char>>,
    ras: Seq<(int, ValueS)>,
    ncols: nat,
)
    requires
        forall|i1: int, i2: int|
            0 <= i1 < i2 < entries.len() ==> (#[trigger] entries[i1]).0 != (
            #[trigger] entries[i2]).0,
    ensures
        crate::executor::upd_collect(entries, w, cols, ras, ncols) matches Some(chs) ==> (forall|
            ii: int,
        |
            0 <= ii < chs.len() ==> exists|j: int|
                0 <= j < entries.len() && (#[trigger] chs[ii]).0 == (#[trigger] entries[j]).0 && (
                dec_row(entries[j].1) matches Some(r) && r.len() == ncols
                    && crate::executor::hit_spec(w, cols, r) == crate::filter::EvalOut::Val(true)
                    && chs[ii].1 == enc_row(
                    crate::executor::apply_assigns(r, ras),
                ))) && (forall|i1: int, i2: int|
            0 <= i1 < i2 < chs.len() ==> (#[trigger] chs[i1]).0 != (#[trigger] chs[i2]).0),
    decreases entries.len(),
{
    if entries.len() > 0 {
        let tail = entries.drop_first();
        assert(forall|i: int| 0 <= i < tail.len() ==> (#[trigger] tail[i]) == entries[i + 1]);
        lemma_upd_collect_entries(tail, w, cols, ras, ncols);
        match crate::executor::upd_collect(entries, w, cols, ras, ncols) {
            Some(chs) => {
                match crate::executor::upd_collect(tail, w, cols, ras, ncols) {
                    Some(rest) => {
                        if chs.len() == rest.len() + 1 {
                            // the head row was selected
                            assert(chs[0].0 == entries[0].0);
                            assert forall|ii: int| 0 <= ii < chs.len() implies exists|j: int|
                                0 <= j < entries.len() && (#[trigger] chs[ii]).0 == (
                                #[trigger] entries[j]).0 && (dec_row(entries[j].1) matches Some(r)
                                && r.len() == ncols && crate::executor::hit_spec(w, cols, r)
                                == crate::filter::EvalOut::Val(true) && chs[ii].1 == enc_row(
                                crate::executor::apply_assigns(r, ras),
                            )) by {
                                if ii == 0 {
                                    assert(chs[0].0 == entries[0].0);
                                } else {
                                    assert(chs[ii] == rest[ii - 1]);
                                    let j = choose|j: int|
                                        0 <= j < tail.len() && (#[trigger] rest[ii - 1]).0 == (
                                        #[trigger] tail[j]).0 && (dec_row(tail[j].1) matches Some(
                                            r,
                                        ) && r.len() == ncols && crate::executor::hit_spec(
                                            w,
                                            cols,
                                            r,
                                        ) == crate::filter::EvalOut::Val(true) && rest[ii - 1].1
                                            == enc_row(
                                            crate::executor::apply_assigns(r, ras),
                                        ));
                                    assert(tail[j] == entries[j + 1]);
                                }
                            }
                            assert forall|i1: int, i2: int|
                                0 <= i1 < i2 < chs.len() implies (#[trigger] chs[i1]).0 != (
                            #[trigger] chs[i2]).0 by {
                                if i1 == 0 {
                                    assert(chs[i2] == rest[i2 - 1]);
                                    let j = choose|j: int|
                                        0 <= j < tail.len() && (#[trigger] rest[i2 - 1]).0 == (
                                        #[trigger] tail[j]).0 && (dec_row(
                                            tail[j].1,
                                        ) matches Some(r) && r.len() == ncols
                                            && crate::executor::hit_spec(w, cols, r)
                                            == crate::filter::EvalOut::Val(true) && rest[i2
                                            - 1].1 == enc_row(
                                            crate::executor::apply_assigns(r, ras),
                                        ));
                                    assert(tail[j] == entries[j + 1]);
                                    assert(entries[0].0 != entries[j + 1].0);
                                } else {
                                    assert(chs[i1] == rest[i1 - 1]);
                                    assert(chs[i2] == rest[i2 - 1]);
                                }
                            }
                        } else {
                            // the head row was skipped
                            assert(chs == rest);
                            assert forall|ii: int| 0 <= ii < chs.len() implies exists|j: int|
                                0 <= j < entries.len() && (#[trigger] chs[ii]).0 == (
                                #[trigger] entries[j]).0 && (dec_row(entries[j].1) matches Some(r)
                                && r.len() == ncols && crate::executor::hit_spec(w, cols, r)
                                == crate::filter::EvalOut::Val(true) && chs[ii].1 == enc_row(
                                crate::executor::apply_assigns(r, ras),
                            )) by {
                                let j = choose|j: int|
                                    0 <= j < tail.len() && (#[trigger] rest[ii]).0 == (
                                    #[trigger] tail[j]).0 && (dec_row(tail[j].1) matches Some(r)
                                    && r.len() == ncols && crate::executor::hit_spec(w, cols, r)
                                    == crate::filter::EvalOut::Val(true) && rest[ii].1 == enc_row(
                                    crate::executor::apply_assigns(r, ras),
                                ));
                                assert(tail[j] == entries[j + 1]);
                            }
                        }
                    },
                    None => {},
                }
            },
            None => {},
        }
    }
}

/// A value the assignments placed came from the assignment list.
proof fn lemma_last_assign_in(ras: Seq<(int, ValueS)>, k: int)
    ensures
        last_assign(ras, k) matches Some(v) ==> exists|j: int|
            0 <= j < ras.len() && (#[trigger] ras[j]).1 == v,
    decreases ras.len(),
{
    if ras.len() > 0 {
        lemma_last_assign_in(ras.drop_first(), k);
        assert(forall|j: int|
            0 <= j < ras.drop_first().len() ==> (#[trigger] ras.drop_first()[j]) == ras[j + 1]);
        match last_assign(ras.drop_first(), k) {
            Some(v) => {
                let j = choose|j: int|
                    0 <= j < ras.drop_first().len() && (#[trigger] ras.drop_first()[j]).1 == v;
                assert(ras[j + 1].1 == v);
            },
            None => {
                if ras[0].0 == k {
                    assert(ras[0].1 == ras[0].1);
                }
            },
        }
    }
}

/// The resolved assignment values are well-formed whenever the given
/// assignment values are.
proof fn lemma_ras_wf(assigns: Seq<(Seq<char>, ValueS)>, cols: Seq<ColumnS>)
    requires
        forall|j: int| 0 <= j < assigns.len() ==> (#[trigger] assigns[j]).1.wf(),
    ensures
        crate::executor::assigns_resolved_rec(assigns, cols) matches Some(ras) ==> forall|j: int|
            0 <= j < ras.len() ==> (#[trigger] ras[j]).1.wf(),
    decreases assigns.len(),
{
    if assigns.len() > 0 {
        assert(forall|j: int|
            0 <= j < assigns.drop_first().len() ==> (#[trigger] assigns.drop_first()[j])
                == assigns[j + 1]);
        lemma_ras_wf(assigns.drop_first(), cols);
        match crate::filter::col_index(col_names(cols), assigns[0].0) {
            Some(i) => {
                match crate::coerce::coerce_spec(cols[i].data_type, assigns[0].1) {
                    Some(cv) => {
                        crate::coerce::lemma_coerce_wf(cols[i].data_type, assigns[0].1);
                        match crate::executor::assigns_resolved_rec(assigns.drop_first(), cols) {
                            Some(rest) => {
                                let whole = seq![(i, cv)] + rest;
                                assert forall|j: int| 0 <= j < whole.len() implies (
                                #[trigger] whole[j]).1.wf() by {
                                    if j == 0 {
                                        assert(whole[0] == (i, cv));
                                    } else {
                                        assert(whole[j] == rest[j - 1]);
                                    }
                                }
                            },
                            None => {},
                        }
                    },
                    None => {},
                }
            },
            None => {},
        }
    }
}

/// A successful `UPDATE` preserves the row-arity invariant of its table:
/// every rewritten row keeps the schema's column count and decodes back.
pub proof fn law_update_preserves_conform(
    st: EState,
    table: Seq<char>,
    assigns: Seq<(Seq<char>, ValueS)>,
    w: Option<ExprS>,
)
    requires
        st.store.dom().finite(),
        table_conforms(st.store, table),
        update_spec(st, table, assigns, w) is Ok,
        forall|j: int| 0 <= j < assigns.len() ==> (#[trigger] assigns[j]).1.wf(),
        ({
            let cols = cat_get_spec(st.store, table)->Table_1;
            let ras = crate::executor::assigns_resolved(assigns, cols).unwrap();
            forall|j: int| 0 <= j < ras.len() ==> vs_size_ok((#[trigger] ras[j]).1)
        }),
    ensures
        update_spec(st, table, assigns, w) matches Ok(p) && table_conforms(p.0.store, table),
{
    let cols = cat_get_spec(st.store, table)->Table_1;
    let ras = crate::executor::assigns_resolved(assigns, cols).unwrap();
    let entries = scan_spec(st.store, data_prefix_spec(table));
    let chs = crate::executor::upd_collect(entries, w, col_names(cols), ras, cols.len()).unwrap();
    let p = update_spec(st, table, assigns, w)->Ok_0;
    assert(p.0.store == crate::storage::insert_all(st.store, chs));
    crate::storage::lemma_scan_spec_props(st.store, data_prefix_spec(table));
    assert forall|i1: int, i2: int| 0 <= i1 < i2 < entries.len() implies (
    #[trigger] entries[i1]).0 != (#[trigger] entries[i2]).0 by {
        crate::storage::lemma_lex_lt_asym(entries[i1].0, entries[i2].0);
    }
    lemma_upd_collect_entries(entries, w, col_names(cols), ras, cols.len());
    lemma_ras_wf(assigns, cols);
    // the catalog entry is untouched: batch keys lie in the data region
    let ckey = catalog_key_spec(table);
    assert forall|ii: int| 0 <= ii < chs.len() implies (#[trigger] chs[ii]).0 != ckey by {
        let j = choose|j: int|
            0 <= j < entries.len() && (#[trigger] chs[ii]).0 == (#[trigger] entries[j]).0 && (
            dec_row(entries[j].1) matches Some(r) && r.len() == cols.len() && chs[ii].1 == enc_row(
                crate::executor::apply_assigns(r, ras),
            ));
        crate::keys::lemma_data_key_not_catalog(entries[j].0, table);
    }
    lemma_insert_all_frame(st.store, chs, ckey);
    assert(cat_get_spec(p.0.store, table) == cat_get_spec(st.store, table));
    // indices of the resolved assignments lie inside the schema
    assert forall|j: int| 0 <= j < ras.len() implies 0 <= (#[trigger] ras[j]).0
        < cols.len() by {
        lemma_ras_in_range(assigns, cols, j);
    }
    assert forall|k: Seq<u8>|
        #[trigger] p.0.store.dom().contains(k) && has_prefix(k, data_prefix_spec(table)) implies (
    dec_row(p.0.store[k]) matches Some(r2) && r2.len() == cols.len()) by {
        if exists|ii: int| 0 <= ii < chs.len() && (#[trigger] chs[ii]).0 == k {
            let ii = choose|ii: int| 0 <= ii < chs.len() && (#[trigger] chs[ii]).0 == k;
            lemma_insert_all_at(st.store, chs, ii);
            assert(p.0.store[k] == chs[ii].1);
            let j = choose|j: int|
                0 <= j < entries.len() && (#[trigger] chs[ii]).0 == (#[trigger] entries[j]).0 && (
                dec_row(entries[j].1) matches Some(r) && r.len() == cols.len() && chs[ii].1
                    == enc_row(crate::executor::apply_assigns(r, ras)));
            let r = dec_row(entries[j].1)->Some_0;
            assert(st.store.contains_pair(entries[j].0, entries[j].1));
            crate::codec::lemma_dec_row_wf(entries[j].1);
            crate::codec::lemma_dec_row_size(entries[j].1);
            let applied = crate::executor::apply_assigns(r, ras);
            assert(applied.len() == r.len() && (forall|kk: int|
                0 <= kk < r.len() ==> #[trigger] applied[kk] == (match
                last_assign(ras, kk) {
                    Some(v) => v,
                    None => r[kk],
                }))) by {
                assert forall|kk: int| 0 <= kk < r.len() implies #[trigger] applied[kk] == (match
                last_assign(ras, kk) {
                    Some(v) => v,
                    None => r[kk],
                }) by {
                    lemma_apply_at(r, ras, kk);
                }
                if r.len() > 0 {
                    lemma_apply_at(r, ras, 0);
                } else {
                    assert(ras.len() == 0);
                    assert(applied =~= r);
                }
            }
            assert(row_wf(applied) && row_size_ok(applied)) by {
                assert forall|kk: int| 0 <= kk < applied.len() implies (
                #[trigger] applied[kk]).wf() && vs_size_ok(applied[kk]) by {
                    match last_assign(ras, kk) {
                        Some(v) => {
                            lemma_last_assign_in(ras, kk);
                            let jj = choose|jj: int|
                                0 <= jj < ras.len() && (#[trigger] ras[jj]).1 == v;
                        },
                        None => {
                            assert(applied[kk] == r[kk]);
                        },
                    }
                }
            }
            lemma_row_roundtrip(applied);
        } else {
            assert forall|ii: int| 0 <= ii < chs.len() implies (#[trigger] chs[ii]).0 != k by {}
            lemma_insert_all_frame(st.store, chs, k);
        }
    }
}

/// Resolved assignment indices point inside the schema.
proof fn lemma_ras_in_range(assigns: Seq<(Seq<char>, ValueS)>, cols: Seq<ColumnS>, j: int)
    requires
        crate::executor::assigns_resolved(assigns, cols) matches Some(ras) && 0 <= j < ras.len(),
    ensures
        crate::executor::assigns_resolved(assigns, cols) matches Some(ras) ==> 0 <= ras[j].0
            < cols.len(),
    decreases assigns.len(),
{
    let ras = crate::executor::assigns_resolved(assigns, cols)->Some_0;
    lemma_ras_rec_in_range(assigns, cols, j);
}

proof fn lemma_ras_rec_in_range(assigns: Seq<(Seq<char>, ValueS)>, cols: Seq<ColumnS>, j: int)
    requires
        crate::executor::assigns_resolved_rec(assigns, cols) matches Some(ras) && 0 <= j
            < ras.len(),
    ensures
        crate::executor::assigns_resolved_rec(assigns, cols) matches Some(ras) ==> 0 <= ras[j].0
            < cols.len(),
    decreases assigns.len(),
{
    let ras = crate::executor::assigns_resolved_rec(assigns, cols)->Some_0;
    assert(assigns.len() > 0);
    match crate::filter::col_index(col_names(cols), assigns[0].0) {
        Some(i) => {
            crate::filter::lemma_col_index_bounds(col_names(cols), assigns[0].0);
            assert(col_names(cols).len() == cols.len());
            match crate::coerce::coerce_spec(cols[i].data_type, assigns[0].1) {
                Some(cv) => {
                    let rest = crate::executor::assigns_resolved_rec(
                        assigns.drop_first(),
                        cols,
                    )->Some_0;
                    assert(ras == seq![(i, cv)] + rest);
                    if j == 0 {
                        assert(ras[0] == (i, cv));
                    } else {
                        assert(ras[j] == rest[j - 1]);
                        lemma_ras_rec_in_range(assigns.drop_first(), cols, j - 1);
                    }
                },
                None => {},
            }
        },
        None => {},
    }
}

/// A batch never shrinks the store's key set.
proof fn lemma_insert_all_grows(m: Map<Seq<u8>, Seq<u8>>, es: Seq<(Seq<u8>, Seq<u8>)>, k: Seq<u8>)
    requires
        m.dom().contains(k),
    ensures
        crate::storage::insert_all(m, es).dom().contains(k),
    decreases es.len(),
{
    if es.len() > 0 {
        lemma_insert_all_grows(m.insert(es[0].0, es[0].1), es.drop_first(), k);
    }
}

/// A batch whose pairs the store already holds changes nothing.
proof fn lemma_insert_all_present(m: Map<Seq<u8>, Seq<u8>>, es: Seq<(Seq<u8>, Seq<u8>)>)
    requires
        forall|i: int| 0 <= i < es.len() ==> m.contains_pair((#[trigger] es[i]).0, es[i].1),
    ensures
        crate::storage::insert_all(m, es) == m,
    decreases es.len(),
{
    if es.len() > 0 {
        assert(m.insert(es[0].0, es[0].1) =~= m);
        assert(forall|i: int|
            0 <= i < es.drop_first().len() ==> (#[trigger] es.drop_first()[i]) == es[i + 1]);
        lemma_insert_all_present(m, es.drop_first());
        assert(crate::storage::insert_all(m, es) == crate::storage::insert_all(
            m.insert(es[0].0, es[0].1),
            es.drop_first(),
        ));
    }
}

/// A collection that went through decodes every entry at schema arity
/// and decides every row.
proof fn lemma_upd_collect_all(
    entries: Seq<(Seq<u8>, Seq<u8>)>,
    w: Option<ExprS>,
    cols: Seq<Seq<char>>,
    ras: Seq<(int, ValueS)>,
    ncols: nat,
)
    ensures
        crate::executor::upd_collect(entries, w, cols, ras, ncols) is Some ==> forall|j: int|
            0 <= j < entries.len() ==> (dec_row((#[trigger] entries[j]).1) matches Some(r)
                && r.len() == ncols && crate::executor::hit_spec(w, cols, r) is Val),
    decreases entries.len(),
{
    if entries.len() > 0 {
        lemma_upd_collect_all(entries.drop_first(), w, cols, ras, ncols);
        if crate::executor::upd_collect(entries, w, cols, ras, ncols) is Some {
            assert forall|j: int| 0 <= j < entries.len() implies (dec_row(
                (#[trigger] entries[j]).1,
            ) matches Some(r) && r.len() == ncols && crate::executor::hit_spec(w, cols, r)
                is Val) by {
                if j > 0 {
                    assert(entries.drop_first()[j - 1] == entries[j]);
                }
            }
        }
    }
}

/// Every row the predicate selects reaches the batch, as its key with
/// its rewritten encoding.
proof fn lemma_upd_collect_complete(
    entries: Seq<(Seq<u8>, Seq<u8>)>,
    w: Option<ExprS>,
    cols: Seq<Seq<char>>,
    ras: Seq<(int, ValueS)>,
    ncols: nat,
    j: int,
)
    requires
        crate::executor::upd_collect(entries, w, cols, ras, ncols) is Some,
        0 <= j < entries.len(),
        dec_row(entries[j].1) matches Some(r) && r.len() == ncols && crate::executor::hit_spec(
            w,
            cols,
            r,
        ) == crate::filter::EvalOut::Val(true),
    ensures
        crate::executor::upd_collect(entries, w, cols, ras, ncols) matches Some(chs) ==> exists|
            ii: int,
        |
            0 <= ii < chs.len() && (#[trigger] chs[ii]) == (
                entries[j].0,
                enc_row(crate::executor::apply_assigns(dec_row(entries[j].1)->Some_0, ras)),
            ),
    decreases entries.len(),
{
    let chs = crate::executor::upd_collect(entries, w, cols, ras, ncols)->Some_0;
    let r0 = dec_row(entries[0].1)->Some_0;
    let rest = crate::executor::upd_collect(entries.drop_first(), w, cols, ras, ncols)->Some_0;
    if j == 0 {
        assert(chs[0] == (entries[0].0, enc_row(crate::executor::apply_assigns(r0, ras))));
    } else {
        assert(entries.drop_first()[j - 1] == entries[j]);
        lemma_upd_collect_complete(entries.drop_first(), w, cols, ras, ncols, j - 1);
        let ii = choose|ii: int|
            0 <= ii < rest.len() && (#[trigger] rest[ii]) == (
                entries[j].0,
                enc_row(crate::executor::apply_assigns(dec_row(entries[j].1)->Some_0, ras)),
            );
        match crate::executor::hit_spec(w, cols, r0) {
            crate::filter::EvalOut::Val(true) => {
                assert(chs[ii + 1] == rest[ii]);
            },
            crate::filter::EvalOut::Val(false) => {
                assert(chs[ii] == rest[ii]);
            },
            _ => {},
        }
    }
}

/// The second pass of the same update writes only pairs the store
/// already holds: every scanned entry either fails the predicate or is
/// rewritten to exactly itself.
proof fn lemma_upd_pass2(
    e1: Seq<(Seq<u8>, Seq<u8>)>,
    e2: Seq<(Seq<u8>, Seq<u8>)>,
    w: Option<ExprS>,
    cols: Seq<Seq<char>>,
    ras: Seq<(int, ValueS)>,
    ncols: nat,
)
    requires
        e1.len() == e2.len(),
        forall|j: int|
            0 <= j < ras.len() ==> 0 <= (#[trigger] ras[j]).0 < ncols,
        forall|i: int|
            0 <= i < e1.len() ==> (dec_row((#[trigger] e1[i]).1) matches Some(r) && r.len()
                == ncols && crate::executor::hit_spec(w, cols, r) is Val),
        forall|i: int|
            0 <= i < e1.len() ==> ({
                let r = dec_row((#[trigger] e1[i]).1)->Some_0;
                if crate::executor::hit_spec(w, cols, r) == crate::filter::EvalOut::Val(true) {
                    e2[i].1 == enc_row(crate::executor::apply_assigns(r, ras)) && dec_row(e2[i].1)
                        == Some(crate::executor::apply_assigns(r, ras))
                } else {
                    e2[i].1 == e1[i].1
                }
            }),
    ensures
        crate::executor::upd_collect(e2, w, cols, ras, ncols) matches Some(chs2) ==> forall|
            ii: int,
        |
            0 <= ii < chs2.len() ==> exists|j: int|
                0 <= j < e2.len() && (#[trigger] chs2[ii]) == (#[trigger] e2[j]),
    decreases e1.len(),
{
    if e1.len() > 0 {
        let r = dec_row(e1[0].1)->Some_0;
        assert(forall|i: int|
            0 <= i < e1.drop_first().len() ==> (#[trigger] e1.drop_first()[i]) == e1[i + 1]);
        assert(forall|i: int|
            0 <= i < e2.drop_first().len() ==> (#[trigger] e2.drop_first()[i]) == e2[i + 1]);
        lemma_upd_pass2(e1.drop_first(), e2.drop_first(), w, cols, ras, ncols);
        match crate::executor::upd_collect(e2, w, cols, ras, ncols) {
            Some(chs2) => {
                let rest2 = crate::executor::upd_collect(
                    e2.drop_first(),
                    w,
                    cols,
                    ras,
                    ncols,
                )->Some_0;
                if crate::executor::hit_spec(w, cols, r) == crate::filter::EvalOut::Val(true) {
                    // the head was rewritten to itself
                    let applied = crate::executor::apply_assigns(r, ras);
                    assert(dec_row(e2[0].1) == Some(applied));
                    assert(applied.len() == ncols) by {
                        if r.len() > 0 {
                            lemma_apply_at(r, ras, 0);
                        } else {
                            assert(ras.len() == 0);
                            assert(applied =~= r);
                        }
                    }
                    law_apply_assigns_idempotent(r, ras);
                    match crate::executor::hit_spec(w, cols, applied) {
                        crate::filter::EvalOut::Val(true) => {
                            assert(chs2[0] == (e2[0].0, enc_row(
                                crate::executor::apply_assigns(applied, ras),
                            )));
                            assert(crate::executor::apply_assigns(applied, ras) == applied);
                            assert(chs2[0] == e2[0]);
                            assert forall|ii: int| 0 <= ii < chs2.len() implies exists|j: int|
                                0 <= j < e2.len() && (#[trigger] chs2[ii]) == (
                                #[trigger] e2[j]) by {
                                if ii == 0 {
                                    assert(chs2[0] == e2[0]);
                                } else {
                                    assert(chs2[ii] == rest2[ii - 1]);
                                    let j = choose|j: int|
                                        0 <= j < e2.drop_first().len() && (#[trigger] rest2[ii
                                            - 1]) == (#[trigger] e2.drop_first()[j]);
                                    assert(chs2[ii] == e2[j + 1]);
                                }
                            }
                        },
                        crate::filter::EvalOut::Val(false) => {
                            assert(chs2 == rest2);
                            assert forall|ii: int| 0 <= ii < chs2.len() implies exists|j: int|
                                0 <= j < e2.len() && (#[trigger] chs2[ii]) == (
                                #[trigger] e2[j]) by {
                                let j = choose|j: int|
                                    0 <= j < e2.drop_first().len() && (#[trigger] rest2[ii]) == (
                                    #[trigger] e2.drop_first()[j]);
                                assert(chs2[ii] == e2[j + 1]);
                            }
                        },
                        _ => {},
                    }
                } else {
                    // the head kept its bytes, so it fails the predicate again
                    assert(e2[0].1 == e1[0].1);
                    assert(crate::executor::hit_spec(w, cols, r)
                        == crate::filter::EvalOut::Val(false));
                    assert(chs2 == rest2);
                    assert forall|ii: int| 0 <= ii < chs2.len() implies exists|j: int|
                        0 <= j < e2.len() && (#[trigger] chs2[ii]) == (#[trigger] e2[j]) by {
                        let j = choose|j: int|
                            0 <= j < e2.drop_first().len() && (#[trigger] rest2[ii]) == (
                            #[trigger] e2.drop_first()[j]);
                        assert(chs2[ii] == e2[j + 1]);
                    }
                }
            },
            None => {},
        }
    }
}

/// A rewritten row is well-formed, within encoding range, keeps its
/// arity, and decodes back from its encoding.
proof fn lemma_applied_roundtrip(r: Seq<ValueS>, ras: Seq<(int, ValueS)>, ncols: nat)
    requires
        row_wf(r),
        row_size_ok(r),
        r.len() == ncols,
        forall|j: int| 0 <= j < ras.len() ==> 0 <= (#[trigger] ras[j]).0 < ncols,
        forall|j: int| 0 <= j < ras.len() ==> (#[trigger] ras[j]).1.wf(),
        forall|j: int| 0 <= j < ras.len() ==> vs_size_ok((#[trigger] ras[j]).1),
    ensures
        crate::executor::apply_assigns(r, ras).len() == ncols,
        dec_row(enc_row(crate::executor::apply_assigns(r, ras))) == Some(
            crate::executor::apply_assigns(r, ras),
        ),
{
    let applied = crate::executor::apply_assigns(r, ras);
    assert(applied.len() == r.len() && (forall|kk: int|
        0 <= kk < r.len() ==> #[trigger] applied[kk] == (match last_assign(ras, kk) {
            Some(v) => v,
            None => r[kk],
        }))) by {
        assert forall|kk: int| 0 <= kk < r.len() implies #[trigger] applied[kk] == (match
        last_assign(ras, kk) {
            Some(v) => v,
            None => r[kk],
        }) by {
            lemma_apply_at(r, ras, kk);
        }
        if r.len() > 0 {
            lemma_apply_at(r, ras, 0);
        } else {
            assert(ras.len() == 0);
            assert(applied =~= r);
        }
    }
    assert(row_wf(applied) && row_size_ok(applied)) by {
        assert forall|kk: int| 0 <= kk < applied.len() implies (#[trigger] applied[kk]).wf()
            && vs_size_ok(applied[kk]) by {
            match last_assign(ras, kk) {
                Some(v) => {
                    lemma_last_assign_in(ras, kk);
                    let jj = choose|jj: int| 0 <= jj < ras.len() && (#[trigger] ras[jj]).1 == v;
                },
                None => {
                    assert(applied[kk] == r[kk]);
                },
            }
        }
    }
    lemma_row_roundtrip(applied);
}

/// Running the same `UPDATE` twice is idempotent in effect: whenever the
/// second run completes, it leaves the store exactly as the first run
/// did — each row it selects again is rewritten to itself.
pub proof fn law_update_idempotent(
    st: EState,
    table: Seq<char>,
    assigns: Seq<(Seq<char>, ValueS)>,
    w: Option<ExprS>,
)
    requires
        st.store.dom().finite(),
        update_spec(st, table, assigns, w) is Ok,
        forall|j: int| 0 <= j < assigns.len() ==> (#[trigger] assigns[j]).1.wf(),
        ({
            let cols = cat_get_spec(st.store, table)->Table_1;
            let ras = crate::executor::assigns_resolved(assigns, cols).unwrap();
            forall|j: int| 0 <= j < ras.len() ==> vs_size_ok((#[trigger] ras[j]).1)
        }),
    ensures
        update_spec(st, table, assigns, w) matches Ok(p1) && (match update_spec(
            p1.0,
            table,
            assigns,
            w,
        ) {
            Ok(p2) => p2.0.store == p1.0.store && p2.0.counter == p1.0.counter,
            Err(_) => true,
        }),
{
    let cols = cat_get_spec(st.store, table)->Table_1;
    let ncols = cols.len();
    let ras = crate::executor::assigns_resolved(assigns, cols).unwrap();
    let e1 = scan_spec(st.store, data_prefix_spec(table));
    let chs = crate::executor::upd_collect(e1, w, col_names(cols), ras, ncols).unwrap();
    let p1 = update_spec(st, table, assigns, w)->Ok_0;
    assert(p1.0.store == crate::storage::insert_all(st.store, chs));
    crate::storage::lemma_scan_spec_props(st.store, data_prefix_spec(table));
    assert forall|i1: int, i2: int| 0 <= i1 < i2 < e1.len() implies (#[trigger] e1[i1]).0 != (
    #[trigger] e1[i2]).0 by {
        crate::storage::lemma_lex_lt_asym(e1[i1].0, e1[i2].0);
    }
    lemma_upd_collect_entries(e1, w, col_names(cols), ras, ncols);
    lemma_upd_collect_all(e1, w, col_names(cols), ras, ncols);
    lemma_ras_wf(assigns, cols);
    assert forall|j: int| 0 <= j < ras.len() implies 0 <= (#[trigger] ras[j]).0 < ncols by {
        lemma_ras_in_range(assigns, cols, j);
    }
    // the catalog entry is untouched, so the second run resolves the
    // same schema and assignments
    let ckey = catalog_key_spec(table);
    assert forall|ii: int| 0 <= ii < chs.len() implies (#[trigger] chs[ii]).0 != ckey by {
        let j = choose|j: int|
            0 <= j < e1.len() && (#[trigger] chs[ii]).0 == (#[trigger] e1[j]).0;
        crate::keys::lemma_data_key_not_catalog(e1[j].0, table);
    }
    lemma_insert_all_frame(st.store, chs, ckey);
    assert(cat_get_spec(p1.0.store, table) == cat_get_spec(st.store, table));
    // the write changes no key set, so the second scan lists the same keys
    assert forall|k: Seq<u8>| #[trigger] p1.0.store.dom().contains(k) == st.store.dom().contains(
        k,
    ) by {
        if p1.0.store.dom().contains(k) && !st.store.dom().contains(k) {
            crate::executor::lemma_insert_all_facts(st.store, chs);
            let ii = choose|ii: int| 0 <= ii < chs.len() && (#[trigger] chs[ii]).0 == k;
            let j = choose|j: int|
                0 <= j < e1.len() && (#[trigger] chs[ii]).0 == (#[trigger] e1[j]).0;
            assert(st.store.contains_pair(e1[j].0, e1[j].1));
        }
        if st.store.dom().contains(k) {
            lemma_insert_all_grows(st.store, chs, k);
        }
    }
    assert(p1.0.store.dom() =~= st.store.dom());
    assert(p1.0.store.dom().finite());
    let e2 = scan_spec(p1.0.store, data_prefix_spec(table));
    assert(matching_keys(p1.0.store, data_prefix_spec(table)) =~= matching_keys(
        st.store,
        data_prefix_spec(table),
    ));
    let sk = crate::storage::sorted_keys(matching_keys(st.store, data_prefix_spec(table)));
    assert(e1 == sk.map(|i: int, k: Seq<u8>| (k, st.store[k])));
    assert(e2 == sk.map(|i: int, k: Seq<u8>| (k, p1.0.store[k])));
    assert(e2.len() == e1.len());
    assert(forall|i: int| 0 <= i < e1.len() ==> (#[trigger] e2[i]).0 == e1[i].0);
    assert(forall|i: int|
        0 <= i < e1.len() ==> (#[trigger] e1[i]).1 == st.store[e1[i].0] && e2[i].1
            == p1.0.store[e1[i].0]);
    // each scanned value either kept its bytes or is its own rewrite
    assert forall|i: int| 0 <= i < e1.len() implies ({
        let r = dec_row((#[trigger] e1[i]).1)->Some_0;
        if crate::executor::hit_spec(w, col_names(cols), r) == crate::filter::EvalOut::Val(
            true,
        ) {
            e2[i].1 == enc_row(crate::executor::apply_assigns(r, ras)) && dec_row(e2[i].1)
                == Some(crate::executor::apply_assigns(r, ras))
        } else {
            e2[i].1 == e1[i].1
        }
    }) by {
        let r = dec_row(e1[i].1)->Some_0;
        crate::codec::lemma_dec_row_wf(e1[i].1);
        crate::codec::lemma_dec_row_size(e1[i].1);
        if crate::executor::hit_spec(w, col_names(cols), r) == crate::filter::EvalOut::Val(
            true,
        ) {
            lemma_upd_collect_complete(e1, w, col_names(cols), ras, ncols, i);
            let ii = choose|ii: int|
                0 <= ii < chs.len() && (#[trigger] chs[ii]) == (
                    e1[i].0,
                    enc_row(crate::executor::apply_assigns(dec_row(e1[i].1)->Some_0, ras)),
                );
            lemma_insert_all_at(st.store, chs, ii);
            assert(p1.0.store[e1[i].0] == chs[ii].1);
            lemma_applied_roundtrip(r, ras, ncols);
        } else {
            // the key is not in the batch: a batched key's row is selected
            assert forall|ii: int| 0 <= ii < chs.len() implies (#[trigger] chs[ii]).0
                != e1[i].0 by {
                let j = choose|j: int|
                    0 <= j < e1.len() && (#[trigger] chs[ii]).0 == (#[trigger] e1[j]).0 && (
                    dec_row(e1[j].1) matches Some(r2) && r2.len() == ncols
                        && crate::executor::hit_spec(w, col_names(cols), r2)
                        == crate::filter::EvalOut::Val(true) && chs[ii].1 == enc_row(
                        crate::executor::apply_assigns(r2, ras),
                    ));
                if chs[ii].0 == e1[i].0 {
                    if j < i {
                        assert(e1[j].0 != e1[i].0);
                    } else if j > i {
                        assert(e1[i].0 != e1[j].0);
                    }
                }
            }
            lemma_insert_all_frame(st.store, chs, e1[i].0);
        }
    }
    lemma_upd_pass2(e1, e2, w, col_names(cols), ras, ncols);
    match crate::executor::upd_collect(e2, w, col_names(cols), ras, ncols) {
        Some(chs2) => {
            crate::storage::lemma_scan_spec_props(p1.0.store, data_prefix_spec(table));
            assert forall|ii: int| 0 <= ii < chs2.len() implies p1.0.store.contains_pair(
                (#[trigger] chs2[ii]).0,
                chs2[ii].1,
            ) by {
                let j = choose|j: int|
                    0 <= j < e2.len() && (#[trigger] chs2[ii]) == (#[trigger] e2[j]);
            }
            lemma_insert_all_present(p1.0.store, chs2);
        },
        None => {},
    }
}

} // verus!
