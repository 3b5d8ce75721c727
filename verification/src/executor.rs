//! The statement executor: the one component that reads and mutates the
//! store. Each statement's effect on the store, the key counter and the
//! result is given by a spec function; the executable pipeline is proved
//! to match it whenever the store itself does not fail.

use vstd::prelude::*;
use crate::cache::{CacheEntry, CacheEntryS, ResultCache};
use crate::catalog::{cat_create, cat_create_spec, cat_drop, cat_get, cat_get_spec, cat_list,
    cat_list_spec, CatalogLookup};
use crate::codec::{dec_row, decode_row, enc_row, encode_row};
use crate::coerce::coerce_spec;
use crate::expr::{Expr, ExprS};
use crate::filter::{col_index, eval_spec, expr_wf, ExpressionEvaluator};
use crate::keys::{catalog_key_spec, data_prefix, data_prefix_spec, data_tag_spec, has_prefix,
    row_key, row_key_spec};
use crate::sort::{sort_rows_spec, sort_rows};
use crate::stmt::{cols_view, items_view, opt_expr_view, opt_orders_view, orders_view, rowvec_view,
    rows_view, strings_view, Column, ColumnS, OrderByClause, OrderS, Row, SelectItem, SelectItemS,
    Statement, StatementS, TableSchema};
use crate::storage::{err_kind, scan_spec, ErrKind, StorageEngine, StorageError};
use crate::value::{row_wf, ValueS, Value};

verus! {

/// What the executor hands back for one statement.
#[derive(Debug)]
pub enum ExecutionResult {
    Created { table: String },
    TableList { tables: Vec<String> },
    TableDescription { table: String, columns: Vec<Column> },
    Inserted { table: String, rows: usize },
    Selected { columns: Vec<String>, rows: Vec<Row> },
    Updated { table: String, rows: usize },
    Deleted { table: String, rows: usize },
}

/// The model of the executor's persistent state: the keyed store and the
/// stamp counter the next row key draws from.
pub struct EState {
    pub store: Map<Seq<u8>, Seq<u8>>,
    pub counter: nat,
}

/// The stamp encoded in a row key's last eight bytes.
pub open spec fn stamp_of(k: Seq<u8>) -> nat {
    crate::codec::dec_be(k.subrange(k.len() - 8, k.len() as int))
}

/// Every persisted row key's stamp lies below the counter, so a fresh
/// stamp never collides.
pub open spec fn stamps_below(m: Map<Seq<u8>, Seq<u8>>, c: nat) -> bool {
    forall|k: Seq<u8>|
        m.dom().contains(k) && has_prefix(k, data_tag_spec()) && k.len() >= 14 ==> stamp_of(k) < c
}

/// The column names of a schema, in physical order.
pub open spec fn col_names(cols: Seq<ColumnS>) -> Seq<Seq<char>> {
    cols.map(|i: int, c: ColumnS| c.name)
}

/// The store keys removed wholesale.
pub open spec fn remove_all(m: Map<Seq<u8>, Seq<u8>>, ks: Seq<Seq<u8>>) -> Map<Seq<u8>, Seq<u8>>
    decreases ks.len(),
{
    if ks.len() == 0 {
        m
    } else {
        remove_all(m.remove(ks[0]), ks.drop_first())
    }
}

/// What `DROP TABLE` does: a missing table is a no-op under `IF EXISTS`
/// and an error otherwise; a present table loses every row under its
/// prefix and its catalog entry.
pub open spec fn drop_spec(st: EState, table: Seq<char>, if_exists: bool) -> Result<
    (EState, nat),
    ErrKind,
> {
    if !st.store.dom().contains(catalog_key_spec(table)) {
        if if_exists {
            Ok((st, 0))
        } else {
            Err(ErrKind::Read)
        }
    } else {
        let scanned = scan_spec(st.store, data_prefix_spec(table));
        let keys = scanned.map(|i: int, kv: (Seq<u8>, Seq<u8>)| kv.0);
        let m1 = remove_all(st.store, keys).remove(catalog_key_spec(table));
        Ok((EState { store: m1, counter: st.counter }, scanned.len()))
    }
}

/// What `DESCRIBE` yields: the stored schema.
pub open spec fn describe_spec(m: Map<Seq<u8>, Seq<u8>>, name: Seq<char>) -> Result<
    (Seq<char>, Seq<ColumnS>),
    ErrKind,
> {
    match cat_get_spec(m, name) {
        CatalogLookup::Absent => Err(ErrKind::Read),
        CatalogLookup::Undecodable => Err(ErrKind::Serialization),
        CatalogLookup::Table(nm, cols) => Ok((nm, cols)),
    }
}

/// The rows a read-path scan yields: undecodable values and rows whose
/// arity disagrees with the schema are skipped.
pub open spec fn read_rows(entries: Seq<(Seq<u8>, Seq<u8>)>, ncols: nat) -> Seq<Seq<ValueS>>
    decreases entries.len(),
{
    if entries.len() == 0 {
        Seq::empty()
    } else {
        let rest = read_rows(entries.drop_first(), ncols);
        match dec_row(entries[0].1) {
            Some(r) => if r.len() == ncols {
                seq![r] + rest
            } else {
                rest
            },
            None => rest,
        }
    }
}

/// The rows a predicate retains; a row whose evaluation fails is simply
/// omitted on the read path.
pub open spec fn filter_rows_e(rows: Seq<Seq<ValueS>>, e: ExprS, cols: Seq<Seq<char>>) -> Seq<
    Seq<ValueS>,
>
    decreases rows.len(),
{
    if rows.len() == 0 {
        Seq::empty()
    } else {
        let rest = filter_rows_e(rows.drop_first(), e, cols);
        if eval_spec(e, cols, rows[0]) == crate::filter::EvalOut::Val(true) {
            seq![rows[0]] + rest
        } else {
            rest
        }
    }
}

pub open spec fn filter_rows(rows: Seq<Seq<ValueS>>, w: Option<ExprS>, cols: Seq<Seq<char>>) -> Seq<
    Seq<ValueS>,
> {
    match w {
        None => rows,
        Some(e) => filter_rows_e(rows, e, cols),
    }
}

/// One order key applied: an unknown column leaves the order untouched.
pub open spec fn sort_maybe(rows: Seq<Seq<ValueS>>, o: OrderS, cols: Seq<Seq<char>>) -> Seq<
    Seq<ValueS>,
> {
    match col_index(cols, o.column) {
        Some(i) => sort_rows_spec(rows, i, o.ascending),
        None => rows,
    }
}

/// The compound ordering: each key in reverse declaration order, stably,
/// so the leftmost key is most significant.
pub open spec fn apply_orders(rows: Seq<Seq<ValueS>>, orders: Seq<OrderS>, cols: Seq<Seq<char>>) -> Seq<
    Seq<ValueS>,
>
    decreases orders.len(),
{
    if orders.len() == 0 {
        rows
    } else {
        sort_maybe(apply_orders(rows, orders.drop_first(), cols), orders[0], cols)
    }
}

/// Truncation to the limit, if one is given.
pub open spec fn trunc_rows(rows: Seq<Seq<ValueS>>, limit: Option<usize>) -> Seq<Seq<ValueS>> {
    match limit {
        None => rows,
        Some(n) => if n < rows.len() {
            rows.take(n as int)
        } else {
            rows
        },
    }
}

/// The plan of one projected item: the column indices it selects and the
/// output names it produces.
pub open spec fn item_plan(item: SelectItemS, cols: Seq<ColumnS>) -> Option<
    (Seq<int>, Seq<Seq<char>>),
> {
    match item {
        SelectItemS::Wildcard => Some((Seq::new(cols.len(), |k: int| k), col_names(cols))),
        SelectItemS::Column { name, alias } => match col_index(col_names(cols), name) {
            Some(i) => Some(
                (
                    seq![i],
                    seq![
                        match alias {
                            Some(a) => a,
                            None => name,
                        },
                    ],
                ),
            ),
            None => None,
        },
    }
}

/// The full projection plan; an unknown column rejects the query.
pub open spec fn proj_plan(items: Seq<SelectItemS>, cols: Seq<ColumnS>) -> Option<
    (Seq<int>, Seq<Seq<char>>),
>
    decreases items.len(),
{
    if items.len() == 0 {
        Some((Seq::empty(), Seq::empty()))
    } else {
        match item_plan(items[0], cols) {
            None => None,
            Some((i0, n0)) => match proj_plan(items.drop_first(), cols) {
                Some((ir, nr)) => Some((i0 + ir, n0 + nr)),
                None => None,
            },
        }
    }
}

pub open spec fn project_row(r: Seq<ValueS>, idxs: Seq<int>) -> Seq<ValueS> {
    idxs.map(|j: int, ix: int| r[ix])
}

pub open spec fn project_rows(rows: Seq<Seq<ValueS>>, idxs: Seq<int>) -> Seq<Seq<ValueS>> {
    rows.map(|i: int, r: Seq<ValueS>| project_row(r, idxs))
}

/// What `SELECT` yields over a store: the output column names and the
/// projected rows after scan, decode, filter, compound order and limit.
/// An absent table, an empty or unresolvable projection, is rejected;
/// the store itself is left untouched.
pub open spec fn select_spec(
    m: Map<Seq<u8>, Seq<u8>>,
    table: Seq<char>,
    proj: Seq<SelectItemS>,
    w: Option<ExprS>,
    orders: Option<Seq<OrderS>>,
    limit: Option<usize>,
) -> Result<(Seq<Seq<char>>, Seq<Seq<ValueS>>), ErrKind> {
    match cat_get_spec(m, table) {
        CatalogLookup::Absent => Err(ErrKind::Read),
        CatalogLookup::Undecodable => Err(ErrKind::Serialization),
        CatalogLookup::Table(nm, cols) => {
            if proj.len() == 0 {
                Err(ErrKind::Read)
            } else {
                match proj_plan(proj, cols) {
                    None => Err(ErrKind::Read),
                    Some((idxs, names)) => {
                        let entries = scan_spec(m, data_prefix_spec(table));
                        let rows0 = read_rows(entries, cols.len());
                        let rows1 = filter_rows(rows0, w, col_names(cols));
                        let rows2 = apply_orders(
                            rows1,
                            match orders {
                                Some(o) => o,
                                None => Seq::empty(),
                            },
                            col_names(cols),
                        );
                        let rows3 = trunc_rows(rows2, limit);
                        Ok((names, project_rows(rows3, idxs)))
                    },
                }
            }
        },
    }
}

/// Whether a name list holds the same name twice.
pub open spec fn has_dup(cs: Seq<Seq<char>>) -> bool {
    exists|i: int, j: int| 0 <= i < j < cs.len() && cs[i] == cs[j]
}

/// The destination column index of each inserted cell: the schema order
/// itself without an explicit list, otherwise the resolved list, which
/// must be duplicate-free and known.
pub open spec fn insert_plan(cols_opt: Option<Seq<Seq<char>>>, cols: Seq<ColumnS>) -> Option<
    Seq<int>,
> {
    match cols_opt {
        None => Some(Seq::new(cols.len(), |k: int| k)),
        Some(cs) => if has_dup(cs) {
            None
        } else if exists|j: int| 0 <= j < cs.len() && col_index(col_names(cols), #[trigger] cs[j]) is None {
            None
        } else {
            Some(Seq::new(cs.len(), |j: int| col_index(col_names(cols), cs[j]).unwrap()))
        },
    }
}

/// The position in the destination list that feeds column `k`, if any.
pub open spec fn dest_pos(dests: Seq<int>, k: int) -> Option<int>
    decreases dests.len(),
{
    if dests.len() == 0 {
        None
    } else if dests[0] == k {
        Some(0)
    } else {
        match dest_pos(dests.drop_first(), k) {
            Some(j) => Some(j + 1),
            None => None,
        }
    }
}

/// What lands in column `k`: the coerced source cell, or null for an
/// unmentioned column.
pub open spec fn build_cell(
    row: Seq<ValueS>,
    dests: Seq<int>,
    cols: Seq<ColumnS>,
    k: int,
) -> Option<ValueS> {
    match dest_pos(dests, k) {
        Some(j) => coerce_spec(cols[k].data_type, row[j]),
        None => Some(ValueS::Null),
    }
}

pub open spec fn row_builds(row: Seq<ValueS>, dests: Seq<int>, cols: Seq<ColumnS>) -> bool {
    forall|k: int| 0 <= k < cols.len() ==> (#[trigger] build_cell(row, dests, cols, k)) is Some
}

pub open spec fn built_row(row: Seq<ValueS>, dests: Seq<int>, cols: Seq<ColumnS>) -> Seq<ValueS> {
    Seq::new(cols.len(), |k: int| build_cell(row, dests, cols, k).unwrap())
}

/// Every inserted row, prepared.
pub open spec fn built_rows(vals: Seq<Seq<ValueS>>, dests: Seq<int>, cols: Seq<ColumnS>) -> Seq<
    Seq<ValueS>,
> {
    vals.map(|i: int, r: Seq<ValueS>| built_row(r, dests, cols))
}

/// The first `n` source rows build, and the prepared vectors match.
pub open spec fn prefix_built(
    vals: Seq<Seq<ValueS>>,
    built: Seq<Vec<Value>>,
    dests: Seq<int>,
    cols: Seq<ColumnS>,
    n: int,
) -> bool {
    forall|i3: int|
        0 <= i3 < n ==> row_builds(vals[i3], dests, cols) && crate::value::row_view(
            (#[trigger] built[i3])@,
        ) == built_row(vals[i3], dests, cols)
}

/// The store after writing the prepared rows at consecutive stamps.
pub open spec fn insert_rows_store(
    m: Map<Seq<u8>, Seq<u8>>,
    table: Seq<char>,
    c: nat,
    rows: Seq<Seq<ValueS>>,
) -> Map<Seq<u8>, Seq<u8>>
    decreases rows.len(),
{
    if rows.len() == 0 {
        m
    } else {
        insert_rows_store(
            m.insert(row_key_spec(table, c as u64), enc_row(rows[0])),
            table,
            c + 1,
            rows.drop_first(),
        )
    }
}

/// What `INSERT` does: the table must exist; an explicit column list
/// must be duplicate-free and known; every row list must have the plan's
/// arity; every cell must coerce; unmentioned columns take null. The
/// prepared rows are written at fresh consecutive stamps. Any rejection
/// writes nothing.
pub open spec fn insert_spec(
    st: EState,
    table: Seq<char>,
    cols_opt: Option<Seq<Seq<char>>>,
    values: Seq<Seq<ValueS>>,
) -> Result<(EState, nat), ErrKind> {
    match cat_get_spec(st.store, table) {
        CatalogLookup::Absent => Err(ErrKind::Read),
        CatalogLookup::Undecodable => Err(ErrKind::Serialization),
        CatalogLookup::Table(nm, cols) => match insert_plan(cols_opt, cols) {
            None => Err(ErrKind::Write),
            Some(dests) => if exists|i: int|
                0 <= i < values.len() && (#[trigger] values[i]).len() != dests.len() {
                Err(ErrKind::Write)
            } else if exists|i: int|
                0 <= i < values.len() && !row_builds(#[trigger] values[i], dests, cols) {
                Err(ErrKind::Write)
            } else if st.counter + values.len() >= 0x1_0000_0000_0000_0000 {
                Err(ErrKind::Write)
            } else {
                Ok(
                    (
                        EState {
                            store: insert_rows_store(
                                st.store,
                                table,
                                st.counter,
                                built_rows(values, dests, cols),
                            ),
                            counter: st.counter + values.len(),
                        },
                        values.len(),
                    ),
                )
            },
        },
    }
}

/// The keys a `DELETE` predicate collects, in one pass over the scan:
/// a value that does not decode, or a row the predicate fails on,
/// aborts the whole collection.
pub open spec fn del_collect(
    entries: Seq<(Seq<u8>, Seq<u8>)>,
    e: ExprS,
    cols: Seq<Seq<char>>,
) -> Option<Seq<Seq<u8>>>
    decreases entries.len(),
{
    if entries.len() == 0 {
        Some(Seq::empty())
    } else {
        match dec_row(entries[0].1) {
            None => None,
            Some(r) => match eval_spec(e, cols, r) {
                crate::filter::EvalOut::Val(true) => match del_collect(
                    entries.drop_first(),
                    e,
                    cols,
                ) {
                    Some(rest) => Some(seq![entries[0].0] + rest),
                    None => None,
                },
                crate::filter::EvalOut::Val(false) => del_collect(entries.drop_first(), e, cols),
                _ => None,
            },
        }
    }
}

/// What `DELETE` does: with a predicate, collect-then-apply — any decode
/// or evaluation failure aborts with nothing deleted; without one, every
/// row under the prefix goes.
pub open spec fn delete_spec(st: EState, table: Seq<char>, w: Option<ExprS>) -> Result<
    (EState, nat),
    ErrKind,
> {
    match cat_get_spec(st.store, table) {
        CatalogLookup::Absent => Err(ErrKind::Read),
        CatalogLookup::Undecodable => Err(ErrKind::Serialization),
        CatalogLookup::Table(nm, cols) => {
            let entries = scan_spec(st.store, data_prefix_spec(table));
            match w {
                None => {
                    let keys = entries.map(|i: int, kv: (Seq<u8>, Seq<u8>)| kv.0);
                    Ok(
                        (
                            EState {
                                store: remove_all(st.store, keys),
                                counter: st.counter,
                            },
                            entries.len(),
                        ),
                    )
                },
                Some(e) => match del_collect(entries, e, col_names(cols)) {
                    None => Err(ErrKind::Read),
                    Some(ks) => Ok(
                        (
                            EState {
                                store: remove_all(st.store, ks),
                                counter: st.counter,
                            },
                            ks.len(),
                        ),
                    ),
                },
            }
        },
    }
}

/// The assignments resolved against the schema: duplicate or unknown
/// columns are rejected, and each value is coerced to its column's
/// declared type.
pub open spec fn assigns_resolved(
    assigns: Seq<(Seq<char>, ValueS)>,
    cols: Seq<ColumnS>,
) -> Option<Seq<(int, ValueS)>>
    decreases assigns.len(),
{
    if has_dup(assigns.map(|i: int, a: (Seq<char>, ValueS)| a.0)) {
        None
    } else {
        assigns_resolved_rec(assigns, cols)
    }
}

pub open spec fn assigns_resolved_rec(
    assigns: Seq<(Seq<char>, ValueS)>,
    cols: Seq<ColumnS>,
) -> Option<Seq<(int, ValueS)>>
    decreases assigns.len(),
{
    if assigns.len() == 0 {
        Some(Seq::empty())
    } else {
        match col_index(col_names(cols), assigns[0].0) {
            None => None,
            Some(i) => match coerce_spec(cols[i].data_type, assigns[0].1) {
                None => None,
                Some(cv) => match assigns_resolved_rec(assigns.drop_first(), cols) {
                    Some(rest) => Some(seq![(i, cv)] + rest),
                    None => None,
                },
            },
        }
    }
}

/// A row with the resolved assignments applied at their indices.
pub open spec fn apply_assigns(row: Seq<ValueS>, ras: Seq<(int, ValueS)>) -> Seq<ValueS>
    decreases ras.len(),
{
    if ras.len() == 0 {
        row
    } else {
        apply_assigns(row.update(ras[0].0, ras[0].1), ras.drop_first())
    }
}

/// Whether a row is selected for update: an absent predicate selects
/// every row.
pub open spec fn hit_spec(
    w: Option<ExprS>,
    cols: Seq<Seq<char>>,
    r: Seq<ValueS>,
) -> crate::filter::EvalOut {
    match w {
        None => crate::filter::EvalOut::Val(true),
        Some(e) => eval_spec(e, cols, r),
    }
}

/// The batched changes of an update, in one pass over the scan: a value
/// that does not decode, a row whose arity disagrees with the schema, or
/// a predicate failure aborts everything.
pub open spec fn upd_collect(
    entries: Seq<(Seq<u8>, Seq<u8>)>,
    w: Option<ExprS>,
    cols: Seq<Seq<char>>,
    ras: Seq<(int, ValueS)>,
    ncols: nat,
) -> Option<Seq<(Seq<u8>, Seq<u8>)>>
    decreases entries.len(),
{
    if entries.len() == 0 {
        Some(Seq::empty())
    } else {
        match dec_row(entries[0].1) {
            None => None,
            Some(r) => if r.len() != ncols {
                None
            } else {
                match hit_spec(w, cols, r) {
                    crate::filter::EvalOut::Val(true) => match upd_collect(
                        entries.drop_first(),
                        w,
                        cols,
                        ras,
                        ncols,
                    ) {
                        Some(rest) => Some(
                            seq![(entries[0].0, enc_row(apply_assigns(r, ras)))] + rest,
                        ),
                        None => None,
                    },
                    crate::filter::EvalOut::Val(false) => upd_collect(
                        entries.drop_first(),
                        w,
                        cols,
                        ras,
                        ncols,
                    ),
                    _ => None,
                }
            },
        }
    }
}

/// What `UPDATE` does: validate the assignments, coerce once, scan, and
/// apply every change as one batch; any failure before the batch writes
/// nothing.
pub open spec fn update_spec(
    st: EState,
    table: Seq<char>,
    assigns: Seq<(Seq<char>, ValueS)>,
    w: Option<ExprS>,
) -> Result<(EState, nat), ErrKind> {
    match cat_get_spec(st.store, table) {
        CatalogLookup::Absent => Err(ErrKind::Read),
        CatalogLookup::Undecodable => Err(ErrKind::Serialization),
        CatalogLookup::Table(nm, cols) => match assigns_resolved(assigns, cols) {
            None => Err(ErrKind::Write),
            Some(ras) => {
                let entries = scan_spec(st.store, data_prefix_spec(table));
                match upd_collect(entries, w, col_names(cols), ras, cols.len()) {
                    None => Err(ErrKind::Read),
                    Some(chs) => Ok(
                        (
                            EState {
                                store: crate::storage::insert_all(st.store, chs),
                                counter: st.counter,
                            },
                            chs.len(),
                        ),
                    ),
                }
            },
        },
    }
}

/// What `CREATE TABLE` does.
pub open spec fn create_spec(st: EState, name: Seq<char>, cols: Seq<ColumnS>) -> Result<
    EState,
    ErrKind,
> {
    match cat_create_spec(st.store, name, cols) {
        Ok(m) => Ok(EState { store: m, counter: st.counter }),
        Err(k) => Err(k),
    }
}

/// Whether a statement mutates the store.
pub open spec fn is_mutation(s: StatementS) -> bool {
    match s {
        StatementS::CreateTable { .. } => true,
        StatementS::DropTable { .. } => true,
        StatementS::Insert { .. } => true,
        StatementS::Update { .. } => true,
        StatementS::Delete { .. } => true,
        StatementS::ShowTables => false,
        StatementS::DescribeTable { .. } => false,
        StatementS::Select { .. } => false,
    }
}

/// The executor: owns the store handle, the key counter, and the result
/// cache.
pub struct Executor {
    pub storage: StorageEngine,
    pub counter: u64,
    pub cache: ResultCache,
    pub cache_enabled: bool,
}

impl Executor {
    /// The model of the persistent state.
    pub open spec fn st(self) -> EState {
        EState { store: self.storage@, counter: self.counter as nat }
    }

    /// One memoized entry agrees with what its query computes over the
    /// current store.
    pub open spec fn entry_ok(m: Map<Seq<u8>, Seq<u8>>, e: CacheEntryS) -> bool {
        select_spec(m, e.table, e.projection, e.where_clause, e.order_by, e.limit) == Ok::<
            (Seq<Seq<char>>, Seq<Seq<ValueS>>),
            ErrKind,
        >((e.columns, e.rows))
    }

    /// Well-formedness: a finite store, fresh stamps above every stored
    /// one, and a cache that agrees with the store.
    pub open spec fn wf(self) -> bool {
        &&& self.storage@.dom().finite()
        &&& stamps_below(self.storage@, self.counter as nat)
        &&& forall|i: int|
            0 <= i < self.cache@.len() ==> Self::entry_ok(self.storage@, #[trigger] self.cache@[i])
    }

    /// An executor over a fresh in-memory store; the stamp counter
    /// starts at zero.
    pub fn new_memory() -> (r: Result<Executor, StorageError>)
        ensures
            r matches Ok(e) ==> e.wf() && e.st().store == crate::storage::empty_store()
                && e.counter == 0 && e.cache@ == Seq::<CacheEntryS>::empty(),
    {
        let storage = StorageEngine::memory()?;
        let e = Executor { storage, counter: 0, cache: ResultCache::new(), cache_enabled: false };
        Ok(e)
    }

    /// An executor over an opened store; the counter starts above every
    /// stamp already persisted.
    pub fn new(storage: StorageEngine) -> (r: Result<Executor, StorageError>)
        requires
            storage@.dom().finite(),
        ensures
            r matches Ok(e) ==> e.wf() && e.st().store == storage@ && e.cache@ == Seq::<
                CacheEntryS,
            >::empty(),
    {
        let mut tag: Vec<u8> = Vec::new();
        tag.extend_from_slice("data:".as_bytes());
        proof {
            assert(tag@ =~= data_tag_spec());
        }
        let entries = storage.scan_prefix(&tag)?;
        let ghost sv = crate::storage::pairs_view(entries@);
        let mut max: u64 = 0;
        let mut saturated: bool = false;
        let n = entries.len();
        let mut i: usize = 0;
        while i < n
            invariant
                0 <= i <= n,
                n == entries@.len(),
                sv == crate::storage::pairs_view(entries@),
                forall|j: int|
                    0 <= j < i && (#[trigger] sv[j]).0.len() >= 14 ==> (!saturated ==> stamp_of(
                        sv[j].0,
                    ) < max),
            decreases n - i,
        {
            proof {
                assert(sv[i as int].0 == entries@[i as int].0@);
            }
            let k = &entries[i].0;
            if k.len() >= 14 {
                let s = crate::codec::read_be_u64(k, k.len() - 8);
                proof {
                    assert(k@.subrange(k@.len() - 8, k@.len() as int) == sv[i as int].0.subrange(
                        sv[i as int].0.len() - 8,
                        sv[i as int].0.len() as int,
                    ));
                    crate::codec::lemma_pow256_8();
                    crate::codec::lemma_dec_be_bound(
                        sv[i as int].0.subrange(
                            sv[i as int].0.len() - 8,
                            sv[i as int].0.len() as int,
                        ),
                    );
                }
                if s == u64::MAX {
                    saturated = true;
                } else if s >= max {
                    max = s + 1;
                }
            }
            i = i + 1;
        }
        if saturated {
            return Err(StorageError::OpenError(String::new()));
        }
        let counter: u64 = max;
        proof {
            assert forall|k: Seq<u8>|
                storage@.dom().contains(k) && has_prefix(k, data_tag_spec()) && k.len()
                    >= 14 implies stamp_of(k) < counter as nat by {
                let j = choose|j: int| 0 <= j < sv.len() && (#[trigger] sv[j].0) == k;
                assert(stamp_of(sv[j].0) < max);
            }
        }
        let e = Executor {
            storage,
            counter,
            cache: ResultCache::new(),
            cache_enabled: false,
        };
        Ok(e)
    }

    /// Turns the in-memory result cache on.
    pub fn with_cache(self) -> (r: Executor)
        ensures
            r.storage@ == self.storage@,
            r.counter == self.counter,
            r.cache@ == self.cache@,
            r.wf() == self.wf(),
    {
        Executor {
            storage: self.storage,
            counter: self.counter,
            cache: self.cache,
            cache_enabled: true,
        }
    }

    /// A one-line account of the cache: how many results it holds.
    pub fn get_cache_stats(&self) -> (r: Result<String, StorageError>)
        ensures
            r is Ok,
    {
        let mut out: Vec<char> = Vec::new();
        out.push('e');
        out.push('n');
        out.push('t');
        out.push('r');
        out.push('i');
        out.push('e');
        out.push('s');
        out.push(':');
        out.push(' ');
        let n = self.cache.entries.len();
        crate::text::push_digits(n as u64, &mut out);
        Ok(crate::text::string_from_chars(&out))
    }

    /// Forgets every memoized result.
    pub fn clear_cache(&mut self) -> (r: Result<(), StorageError>)
        ensures
            final(self).storage@ == old(self).storage@,
            final(self).counter == old(self).counter,
            final(self).cache@ == Seq::<CacheEntryS>::empty(),
            old(self).wf() ==> final(self).wf(),
            r is Ok,
    {
        self.cache.clear_all();
        Ok(())
    }
}

/// Removing keys keeps the domain finite and never grows it.
pub proof fn lemma_remove_all_facts(m: Map<Seq<u8>, Seq<u8>>, ks: Seq<Seq<u8>>)
    ensures
        remove_all(m, ks).dom() <= m.dom(),
        m.dom().finite() ==> remove_all(m, ks).dom().finite(),
    decreases ks.len(),
{
    if ks.len() > 0 {
        lemma_remove_all_facts(m.remove(ks[0]), ks.drop_first());
        assert(m.remove(ks[0]).dom() <= m.dom());
    }
}

/// Removing the listed keys one after another from the end.
pub proof fn lemma_remove_all_snoc(m: Map<Seq<u8>, Seq<u8>>, ks: Seq<Seq<u8>>, k: Seq<u8>)
    ensures
        remove_all(m, ks.push(k)) == remove_all(m, ks).remove(k),
    decreases ks.len(),
{
    if ks.len() == 0 {
        assert(ks.push(k)[0] == k);
        assert(ks.push(k).drop_first() =~= Seq::<Seq<u8>>::empty());
        assert(remove_all(m, ks.push(k)) == remove_all(m.remove(k), Seq::empty()));
    } else {
        assert(ks.push(k)[0] == ks[0]);
        assert(ks.push(k).drop_first() =~= ks.drop_first().push(k));
        lemma_remove_all_snoc(m.remove(ks[0]), ks.drop_first(), k);
    }
}

/// Writing entries keeps the domain finite; every new key is an entry's.
pub proof fn lemma_insert_all_facts(m: Map<Seq<u8>, Seq<u8>>, es: Seq<(Seq<u8>, Seq<u8>)>)
    ensures
        forall|k: Seq<u8>|
            crate::storage::insert_all(m, es).dom().contains(k) ==> m.dom().contains(k) || exists|
                i: int,
            | 0 <= i < es.len() && (#[trigger] es[i]).0 == k,
        m.dom().finite() ==> crate::storage::insert_all(m, es).dom().finite(),
    decreases es.len(),
{
    if es.len() > 0 {
        lemma_insert_all_facts(m.insert(es[0].0, es[0].1), es.drop_first());
        assert forall|k: Seq<u8>|
            crate::storage::insert_all(m, es).dom().contains(k) implies m.dom().contains(k)
            || exists|i: int| 0 <= i < es.len() && (#[trigger] es[i]).0 == k by {
            if !m.dom().contains(k) {
                if k == es[0].0 {
                    assert(es[0].0 == k);
                } else {
                    assert(m.insert(es[0].0, es[0].1).dom().contains(k) ==> k == es[0].0
                        || m.dom().contains(k));
                    let i = choose|i: int|
                        0 <= i < es.drop_first().len() && (#[trigger] es.drop_first()[i]).0 == k;
                    assert(es[i + 1].0 == k);
                }
            }
        }
    }
}

impl Executor {
    /// Runs `CREATE TABLE`, exactly as `create_spec` describes; every
    /// mutating statement first forgets the memoized results.
    pub fn exec_create(&mut self, name: String, columns: Vec<Column>) -> (r: Result<
        ExecutionResult,
        StorageError,
    >)
        requires
            old(self).wf(),
        ensures
            final(self).wf(),
            final(self).cache@ == Seq::<CacheEntryS>::empty(),
            final(self).counter == old(self).counter,
            r matches Ok(res) ==> create_spec(old(self).st(), name@, cols_view(columns@))
                == Ok::<EState, ErrKind>(final(self).st()) && (res matches
            ExecutionResult::Created { table } && table@ == name@),
            create_spec(old(self).st(), name@, cols_view(columns@)) is Err ==> r is Err
                && final(self).st() == old(self).st(),
            r is Err ==> final(self).storage@ == old(self).storage@ || create_spec(
                old(self).st(),
                name@,
                cols_view(columns@),
            ) == Ok::<EState, ErrKind>(final(self).st()),
    {
        self.cache.clear_all();
        let ghost m0 = self.storage@;
        match cat_create(&mut self.storage, name.as_str(), &columns) {
            Ok(()) => {
                proof {
                    assert(self.storage@ == m0.insert(
                        catalog_key_spec(name@),
                        crate::catalog::enc_schema_spec(name@, cols_view(columns@)),
                    ));
                    crate::keys::lemma_catalog_key_not_tag(name@);
                    assert(stamps_below(self.storage@, self.counter as nat));
                }
                Ok(ExecutionResult::Created { table: name })
            },
            Err(e) => {
                proof {
                    crate::keys::lemma_catalog_key_not_tag(name@);
                }
                Err(e)
            },
        }
    }

    /// Runs `DROP TABLE`, exactly as `drop_spec` describes.
    pub fn exec_drop(&mut self, name: String, if_exists: bool) -> (r: Result<
        ExecutionResult,
        StorageError,
    >)
        requires
            old(self).wf(),
        ensures
            final(self).wf(),
            final(self).cache@ == Seq::<CacheEntryS>::empty(),
            final(self).counter == old(self).counter,
            r matches Ok(res) ==> drop_spec(old(self).st(), name@, if_exists) matches Ok(p)
                && final(self).st() == p.0 && (res matches ExecutionResult::Deleted {
                table,
                rows,
            } && table@ == name@ && rows as nat == p.1),
            drop_spec(old(self).st(), name@, if_exists) is Err ==> r is Err
                && final(self).st() == old(self).st(),
    {
        self.cache.clear_all();
        let ghost m0 = self.storage@;
        let key = crate::keys::catalog_key(name.as_str());
        let got = self.storage.get(&key)?;
        if got.is_none() {
            if if_exists {
                return Ok(ExecutionResult::Deleted { table: name, rows: 0 });
            }
            return Err(StorageError::ReadError(name));
        }
        let prefix = data_prefix(name.as_str());
        let entries = self.storage.scan_prefix(&prefix)?;
        proof {
            crate::storage::lemma_scan_is_spec(
                m0,
                data_prefix_spec(name@),
                crate::storage::pairs_view(entries@),
            );
        }
        let ghost sv = crate::storage::pairs_view(entries@);
        let ghost keys = sv.map(|i: int, kv: (Seq<u8>, Seq<u8>)| kv.0);
        let n = entries.len();
        let mut i: usize = 0;
        proof {
            assert(keys.take(0) =~= Seq::<Seq<u8>>::empty());
        }
        while i < n
            invariant
                0 <= i <= n,
                n == entries@.len(),
                sv == crate::storage::pairs_view(entries@),
                keys == sv.map(|k: int, kv: (Seq<u8>, Seq<u8>)| kv.0),
                self.storage@ == remove_all(m0, keys.take(i as int)),
                self.cache@ == Seq::<CacheEntryS>::empty(),
                self.counter == old(self).counter,
                m0 == old(self).storage@,
                m0.dom().finite(),
                m0.dom().contains(catalog_key_spec(name@)),
                stamps_below(m0, self.counter as nat),
            decreases n - i,
        {
            proof {
                assert(keys[i as int] == sv[i as int].0);
                assert(sv[i as int].0 == entries@[i as int].0@);
                lemma_remove_all_facts(m0, keys.take(i as int));
            }
            let res = self.storage.delete(&entries[i].0);
            proof {
                assert(keys.take(i + 1) =~= keys.take(i as int).push(keys[i as int]));
                lemma_remove_all_snoc(m0, keys.take(i as int), keys[i as int]);
            }
            match res {
                Ok(()) => {},
                Err(e) => {
                    proof {
                        lemma_remove_all_facts(m0, keys.take(i as int));
                        lemma_remove_all_facts(m0, keys.take(i + 1));
                        assert(stamps_below(self.storage@, self.counter as nat));
                    }
                    return Err(e);
                },
            }
            i = i + 1;
        }
        proof {
            assert(keys.take(n as int) =~= keys);
            lemma_remove_all_facts(m0, keys);
        }
        let res = self.storage.delete(&key);
        proof {
            lemma_remove_all_facts(m0, keys);
            assert(stamps_below(self.storage@, self.counter as nat));
        }
        match res {
            Ok(()) => {},
            Err(e) => {
                return Err(e);
            },
        }
        Ok(ExecutionResult::Deleted { table: name, rows: n })
    }

    /// Runs `SHOW TABLES`: the catalog listing, with the store untouched.
    pub fn exec_show(&self) -> (r: Result<ExecutionResult, StorageError>)
        requires
            self.wf(),
        ensures
            r matches Ok(res) ==> res matches ExecutionResult::TableList { tables }
                && strings_view(tables@) == cat_list_spec(self.storage@),
    {
        let tables = cat_list(&self.storage)?;
        Ok(ExecutionResult::TableList { tables })
    }

    /// Runs `DESCRIBE`, exactly as `describe_spec` describes.
    pub fn exec_describe(&self, name: String) -> (r: Result<ExecutionResult, StorageError>)
        requires
            self.wf(),
        ensures
            r matches Ok(res) ==> describe_spec(self.storage@, name@) matches Ok(p)
                && (res matches ExecutionResult::TableDescription { table, columns } && table@
                == p.0 && cols_view(columns@) == p.1),
            describe_spec(self.storage@, name@) matches Err(k) ==> r is Err,
    {
        match cat_get(&self.storage, name.as_str())? {
            None => Err(StorageError::ReadError(name)),
            Some(schema) => Ok(
                ExecutionResult::TableDescription {
                    table: schema.name,
                    columns: schema.columns,
                },
            ),
        }
    }
}


/// The view of a destination-index vector.
pub open spec fn idxs_view(s: Seq<usize>) -> Seq<int> {
    s.map(|i: int, d: usize| d as int)
}

/// The view of a vector of byte keys.
pub open spec fn keys_view(s: Seq<Vec<u8>>) -> Seq<Seq<u8>> {
    s.map(|i: int, k: Vec<u8>| k@)
}

/// A row key lies in the data region, is long enough, and carries its
/// stamp in its last eight bytes.
pub proof fn lemma_row_key_stamp(table: Seq<char>, s: u64)
    ensures
        stamp_of(row_key_spec(table, s)) == s,
        has_prefix(row_key_spec(table, s), data_tag_spec()),
        row_key_spec(table, s).len() >= 14,
        has_prefix(row_key_spec(table, s), data_prefix_spec(table)),
{
    let k = row_key_spec(table, s);
    let p = data_prefix_spec(table);
    crate::codec::lemma_be_bytes_len(s as nat, 8);
    assert(p.len() >= 6) by {
        vstd::utf8::encode_utf8_valid_utf8("data:"@);
        reveal_strlit("data:");
        assert(vstd::utf8::is_ascii_chars("data:"@));
        vstd::utf8::is_ascii_chars_encode_utf8("data:"@);
        assert(data_tag_spec().len() == 5);
        vstd::utf8::encode_utf8_valid_utf8(":"@);
        reveal_strlit(":");
        assert(vstd::utf8::is_ascii_chars(":"@));
        vstd::utf8::is_ascii_chars_encode_utf8(":"@);
        assert(vstd::utf8::encode_utf8(":"@).len() == 1);
    }
    assert(k.subrange(k.len() - 8, k.len() as int) =~= crate::codec::be_bytes(s as nat, 8));
    crate::codec::lemma_pow256_8();
    crate::codec::lemma_be_roundtrip(s as nat, 8);
    assert(k.subrange(0, p.len() as int) =~= p);
    crate::keys::lemma_data_prefix_tag(table, k);
}

/// Writing one more prepared row extends the store on the right.
pub proof fn lemma_insert_rows_snoc(
    m: Map<Seq<u8>, Seq<u8>>,
    table: Seq<char>,
    c: nat,
    rows: Seq<Seq<ValueS>>,
    r: Seq<ValueS>,
)
    requires
        c + rows.len() < 0x1_0000_0000_0000_0000,
    ensures
        insert_rows_store(m, table, c, rows.push(r)) == insert_rows_store(
            m,
            table,
            c,
            rows,
        ).insert(row_key_spec(table, (c + rows.len()) as u64), enc_row(r)),
    decreases rows.len(),
{
    if rows.len() == 0 {
        assert(rows.push(r).len() == 1);
        assert(rows.push(r)[0] == r);
        assert(rows.push(r).drop_first() =~= Seq::<Seq<ValueS>>::empty());
        assert(insert_rows_store(m, table, c, rows.push(r)) == insert_rows_store(
            m.insert(row_key_spec(table, c as u64), enc_row(r)),
            table,
            c + 1,
            Seq::<Seq<ValueS>>::empty(),
        ));
        assert(insert_rows_store(m, table, c, rows) == m);
        assert((c + rows.len()) as u64 == c as u64);
    } else {
        assert(rows.push(r)[0] == rows[0]);
        assert(rows.push(r).drop_first() =~= rows.drop_first().push(r));
        let m1 = m.insert(row_key_spec(table, c as u64), enc_row(rows[0]));
        lemma_insert_rows_snoc(m1, table, c + 1, rows.drop_first(), r);
        assert(insert_rows_store(m, table, c, rows.push(r)) == insert_rows_store(
            m1,
            table,
            c + 1,
            rows.drop_first().push(r),
        ));
        assert(insert_rows_store(m, table, c, rows) == insert_rows_store(
            m1,
            table,
            c + 1,
            rows.drop_first(),
        ));
        assert(c + 1 + rows.drop_first().len() == c + rows.len());
    }
}

/// The keys a bulk write adds lie in the data region with stamps in the
/// written range; the domain stays finite.
pub proof fn lemma_insert_rows_dom(
    m: Map<Seq<u8>, Seq<u8>>,
    table: Seq<char>,
    c: nat,
    rows: Seq<Seq<ValueS>>,
)
    requires
        c + rows.len() < 0x1_0000_0000_0000_0000,
    ensures
        forall|k: Seq<u8>|
            insert_rows_store(m, table, c, rows).dom().contains(k) ==> m.dom().contains(k) || (
            has_prefix(k, data_tag_spec()) && k.len() >= 14 && c <= stamp_of(k) < c + rows.len()),
        m.dom().finite() ==> insert_rows_store(m, table, c, rows).dom().finite(),
    decreases rows.len(),
{
    if rows.len() > 0 {
        let key0 = row_key_spec(table, c as u64);
        let m1 = m.insert(key0, enc_row(rows[0]));
        lemma_insert_rows_dom(m1, table, c + 1, rows.drop_first());
        lemma_row_key_stamp(table, c as u64);
        assert forall|k: Seq<u8>|
            insert_rows_store(m, table, c, rows).dom().contains(k) implies m.dom().contains(k)
            || (has_prefix(k, data_tag_spec()) && k.len() >= 14 && c <= stamp_of(k) < c
            + rows.len()) by {
            if !m.dom().contains(k) {
                assert(insert_rows_store(m, table, c, rows) == insert_rows_store(
                    m1,
                    table,
                    c + 1,
                    rows.drop_first(),
                ));
                assert(m1.dom().contains(k) || (has_prefix(k, data_tag_spec()) && k.len() >= 14
                    && c + 1 <= stamp_of(k) < c + 1 + rows.drop_first().len()));
                if m1.dom().contains(k) {
                    assert(k == key0);
                    assert(stamp_of(k) == c);
                }
            }
        }
    }
}

/// First position in the destination list that feeds column `k`.
proof fn lemma_dest_pos_at(dests: Seq<int>, j: int)
    requires
        0 <= j < dests.len(),
        forall|j2: int| 0 <= j2 < j ==> dests[j2] != dests[j],
    ensures
        dest_pos(dests, dests[j]) == Some(j),
    decreases dests.len(),
{
    if j > 0 {
        assert forall|j2: int| 0 <= j2 < j - 1 implies #[trigger] dests.drop_first()[j2]
            != dests.drop_first()[j - 1] by {
            assert(dests.drop_first()[j2] == dests[j2 + 1]);
            assert(dests.drop_first()[j - 1] == dests[j]);
        }
        assert(dests.drop_first()[j - 1] == dests[j]);
        lemma_dest_pos_at(dests.drop_first(), j - 1);
    }
}

proof fn lemma_dest_pos_none(dests: Seq<int>, k: int)
    requires
        forall|j: int| 0 <= j < dests.len() ==> dests[j] != k,
    ensures
        dest_pos(dests, k) is None,
    decreases dests.len(),
{
    if dests.len() > 0 {
        assert forall|j: int| 0 <= j < dests.len() - 1 implies #[trigger] dests.drop_first()[j]
            != k by {
            assert(dests.drop_first()[j] == dests[j + 1]);
        }
        lemma_dest_pos_none(dests.drop_first(), k);
    }
}

/// Looks a column name up in a schema's columns, as `col_index` over the
/// schema's name vector describes.
pub fn find_col_in(columns: &Vec<Column>, name: &String) -> (r: Option<usize>)
    ensures
        match r {
            Some(i) => col_index(col_names(cols_view(columns@)), name@) == Some(i as int) && i
                < columns@.len(),
            None => col_index(col_names(cols_view(columns@)), name@) is None,
        },
{
    let ghost names = col_names(cols_view(columns@));
    let n = columns.len();
    let mut i: usize = 0;
    while i < n
        invariant
            0 <= i <= n,
            n == columns@.len(),
            names == col_names(cols_view(columns@)),
            forall|j: int| 0 <= j < i ==> names[j] != name@,
        decreases n - i,
    {
        proof {
            assert(names[i as int] == cols_view(columns@)[i as int].name);
            assert(cols_view(columns@)[i as int] == columns@[i as int]@);
        }
        if columns[i].name == *name {
            proof {
                crate::filter::lemma_col_index_some(names, name@, i as int);
            }
            return Some(i);
        }
        i = i + 1;
    }
    proof {
        crate::filter::lemma_col_index_none(names, name@);
    }
    None
}


impl Executor {
    /// Runs `INSERT`, exactly as `insert_spec` describes: a rejected
    /// insert writes nothing, an accepted one writes every prepared row
    /// at a fresh stamp.
    #[verifier::rlimit(80)]
    pub fn exec_insert(
        &mut self,
        table: String,
        columns: Option<Vec<String>>,
        values: Vec<Vec<Value>>,
    ) -> (r: Result<ExecutionResult, StorageError>)
        requires
            old(self).wf(),
            forall|i: int|
                0 <= i < values@.len() ==> row_wf(#[trigger] rows_view(values@)[i]),
        ensures
            final(self).wf(),
            final(self).cache@ == Seq::<CacheEntryS>::empty(),
            r matches Ok(res) ==> insert_spec(
                old(self).st(),
                table@,
                match columns {
                    Some(cs) => Some(strings_view(cs@)),
                    None => None,
                },
                rows_view(values@),
            ) matches Ok(p) && final(self).st() == p.0 && (res matches ExecutionResult::Inserted {
                table: t,
                rows,
            } && t@ == table@ && rows as nat == p.1),
            insert_spec(
                old(self).st(),
                table@,
                match columns {
                    Some(cs) => Some(strings_view(cs@)),
                    None => None,
                },
                rows_view(values@),
            ) is Err ==> r is Err && final(self).st() == old(self).st(),
    {
        self.cache.clear_all();
        let ghost m0 = self.storage@;
        let ghost c0 = self.counter as nat;
        let ghost colsopt: Option<Seq<Seq<char>>> = match &columns {
            Some(cs) => Some(strings_view(cs@)),
            None => None,
        };
        let ghost valsv = rows_view(values@);
        let schema = match cat_get(&self.storage, table.as_str()) {
            Ok(Some(s)) => s,
            Ok(None) => {
                return Err(StorageError::ReadError(table));
            },
            Err(e) => {
                return Err(e);
            },
        };
        let ghost colsv = cols_view(schema.columns@);
        let ncols = schema.columns.len();
        // resolve the destination index of each supplied cell
        let mut dests: Vec<usize> = Vec::new();
        match &columns {
            None => {
                let mut k: usize = 0;
                while k < ncols
                    invariant
                        0 <= k <= ncols,
                        dests@.len() == k,
                        forall|j: int| 0 <= j < k ==> (#[trigger] dests@[j]) == j,
                    decreases ncols - k,
                {
                    dests.push(k);
                    k = k + 1;
                }
                proof {
                    assert(insert_plan(colsopt, colsv) matches Some(d) && d =~= idxs_view(
                        dests@,
                    ));
                }
            },
            Some(cs) => {
                let ghost csv = strings_view(cs@);
                let nc = cs.len();
                let mut j: usize = 0;
                while j < nc
                    invariant
                        0 <= j <= nc,
                        nc == cs@.len(),
                        csv == strings_view(cs@),
                        colsopt == Some(csv),
                        self.storage@ == m0,
                        m0 == old(self).storage@,
                        self.counter == old(self).counter,
                        self.cache@ == Seq::<CacheEntryS>::empty(),
                        m0.dom().finite(),
                        stamps_below(m0, old(self).counter as nat),
                        cat_get_spec(m0, table@) == CatalogLookup::Table(schema.name@, colsv),
                        colsv == cols_view(schema.columns@),
                        dests@.len() == j,
                        forall|j2: int|
                            0 <= j2 < j ==> col_index(col_names(colsv), #[trigger] csv[j2])
                                == Some(dests@[j2] as int),
                        forall|j2: int, j3: int| 0 <= j2 < j3 < j ==> csv[j2] != csv[j3],
                    decreases nc - j,
                {
                    proof {
                        assert(csv[j as int] == cs@[j as int]@);
                    }
                    // a duplicate name rejects the statement
                    let mut j2: usize = 0;
                    while j2 < j
                        invariant
                            0 <= j2 <= j < nc,
                            nc == cs@.len(),
                            csv == strings_view(cs@),
                            colsopt == Some(csv),
                            self.storage@ == m0,
                            m0 == old(self).storage@,
                            self.counter == old(self).counter,
                            self.cache@ == Seq::<CacheEntryS>::empty(),
                            m0.dom().finite(),
                            stamps_below(m0, old(self).counter as nat),
                            cat_get_spec(m0, table@) == CatalogLookup::Table(
                                schema.name@,
                                colsv,
                            ),
                            forall|j3: int| 0 <= j3 < j2 ==> csv[j3] != csv[j as int],
                        decreases j - j2,
                    {
                        proof {
                            assert(csv[j2 as int] == cs@[j2 as int]@);
                            assert(csv[j as int] == cs@[j as int]@);
                        }
                        if cs[j2] == cs[j] {
                            proof {
                                assert(has_dup(csv));
                            }
                            return Err(StorageError::WriteError(table));
                        }
                        j2 = j2 + 1;
                    }
                    match find_col_in(&schema.columns, &cs[j]) {
                        None => {
                            proof {
                                assert(col_index(col_names(colsv), csv[j as int]) is None);
                                assert(insert_plan(colsopt, colsv) is None);
                            }
                            return Err(StorageError::WriteError(table));
                        },
                        Some(ix) => {
                            dests.push(ix);
                        },
                    }
                    j = j + 1;
                }
                proof {
                    assert(!has_dup(csv));
                    assert(forall|j2: int|
                        0 <= j2 < csv.len() ==> col_index(
                            col_names(colsv),
                            #[trigger] csv[j2],
                        ) is Some);
                    match insert_plan(colsopt, colsv) {
                        Some(d) => {
                            assert(d =~= idxs_view(dests@));
                        },
                        None => {
                            assert(false);
                        },
                    }
                }
            },
        }
        let ghost destsv = idxs_view(dests@);
        proof {
            assert(insert_plan(colsopt, colsv) == Some(destsv));
            assert forall|j2: int| 0 <= j2 < destsv.len() implies 0 <= #[trigger] destsv[j2]
                < ncols by {
                match colsopt {
                    None => {},
                    Some(csv2) => {
                        crate::filter::lemma_col_index_bounds(col_names(colsv), csv2[j2]);
                    },
                }
            }
            assert forall|j2: int, j3: int| 0 <= j2 < j3 < destsv.len() implies destsv[j2]
                != destsv[j3] by {
                match colsopt {
                    None => {},
                    Some(csv2) => {
                        crate::filter::lemma_col_index_bounds(col_names(colsv), csv2[j2]);
                        crate::filter::lemma_col_index_bounds(col_names(colsv), csv2[j3]);
                        if destsv[j2] == destsv[j3] {
                            assert(csv2[j2] == col_names(colsv)[destsv[j2]]);
                            assert(csv2[j3] == col_names(colsv)[destsv[j3]]);
                            assert(has_dup(csv2));
                        }
                    },
                }
            }
        }
        let arity = dests.len();
        // every row list must match the plan's arity
        let nrows = values.len();
        let mut i: usize = 0;
        while i < nrows
            invariant
                0 <= i <= nrows,
                nrows == values@.len(),
                valsv == rows_view(values@),
                destsv == idxs_view(dests@),
                arity == dests@.len(),
                colsopt == (match columns {
                    Some(cs) => Some(strings_view(cs@)),
                    None => None::<Seq<Seq<char>>>,
                }),
                self.storage@ == m0,
                m0 == old(self).storage@,
                self.counter == old(self).counter,
                self.cache@ == Seq::<CacheEntryS>::empty(),
                m0.dom().finite(),
                stamps_below(m0, old(self).counter as nat),
                cat_get_spec(m0, table@) == CatalogLookup::Table(schema.name@, colsv),
                insert_plan(colsopt, colsv) == Some(destsv),
                forall|i2: int| 0 <= i2 < i ==> (#[trigger] valsv[i2]).len() == destsv.len(),
            decreases nrows - i,
        {
            proof {
                assert(valsv[i as int] == crate::value::row_view(values@[i as int]@));
            }
            if values[i].len() != arity {
                return Err(StorageError::WriteError(table));
            }
            i = i + 1;
        }
        // coerce every cell, filling unmentioned columns with null
        let mut built: Vec<Vec<Value>> = Vec::new();
        let mut i2: usize = 0;
        while i2 < nrows
            invariant
                0 <= i2 <= nrows,
                nrows == values@.len(),
                valsv == rows_view(values@),
                destsv == idxs_view(dests@),
                arity == dests@.len(),
                ncols == schema.columns@.len(),
                colsv == cols_view(schema.columns@),
                colsopt == (match columns {
                    Some(cs) => Some(strings_view(cs@)),
                    None => None::<Seq<Seq<char>>>,
                }),
                self.storage@ == m0,
                m0 == old(self).storage@,
                self.counter == old(self).counter,
                self.cache@ == Seq::<CacheEntryS>::empty(),
                m0.dom().finite(),
                stamps_below(m0, old(self).counter as nat),
                cat_get_spec(m0, table@) == CatalogLookup::Table(schema.name@, colsv),
                insert_plan(colsopt, colsv) == Some(destsv),
                forall|i3: int| 0 <= i3 < nrows ==> (#[trigger] valsv[i3]).len() == destsv.len(),
                forall|i3: int| 0 <= i3 < nrows ==> row_wf(#[trigger] valsv[i3]),
                forall|j2: int, j3: int| 0 <= j2 < j3 < destsv.len() ==> destsv[j2] != destsv[j3],
                forall|j2: int| 0 <= j2 < destsv.len() ==> 0 <= #[trigger] destsv[j2] < ncols,
                built@.len() == i2,
                prefix_built(valsv, built@, destsv, colsv, i2 as int),
            decreases nrows - i2,
        {
            proof {
                assert(valsv[i2 as int] == crate::value::row_view(values@[i2 as int]@));
            }
            let mut cells: Vec<Value> = Vec::new();
            let mut k: usize = 0;
            while k < ncols
                invariant
                    0 <= k <= ncols,
                    0 <= i2 < nrows,
                    nrows == values@.len(),
                    valsv == rows_view(values@),
                    valsv[i2 as int] == crate::value::row_view(values@[i2 as int]@),
                    destsv == idxs_view(dests@),
                    arity == dests@.len(),
                    ncols == schema.columns@.len(),
                    colsv == cols_view(schema.columns@),
                    colsopt == (match columns {
                        Some(cs) => Some(strings_view(cs@)),
                        None => None::<Seq<Seq<char>>>,
                    }),
                    self.storage@ == m0,
                    m0 == old(self).storage@,
                    self.counter == old(self).counter,
                    self.cache@ == Seq::<CacheEntryS>::empty(),
                    m0.dom().finite(),
                    stamps_below(m0, old(self).counter as nat),
                    cat_get_spec(m0, table@) == CatalogLookup::Table(schema.name@, colsv),
                    insert_plan(colsopt, colsv) == Some(destsv),
                    forall|i3: int|
                        0 <= i3 < nrows ==> (#[trigger] valsv[i3]).len() == destsv.len(),
                    forall|i3: int| 0 <= i3 < nrows ==> row_wf(#[trigger] valsv[i3]),
                    forall|j2: int, j3: int|
                        0 <= j2 < j3 < destsv.len() ==> destsv[j2] != destsv[j3],
                    forall|j2: int| 0 <= j2 < destsv.len() ==> 0 <= #[trigger] destsv[j2] < ncols,
                    built@.len() == i2,
                    prefix_built(valsv, built@, destsv, colsv, i2 as int),
                    cells@.len() == k,
                    forall|k2: int|
                        0 <= k2 < k ==> (#[trigger] build_cell(
                            valsv[i2 as int],
                            destsv,
                            colsv,
                            k2,
                        )) is Some && cells@[k2]@ == build_cell(
                            valsv[i2 as int],
                            destsv,
                            colsv,
                            k2,
                        ).unwrap(),
                decreases ncols - k,
            {
                // find which supplied cell feeds this column, if any
                let mut j: usize = 0;
                let mut src: Option<usize> = None;
                while j < arity
                    invariant
                        0 <= j <= arity,
                        arity == dests@.len(),
                        destsv == idxs_view(dests@),
                        src is None ==> forall|j2: int|
                            0 <= j2 < j ==> (#[trigger] destsv[j2]) != k as int,
                        src matches Some(jj) ==> jj < j <= destsv.len() && destsv[jj as int]
                            == k as int && (forall|j2: int|
                            0 <= j2 < jj ==> (#[trigger] destsv[j2]) != k as int),
                    decreases arity - j,
                {
                    proof {
                        assert(destsv[j as int] == dests@[j as int] as int);
                    }
                    if src.is_none() && dests[j] == k {
                        src = Some(j);
                    }
                    j = j + 1;
                }
                match src {
                    None => {
                        proof {
                            lemma_dest_pos_none(destsv, k as int);
                        }
                        cells.push(Value::Null);
                    },
                    Some(jj) => {
                        proof {
                            lemma_dest_pos_at(destsv, jj as int);
                            assert(valsv[i2 as int][jj as int] == values@[i2 as int]@[jj as int]@);
                            assert(valsv[i2 as int][jj as int].wf());
                            assert(colsv[k as int] == schema.columns@[k as int]@);
                        }
                        match crate::coerce::coerce_value(
                            schema.columns[k].data_type,
                            &values[i2][jj],
                        ) {
                            None => {
                                proof {
                                    assert(build_cell(
                                        valsv[i2 as int],
                                        destsv,
                                        colsv,
                                        k as int,
                                    ) is None);
                                    assert(!row_builds(valsv[i2 as int], destsv, colsv));
                                }
                                return Err(StorageError::WriteError(table));
                            },
                            Some(cv) => {
                                cells.push(cv);
                            },
                        }
                    },
                }
                k = k + 1;
            }
            proof {
                assert(colsv.len() == ncols);
                assert(row_builds(valsv[i2 as int], destsv, colsv));
                assert forall|k2: int|
                    0 <= k2 < ncols implies crate::value::row_view(cells@)[k2] == built_row(
                    valsv[i2 as int],
                    destsv,
                    colsv,
                )[k2] by {
                    assert(crate::value::row_view(cells@)[k2] == cells@[k2]@);
                }
                assert(crate::value::row_view(cells@) =~= built_row(
                    valsv[i2 as int],
                    destsv,
                    colsv,
                ));
            }
            let ghost cellsv = cells@;
            let ghost builtpre = built@;
            built.push(cells);
            proof {
                assert(built@ == builtpre.push(built@[i2 as int]));
                assert(built@[i2 as int]@ == cellsv);
                assert forall|i3: int|
                    0 <= i3 < i2 + 1 implies row_builds(valsv[i3], destsv, colsv)
                    && crate::value::row_view((#[trigger] built@[i3])@) == built_row(
                    valsv[i3],
                    destsv,
                    colsv,
                ) by {
                    if i3 < i2 {
                        assert(built@[i3] == builtpre[i3]);
                        assert(crate::value::row_view((builtpre[i3])@) == built_row(
                            valsv[i3],
                            destsv,
                            colsv,
                        ));
                    } else {
                        assert(crate::value::row_view(built@[i2 as int]@) == built_row(
                            valsv[i2 as int],
                            destsv,
                            colsv,
                        ));
                    }
                }
                assert(prefix_built(valsv, built@, destsv, colsv, i2 + 1));
            }
            i2 = i2 + 1;
        }
        // fresh stamps for every row
        if (nrows as u64) > u64::MAX - self.counter {
            return Err(StorageError::WriteError(table));
        }
        let ghost builtv = built_rows(valsv, destsv, colsv);
        proof {
            assert(prefix_built(valsv, built@, destsv, colsv, nrows as int));
            assert forall|i3: int| 0 <= i3 < valsv.len() implies row_builds(
                #[trigger] valsv[i3],
                destsv,
                colsv,
            ) by {
                assert(crate::value::row_view((built@[i3])@) == built_row(
                    valsv[i3],
                    destsv,
                    colsv,
                ));
            }
            assert(builtv.len() == nrows);
            assert forall|i3: int| 0 <= i3 < nrows implies crate::value::row_view(
                (#[trigger] built@[i3])@,
            ) == builtv[i3] by {
                assert(builtv[i3] == built_row(valsv[i3], destsv, colsv));
            }
            assert(c0 + valsv.len() < 0x1_0000_0000_0000_0000);
        }
        let prefix = data_prefix(table.as_str());
        let start = self.counter;
        self.counter = self.counter + (nrows as u64);
        let mut w: usize = 0;
        proof {
            assert(builtv.take(0) =~= Seq::<Seq<ValueS>>::empty());
        }
        while w < nrows
            invariant
                0 <= w <= nrows,
                nrows == values@.len(),
                nrows == built@.len(),
                valsv == rows_view(values@),
                builtv.len() == nrows,
                prefix_built(valsv, built@, destsv, colsv, nrows as int),
                builtv == built_rows(valsv, destsv, colsv),
                destsv == idxs_view(dests@),
                m0 == old(self).storage@,
                c0 == old(self).counter as nat,
                c0 + nrows < 0x1_0000_0000_0000_0000,
                start == old(self).counter,
                self.counter as nat == c0 + nrows,
                self.cache@ == Seq::<CacheEntryS>::empty(),
                prefix@ == data_prefix_spec(table@),
                m0.dom().finite(),
                stamps_below(m0, c0),
                colsopt == (match columns {
                    Some(cs) => Some(strings_view(cs@)),
                    None => None::<Seq<Seq<char>>>,
                }),
                cat_get_spec(m0, table@) == CatalogLookup::Table(schema.name@, colsv),
                insert_plan(colsopt, colsv) == Some(destsv),
                builtv == built_rows(valsv, destsv, colsv),
                forall|i3: int|
                    0 <= i3 < valsv.len() ==> (#[trigger] valsv[i3]).len() == destsv.len(),
                forall|i3: int|
                    0 <= i3 < valsv.len() ==> row_builds(#[trigger] valsv[i3], destsv, colsv),
                self.storage@ == insert_rows_store(m0, table@, c0, builtv.take(w as int)),
            decreases nrows - w,
        {
            let key = row_key(&prefix, start + (w as u64));
            let bytes = encode_row(&built[w]);
            proof {
                assert(key@ =~= row_key_spec(table@, (start + w as u64) as u64));
                assert(crate::value::row_view((built@[w as int])@) == built_row(
                    valsv[w as int],
                    destsv,
                    colsv,
                ));
                assert(builtv[w as int] == built_row(valsv[w as int], destsv, colsv));
            }
            let res = self.storage.set(&key, &bytes);
            proof {
                assert(builtv.take(w + 1) =~= builtv.take(w as int).push(builtv[w as int]));
                lemma_insert_rows_snoc(m0, table@, c0, builtv.take(w as int), builtv[w as int]);
                assert((c0 + builtv.take(w as int).len()) as u64 == (start + w as u64) as u64);
            }
            match res {
                Ok(()) => {},
                Err(e) => {
                    proof {
                        lemma_insert_rows_dom(m0, table@, c0, builtv.take(w as int));
                        lemma_insert_rows_dom(m0, table@, c0, builtv.take(w + 1));
                        assert(stamps_below(self.storage@, self.counter as nat));
                    }
                    return Err(e);
                },
            }
            w = w + 1;
        }
        proof {
            assert(builtv.take(nrows as int) =~= builtv);
            lemma_insert_rows_dom(m0, table@, c0, builtv);
            assert(stamps_below(self.storage@, self.counter as nat));
            assert(!(exists|i3: int|
                0 <= i3 < valsv.len() && (#[trigger] valsv[i3]).len() != destsv.len()));
            assert(!(exists|i3: int|
                0 <= i3 < valsv.len() && !row_builds(#[trigger] valsv[i3], destsv, colsv)));
            match insert_spec(old(self).st(), table@, colsopt, valsv) {
                Ok(p) => {
                    assert(self.st() == p.0);
                },
                Err(k) => {
                    assert(false);
                },
            }
        }
        Ok(ExecutionResult::Inserted { table, rows: nrows })
    }
}


/// Copies a byte key.
pub fn clone_bytes(v: &Vec<u8>) -> (r: Vec<u8>)
    ensures
        r@ == v@,
{
    let mut out: Vec<u8> = Vec::new();
    out.extend_from_slice(v.as_slice());
    proof {
        assert(out@ =~= v@);
    }
    out
}

/// Builds the column-name vector of a schema.
pub fn schema_names(columns: &Vec<Column>) -> (r: Vec<String>)
    ensures
        strings_view(r@) == col_names(cols_view(columns@)),
{
    let mut out: Vec<String> = Vec::new();
    let n = columns.len();
    let mut i: usize = 0;
    while i < n
        invariant
            0 <= i <= n,
            n == columns@.len(),
            out@.len() == i,
            forall|j: int| 0 <= j < i ==> (#[trigger] out@[j])@ == columns@[j].name@,
        decreases n - i,
    {
        out.push(crate::filter::clone_string(&columns[i].name));
        i = i + 1;
    }
    proof {
        assert forall|j: int| 0 <= j < n implies strings_view(out@)[j] == col_names(
            cols_view(columns@),
        )[j] by {
            assert(strings_view(out@)[j] == out@[j]@);
            assert(col_names(cols_view(columns@))[j] == cols_view(columns@)[j].name);
            assert(cols_view(columns@)[j] == columns@[j]@);
        }
        assert(strings_view(out@) =~= col_names(cols_view(columns@)));
    }
    out
}

impl Executor {
    /// Runs `DELETE`, exactly as `delete_spec` describes: with a
    /// predicate it is two-phase — any decode or evaluation failure
    /// aborts before a single removal.
    pub fn exec_delete(&mut self, table: String, where_clause: Option<Expr>) -> (r: Result<
        ExecutionResult,
        StorageError,
    >)
        requires
            old(self).wf(),
            where_clause matches Some(e) ==> expr_wf(e@),
        ensures
            final(self).wf(),
            final(self).cache@ == Seq::<CacheEntryS>::empty(),
            final(self).counter == old(self).counter,
            r matches Ok(res) ==> delete_spec(
                old(self).st(),
                table@,
                opt_expr_view(where_clause),
            ) matches Ok(p) && final(self).st() == p.0 && (res matches ExecutionResult::Deleted {
                table: t,
                rows,
            } && t@ == table@ && rows as nat == p.1),
            delete_spec(old(self).st(), table@, opt_expr_view(where_clause)) is Err ==> r is Err
                && final(self).st() == old(self).st(),
    {
        self.cache.clear_all();
        let ghost m0 = self.storage@;
        let ghost wv = opt_expr_view(where_clause);
        let schema = match cat_get(&self.storage, table.as_str()) {
            Ok(Some(s)) => s,
            Ok(None) => {
                return Err(StorageError::ReadError(table));
            },
            Err(e) => {
                return Err(e);
            },
        };
        let ghost colsv = cols_view(schema.columns@);
        let prefix = data_prefix(table.as_str());
        let entries = self.storage.scan_prefix(&prefix)?;
        proof {
            crate::storage::lemma_scan_is_spec(
                m0,
                data_prefix_spec(table@),
                crate::storage::pairs_view(entries@),
            );
        }
        let ghost sv = crate::storage::pairs_view(entries@);
        let n = entries.len();
        // phase one: gather the keys to remove
        let mut keys: Vec<Vec<u8>> = Vec::new();
        match &where_clause {
            None => {
                let mut i: usize = 0;
                while i < n
                    invariant
                        0 <= i <= n,
                        n == entries@.len(),
                        sv == crate::storage::pairs_view(entries@),
                        keys@.len() == i,
                        forall|j: int| 0 <= j < i ==> (#[trigger] keys@[j])@ == sv[j].0,
                    decreases n - i,
                {
                    proof {
                        assert(sv[i as int].0 == entries@[i as int].0@);
                    }
                    keys.push(clone_bytes(&entries[i].0));
                    i = i + 1;
                }
                proof {
                    let specks = sv.map(|j: int, kv: (Seq<u8>, Seq<u8>)| kv.0);
                    assert forall|j: int| 0 <= j < n implies keys_view(keys@)[j] == specks[j] by {
                        assert(keys_view(keys@)[j] == keys@[j]@);
                    }
                    assert(keys_view(keys@) =~= specks);
                }
            },
            Some(expr) => {
                let names = schema_names(&schema.columns);
                let evaluator = ExpressionEvaluator::new(names);
                let mut i: usize = 0;
                proof {
                    assert(sv.skip(0) =~= sv);
                    match del_collect(sv, expr@, col_names(colsv)) {
                        Some(ks) => {
                            assert(keys_view(keys@) + ks =~= ks);
                        },
                        None => {},
                    }
                }
                while i < n
                    invariant
                        0 <= i <= n,
                        n == entries@.len(),
                        sv == crate::storage::pairs_view(entries@),
                        self.storage@ == m0,
                        m0 == old(self).storage@,
                        self.counter == old(self).counter,
                        self.cache@ == Seq::<CacheEntryS>::empty(),
                        m0.dom().finite(),
                        stamps_below(m0, old(self).counter as nat),
                        wv == opt_expr_view(where_clause),
                        wv == Some(expr@),
                        expr_wf(expr@),
                        cat_get_spec(m0, table@) == CatalogLookup::Table(schema.name@, colsv),
                        evaluator.cols() == col_names(colsv),
                        del_collect(sv, expr@, col_names(colsv)) == (match del_collect(
                            sv.skip(i as int),
                            expr@,
                            col_names(colsv),
                        ) {
                            Some(ks) => Some(keys_view(keys@) + ks),
                            None => None::<Seq<Seq<u8>>>,
                        }),
                    decreases n - i,
                {
                    proof {
                        assert(sv.skip(i as int)[0] == sv[i as int]);
                        assert(sv[i as int].0 == entries@[i as int].0@);
                        assert(sv[i as int].1 == entries@[i as int].1@);
                        assert(sv.skip(i as int).drop_first() =~= sv.skip(i as int + 1));
                    }
                    let row = match decode_row(&entries[i].1) {
                        Some(rw) => rw,
                        None => {
                            return Err(StorageError::ReadError(table));
                        },
                    };
                    let hit = match evaluator.evaluate(expr, &row) {
                        Ok(b) => b,
                        Err(_) => {
                            return Err(StorageError::ReadError(table));
                        },
                    };
                    if hit {
                        let ghost before = keys@;
                        keys.push(clone_bytes(&entries[i].0));
                        proof {
                            assert(keys_view(keys@) =~= keys_view(before) + seq![sv[i as int].0]);
                            match del_collect(sv.skip(i as int + 1), expr@, col_names(colsv)) {
                                Some(ks) => {
                                    assert((keys_view(before) + seq![sv[i as int].0]) + ks
                                        =~= keys_view(before) + (seq![sv[i as int].0] + ks));
                                },
                                None => {},
                            }
                        }
                    }
                    i = i + 1;
                }
                proof {
                    assert(sv.skip(n as int) =~= Seq::<(Seq<u8>, Seq<u8>)>::empty());
                    assert(keys_view(keys@) + Seq::<Seq<u8>>::empty() =~= keys_view(keys@));
                }
            },
        }
        let ghost ksv = keys_view(keys@);
        // phase two: remove every collected key
        let nk = keys.len();
        let mut d: usize = 0;
        proof {
            assert(ksv.take(0) =~= Seq::<Seq<u8>>::empty());
        }
        while d < nk
            invariant
                0 <= d <= nk,
                nk == keys@.len(),
                ksv == keys_view(keys@),
                m0 == old(self).storage@,
                self.counter == old(self).counter,
                self.cache@ == Seq::<CacheEntryS>::empty(),
                m0.dom().finite(),
                stamps_below(m0, old(self).counter as nat),
                cat_get_spec(m0, table@) == CatalogLookup::Table(
                    schema.name@,
                    cols_view(schema.columns@),
                ),
                delete_spec(old(self).st(), table@, wv) matches Ok(p) && p.0.store == remove_all(
                    m0,
                    ksv,
                ) && p.0.counter == old(self).counter as nat && p.1 == nk,
                wv == opt_expr_view(where_clause),
                self.storage@ == remove_all(m0, ksv.take(d as int)),
            decreases nk - d,
        {
            proof {
                assert(ksv[d as int] == keys@[d as int]@);
                lemma_remove_all_facts(m0, ksv.take(d as int));
            }
            let res = self.storage.delete(&keys[d]);
            proof {
                assert(ksv.take(d + 1) =~= ksv.take(d as int).push(ksv[d as int]));
                lemma_remove_all_snoc(m0, ksv.take(d as int), ksv[d as int]);
            }
            match res {
                Ok(()) => {},
                Err(e) => {
                    proof {
                        lemma_remove_all_facts(m0, ksv.take(d as int));
                        lemma_remove_all_facts(m0, ksv.take(d + 1));
                        assert(stamps_below(self.storage@, self.counter as nat));
                    }
                    return Err(e);
                },
            }
            d = d + 1;
        }
        proof {
            assert(ksv.take(nk as int) =~= ksv);
            lemma_remove_all_facts(m0, ksv);
            assert(stamps_below(self.storage@, self.counter as nat));
        }
        Ok(ExecutionResult::Deleted { table, rows: nk })
    }
}


impl Executor {
    /// Runs `UPDATE`, exactly as `update_spec` describes: assignments
    /// validate and coerce before the scan, every change applies as one
    /// batch, and any failure before the batch writes nothing.
    #[verifier::rlimit(60)]
    pub fn exec_update(
        &mut self,
        table: String,
        assignments: Vec<(String, Value)>,
        where_clause: Option<Expr>,
    ) -> (r: Result<ExecutionResult, StorageError>)
        requires
            old(self).wf(),
            where_clause matches Some(e) ==> expr_wf(e@),
            forall|i: int|
                0 <= i < assignments@.len() ==> (#[trigger] crate::stmt::assigns_view(
                    assignments@,
                )[i]).1.wf(),
        ensures
            final(self).wf(),
            final(self).cache@ == Seq::<CacheEntryS>::empty(),
            final(self).counter == old(self).counter,
            r matches Ok(res) ==> update_spec(
                old(self).st(),
                table@,
                crate::stmt::assigns_view(assignments@),
                opt_expr_view(where_clause),
            ) matches Ok(p) && final(self).st() == p.0 && (res matches ExecutionResult::Updated {
                table: t,
                rows,
            } && t@ == table@ && rows as nat == p.1),
            update_spec(
                old(self).st(),
                table@,
                crate::stmt::assigns_view(assignments@),
                opt_expr_view(where_clause),
            ) is Err ==> r is Err && final(self).st() == old(self).st(),
    {
        self.cache.clear_all();
        let ghost m0 = self.storage@;
        let ghost wv = opt_expr_view(where_clause);
        let ghost asv = crate::stmt::assigns_view(assignments@);
        let schema = match cat_get(&self.storage, table.as_str()) {
            Ok(Some(s)) => s,
            Ok(None) => {
                return Err(StorageError::ReadError(table));
            },
            Err(e) => {
                return Err(e);
            },
        };
        let ghost colsv = cols_view(schema.columns@);
        let ncols = schema.columns.len();
        // resolve and coerce the assignments
        let na = assignments.len();
        let mut ras: Vec<(usize, Value)> = Vec::new();
        let mut j: usize = 0;
        proof {
            match assigns_resolved_rec(asv, colsv) {
                Some(rs) => {
                    assert(ras_view(ras@) + rs =~= rs);
                },
                None => {},
            }
            assert(asv.skip(0) =~= asv);
        }
        while j < na
            invariant
                0 <= j <= na,
                na == assignments@.len(),
                asv == crate::stmt::assigns_view(assignments@),
                colsv == cols_view(schema.columns@),
                ncols == schema.columns@.len(),
                self.storage@ == m0,
                m0 == old(self).storage@,
                self.counter == old(self).counter,
                self.cache@ == Seq::<CacheEntryS>::empty(),
                m0.dom().finite(),
                stamps_below(m0, old(self).counter as nat),
                wv == opt_expr_view(where_clause),
                cat_get_spec(m0, table@) == CatalogLookup::Table(schema.name@, colsv),
                forall|i: int| 0 <= i < na ==> (#[trigger] asv[i]).1.wf(),
                ras@.len() == j,
                assigns_resolved_rec(asv, colsv) == (match assigns_resolved_rec(
                    asv.skip(j as int),
                    colsv,
                ) {
                    Some(rs) => Some(ras_view(ras@) + rs),
                    None => None::<Seq<(int, ValueS)>>,
                }),
                forall|j2: int, j3: int|
                    0 <= j2 < j3 < j ==> (#[trigger] asv[j2]).0 != (#[trigger] asv[j3]).0,
                forall|j2: int|
                    0 <= j2 < j ==> 0 <= (#[trigger] ras_view(ras@)[j2]).0 < ncols
                        && ras_view(ras@)[j2].1.wf(),
            decreases na - j,
        {
            proof {
                assert(asv[j as int] == (assignments@[j as int].0@, assignments@[j as int].1@));
                assert(asv.skip(j as int)[0] == asv[j as int]);
                assert(asv.skip(j as int).drop_first() =~= asv.skip(j as int + 1));
            }
            // a duplicate column rejects the statement
            let mut j2: usize = 0;
            while j2 < j
                invariant
                    0 <= j2 <= j < na,
                    na == assignments@.len(),
                    asv == crate::stmt::assigns_view(assignments@),
                    self.storage@ == m0,
                    m0 == old(self).storage@,
                    self.counter == old(self).counter,
                    self.cache@ == Seq::<CacheEntryS>::empty(),
                    m0.dom().finite(),
                    stamps_below(m0, old(self).counter as nat),
                    cat_get_spec(m0, table@) == CatalogLookup::Table(schema.name@, colsv),
                    wv == opt_expr_view(where_clause),
                    forall|j3: int| 0 <= j3 < j2 ==> (#[trigger] asv[j3]).0 != asv[j as int].0,
                decreases j - j2,
            {
                proof {
                    assert(asv[j2 as int] == (
                        assignments@[j2 as int].0@,
                        assignments@[j2 as int].1@,
                    ));
                }
                if assignments[j2].0 == assignments[j].0 {
                    proof {
                        let names = asv.map(|i: int, a: (Seq<char>, ValueS)| a.0);
                        assert(names[j2 as int] == asv[j2 as int].0);
                        assert(names[j as int] == asv[j as int].0);
                        assert(has_dup(names));
                    }
                    return Err(StorageError::WriteError(table));
                }
                j2 = j2 + 1;
            }
            let ix = match find_col_in(&schema.columns, &assignments[j].0) {
                Some(ix) => ix,
                None => {
                    return Err(StorageError::WriteError(table));
                },
            };
            proof {
                assert(colsv[ix as int] == schema.columns@[ix as int]@);
            }
            let cv = match crate::coerce::coerce_value(
                schema.columns[ix].data_type,
                &assignments[j].1,
            ) {
                Some(cv) => cv,
                None => {
                    return Err(StorageError::WriteError(table));
                },
            };
            let ghost before = ras@;
            let ghost cvv = cv@;
            ras.push((ix, cv));
            proof {
                assert(ras_view(ras@) =~= ras_view(before) + seq![(ix as int, cvv)]);
                match assigns_resolved_rec(asv.skip(j as int + 1), colsv) {
                    Some(rs) => {
                        assert((ras_view(before) + seq![(ix as int, cvv)]) + rs =~= ras_view(
                            before,
                        ) + (seq![(ix as int, cvv)] + rs));
                    },
                    None => {},
                }
            }
            j = j + 1;
        }
        proof {
            assert(asv.skip(na as int) =~= Seq::<(Seq<char>, ValueS)>::empty());
            assert(ras_view(ras@) + Seq::<(int, ValueS)>::empty() =~= ras_view(ras@));
            let names = asv.map(|i: int, a: (Seq<char>, ValueS)| a.0);
            assert forall|j2: int, j3: int| 0 <= j2 < j3 < names.len() implies names[j2]
                != names[j3] by {
                assert(names[j2] == (#[trigger] asv[j2]).0);
                assert(names[j3] == (#[trigger] asv[j3]).0);
            }
            assert(!has_dup(names));
            assert(assigns_resolved(asv, colsv) == Some(ras_view(ras@)));
        }
        let ghost rasv = ras_view(ras@);
        // scan and collect the batched changes
        let prefix = data_prefix(table.as_str());
        let entries = self.storage.scan_prefix(&prefix)?;
        proof {
            crate::storage::lemma_scan_is_spec(
                m0,
                data_prefix_spec(table@),
                crate::storage::pairs_view(entries@),
            );
        }
        let ghost sv = crate::storage::pairs_view(entries@);
        let names = schema_names(&schema.columns);
        let evaluator = ExpressionEvaluator::new(names);
        let n = entries.len();
        let mut changes: Vec<(Vec<u8>, Vec<u8>)> = Vec::new();
        let mut i: usize = 0;
        proof {
            assert(sv.skip(0) =~= sv);
            match upd_collect(sv, wv, col_names(colsv), rasv, ncols as nat) {
                Some(chs) => {
                    assert(crate::storage::pairs_view(changes@) + chs =~= chs);
                },
                None => {},
            }
        }
        while i < n
            invariant
                0 <= i <= n,
                n == entries@.len(),
                sv == crate::storage::pairs_view(entries@),
                self.storage@ == m0,
                m0 == old(self).storage@,
                self.counter == old(self).counter,
                self.cache@ == Seq::<CacheEntryS>::empty(),
                m0.dom().finite(),
                stamps_below(m0, old(self).counter as nat),
                wv == opt_expr_view(where_clause),
                where_clause matches Some(e) ==> expr_wf(e@),
                asv == crate::stmt::assigns_view(assignments@),
                cat_get_spec(m0, table@) == CatalogLookup::Table(schema.name@, colsv),
                assigns_resolved(asv, colsv) == Some(rasv),
                rasv == ras_view(ras@),
                ncols == schema.columns@.len(),
                colsv == cols_view(schema.columns@),
                evaluator.cols() == col_names(colsv),
                forall|j2: int|
                    0 <= j2 < rasv.len() ==> 0 <= (#[trigger] rasv[j2]).0 < ncols
                        && rasv[j2].1.wf(),
                upd_collect(sv, wv, col_names(colsv), rasv, ncols as nat) == (match upd_collect(
                    sv.skip(i as int),
                    wv,
                    col_names(colsv),
                    rasv,
                    ncols as nat,
                ) {
                    Some(chs) => Some(crate::storage::pairs_view(changes@) + chs),
                    None => None::<Seq<(Seq<u8>, Seq<u8>)>>,
                }),
            decreases n - i,
        {
            proof {
                assert(sv.skip(i as int)[0] == sv[i as int]);
                assert(sv[i as int].0 == entries@[i as int].0@);
                assert(sv[i as int].1 == entries@[i as int].1@);
                assert(sv.skip(i as int).drop_first() =~= sv.skip(i as int + 1));
            }
            let row = match decode_row(&entries[i].1) {
                Some(rw) => rw,
                None => {
                    return Err(StorageError::ReadError(table));
                },
            };
            if row.len() != ncols {
                return Err(StorageError::ReadError(table));
            }
            let hit = match &where_clause {
                None => true,
                Some(expr) => match evaluator.evaluate(expr, &row) {
                    Ok(b) => b,
                    Err(_) => {
                        return Err(StorageError::ReadError(table));
                    },
                },
            };
            if hit {
                // apply the assignments at their indices
                let mut newrow = row;
                let ghost rowv = crate::value::row_view(newrow@);
                let nr = ras.len();
                let mut a: usize = 0;
                while a < nr
                    invariant
                        0 <= a <= nr,
                        nr == ras@.len(),
                        rasv == ras_view(ras@),
                        ncols == newrow@.len(),
                        forall|j2: int|
                            0 <= j2 < rasv.len() ==> 0 <= (#[trigger] rasv[j2]).0 < ncols
                                && rasv[j2].1.wf(),
                        crate::value::row_view(newrow@) == apply_assigns(
                            rowv,
                            rasv.take(a as int),
                        ),
                        rowv.len() == ncols,
                    decreases nr - a,
                {
                    proof {
                        assert(rasv[a as int] == (ras@[a as int].0 as int, ras@[a as int].1@));
                        assert(rasv.take(a + 1) =~= rasv.take(a as int).push(rasv[a as int]));
                        lemma_apply_assigns_snoc(rowv, rasv.take(a as int), rasv[a as int]);
                    }
                    let ix = ras[a].0;
                    let val = ras[a].1.clone_value();
                    let ghost beforerow = crate::value::row_view(newrow@);
                    newrow.set(ix, val);
                    proof {
                        assert(crate::value::row_view(newrow@) =~= beforerow.update(
                            rasv[a as int].0,
                            rasv[a as int].1,
                        ));
                    }
                    a = a + 1;
                }
                proof {
                    assert(rasv.take(nr as int) =~= rasv);
                }
                let bytes = encode_row(&newrow);
                let ghost beforech = changes@;
                changes.push((clone_bytes(&entries[i].0), bytes));
                proof {
                    assert(crate::storage::pairs_view(changes@) =~= crate::storage::pairs_view(
                        beforech,
                    ) + seq![(sv[i as int].0, enc_row(apply_assigns(rowv, rasv)))]);
                    match upd_collect(
                        sv.skip(i as int + 1),
                        wv,
                        col_names(colsv),
                        rasv,
                        ncols as nat,
                    ) {
                        Some(chs) => {
                            assert((crate::storage::pairs_view(beforech) + seq![
                                (sv[i as int].0, enc_row(apply_assigns(rowv, rasv))),
                            ]) + chs =~= crate::storage::pairs_view(beforech) + (seq![
                                (sv[i as int].0, enc_row(apply_assigns(rowv, rasv))),
                            ] + chs));
                        },
                        None => {},
                    }
                }
            }
            i = i + 1;
        }
        proof {
            assert(sv.skip(n as int) =~= Seq::<(Seq<u8>, Seq<u8>)>::empty());
            assert(crate::storage::pairs_view(changes@) + Seq::<(Seq<u8>, Seq<u8>)>::empty()
                =~= crate::storage::pairs_view(changes@));
        }
        let ghost chv = crate::storage::pairs_view(changes@);
        let nc = changes.len();
        // one batch applies every change
        let res = self.storage.batch_set(&changes);
        proof {
            lemma_insert_all_facts(m0, chv);
            match upd_collect(sv, wv, col_names(colsv), rasv, ncols as nat) {
                Some(chs) => {
                    lemma_upd_collect_keys(sv, wv, col_names(colsv), rasv, ncols as nat);
                },
                None => {
                    assert(false);
                },
            }
        }
        match res {
            Ok(()) => {},
            Err(e) => {
                proof {
                    assert(crate::storage::batch_partial(m0, chv, self.storage@));
                    assert forall|kk: Seq<u8>|
                        #[trigger] self.storage@.dom().contains(kk) implies m0.dom().contains(
                        kk,
                    ) by {
                        if !(self.storage@.dom().contains(kk) == m0.dom().contains(kk)) {
                            assert(crate::storage::insert_all(m0, chv).dom().contains(kk));
                            if !m0.dom().contains(kk) {
                                let ii = choose|ii: int|
                                    0 <= ii < chv.len() && (#[trigger] chv[ii]).0 == kk;
                                assert(m0.dom().contains(kk));
                            }
                        }
                    }
                    assert(self.storage@.dom() <= m0.dom());
                    vstd::set_lib::lemma_len_subset(self.storage@.dom(), m0.dom());
                    assert(stamps_below(self.storage@, self.counter as nat));
                }
                return Err(e);
            },
        }
        proof {
            assert forall|kk: Seq<u8>|
                self.storage@.dom().contains(kk) && has_prefix(kk, data_tag_spec()) && kk.len()
                    >= 14 implies stamp_of(kk) < self.counter as nat by {
                if !m0.dom().contains(kk) {
                    let ii = choose|ii: int| 0 <= ii < chv.len() && (#[trigger] chv[ii]).0 == kk;
                    assert(m0.dom().contains(kk));
                }
            }
        }
        Ok(ExecutionResult::Updated { table, rows: nc })
    }
}

/// The view of a resolved-assignment vector.
pub open spec fn ras_view(s: Seq<(usize, Value)>) -> Seq<(int, ValueS)> {
    s.map(|i: int, a: (usize, Value)| (a.0 as int, a.1@))
}

/// Applying one more assignment updates the accumulated row.
pub proof fn lemma_apply_assigns_snoc(row: Seq<ValueS>, ras: Seq<(int, ValueS)>, a: (int, ValueS))
    ensures
        apply_assigns(row, ras.push(a)) == apply_assigns(row, ras).update(a.0, a.1),
    decreases ras.len(),
{
    if ras.len() == 0 {
        assert(ras.push(a)[0] == a);
        assert(ras.push(a).drop_first() =~= Seq::<(int, ValueS)>::empty());
        assert(apply_assigns(row, ras.push(a)) == apply_assigns(
            row.update(a.0, a.1),
            Seq::<(int, ValueS)>::empty(),
        ));
        assert(apply_assigns(row.update(a.0, a.1), Seq::<(int, ValueS)>::empty()) == row.update(
            a.0,
            a.1,
        ));
        assert(apply_assigns(row, ras) == row);
    } else {
        assert(ras.push(a)[0] == ras[0]);
        assert(ras.push(a).drop_first() =~= ras.drop_first().push(a));
        lemma_apply_assigns_snoc(row.update(ras[0].0, ras[0].1), ras.drop_first(), a);
    }
}

/// Every key an update writes came out of the scan, so it is already in
/// the store.
pub proof fn lemma_upd_collect_keys(
    entries: Seq<(Seq<u8>, Seq<u8>)>,
    w: Option<ExprS>,
    cols: Seq<Seq<char>>,
    ras: Seq<(int, ValueS)>,
    ncols: nat,
)
    ensures
        upd_collect(entries, w, cols, ras, ncols) matches Some(chs) ==> forall|ii: int|
            0 <= ii < chs.len() ==> exists|j: int|
                0 <= j < entries.len() && (#[trigger] chs[ii]).0 == (#[trigger] entries[j]).0,
    decreases entries.len(),
{
    if entries.len() > 0 {
        lemma_upd_collect_keys(entries.drop_first(), w, cols, ras, ncols);
        match upd_collect(entries, w, cols, ras, ncols) {
            Some(chs) => {
                match upd_collect(entries.drop_first(), w, cols, ras, ncols) {
                    Some(rest) => {
                        assert forall|ii: int| 0 <= ii < chs.len() implies exists|j: int|
                            0 <= j < entries.len() && (#[trigger] chs[ii]).0 == (
                            #[trigger] entries[j]).0 by {
                            if chs.len() == rest.len() {
                                // head did not match; every change is from the tail
                                assert(chs[ii] == rest[ii]);
                                let j = choose|j: int|
                                    0 <= j < entries.drop_first().len() && (#[trigger] rest[ii]).0
                                        == (#[trigger] entries.drop_first()[j]).0;
                                assert(entries.drop_first()[j] == entries[j + 1]);
                                assert(chs[ii].0 == entries[j + 1].0);
                            } else {
                                if ii == 0 {
                                    assert(chs[0].0 == entries[0].0);
                                } else {
                                    assert(chs[ii] == rest[ii - 1]);
                                    let j = choose|j: int|
                                        0 <= j < entries.drop_first().len() && (#[trigger] rest[ii
                                            - 1]).0 == (#[trigger] entries.drop_first()[j]).0;
                                    assert(entries.drop_first()[j] == entries[j + 1]);
                                    assert(chs[ii].0 == entries[j + 1].0);
                                }
                            }
                        }
                    },
                    None => {},
                }
            },
            None => {},
        }
    }
}


/// Every row a read-path scan yields is well-formed with the schema's
/// arity.
pub proof fn lemma_read_rows_wf(entries: Seq<(Seq<u8>, Seq<u8>)>, ncols: nat)
    ensures
        forall|i: int|
            0 <= i < read_rows(entries, ncols).len() ==> (#[trigger] read_rows(entries, ncols)[i]).len()
                == ncols && row_wf(read_rows(entries, ncols)[i]),
    decreases entries.len(),
{
    if entries.len() > 0 {
        lemma_read_rows_wf(entries.drop_first(), ncols);
        crate::codec::lemma_dec_row_wf(entries[0].1);
        let out = read_rows(entries, ncols);
        let rest = read_rows(entries.drop_first(), ncols);
        assert forall|i: int| 0 <= i < out.len() implies (#[trigger] out[i]).len() == ncols
            && row_wf(out[i]) by {
            match dec_row(entries[0].1) {
                Some(r) => {
                    if r.len() == ncols {
                        if i == 0 {
                            assert(out[0] == r);
                        } else {
                            assert(out[i] == rest[i - 1]);
                        }
                    } else {
                        assert(out[i] == rest[i]);
                    }
                },
                None => {
                    assert(out[i] == rest[i]);
                },
            }
        }
    }
}

/// Filtering keeps only rows of the input.
pub proof fn lemma_filter_elems(rows: Seq<Seq<ValueS>>, e: ExprS, cols: Seq<Seq<char>>)
    ensures
        forall|x: Seq<ValueS>|
            #[trigger] filter_rows_e(rows, e, cols).contains(x) ==> rows.contains(x),
    decreases rows.len(),
{
    if rows.len() > 0 {
        lemma_filter_elems(rows.drop_first(), e, cols);
        let out = filter_rows_e(rows, e, cols);
        let rest = filter_rows_e(rows.drop_first(), e, cols);
        assert forall|x: Seq<ValueS>| #[trigger] out.contains(x) implies rows.contains(x) by {
            let i = choose|i: int| 0 <= i < out.len() && out[i] == x;
            if eval_spec(e, cols, rows[0]) == crate::filter::EvalOut::Val(true) && i == 0 {
                assert(rows[0] == x);
            } else {
                if eval_spec(e, cols, rows[0]) == crate::filter::EvalOut::Val(true) {
                    assert(out[i] == rest[i - 1]);
                } else {
                    assert(out[i] == rest[i]);
                }
                assert(rest.contains(x));
                let j = choose|j: int|
                    0 <= j < rows.drop_first().len() && rows.drop_first()[j] == x;
                assert(rows[j + 1] == x);
            }
        }
    }
}

/// Ordered rows keep arity and well-formedness through every order key.
pub proof fn lemma_orders_preserve(
    rows: Seq<Seq<ValueS>>,
    orders: Seq<OrderS>,
    cols: Seq<Seq<char>>,
    ncols: nat,
)
    requires
        forall|i: int|
            0 <= i < rows.len() ==> (#[trigger] rows[i]).len() == ncols && row_wf(rows[i]),
    ensures
        apply_orders(rows, orders, cols).len() == rows.len(),
        forall|i: int|
            0 <= i < apply_orders(rows, orders, cols).len() ==> (#[trigger] apply_orders(
                rows,
                orders,
                cols,
            )[i]).len() == ncols && row_wf(apply_orders(rows, orders, cols)[i]),
    decreases orders.len(),
{
    if orders.len() > 0 {
        lemma_orders_preserve(rows, orders.drop_first(), cols, ncols);
        let mid = apply_orders(rows, orders.drop_first(), cols);
        match col_index(cols, orders[0].column) {
            Some(ix) => {
                crate::sort::lemma_sort_elems(mid, ix, orders[0].ascending);
                let out = sort_rows_spec(mid, ix, orders[0].ascending);
                assert forall|i: int| 0 <= i < out.len() implies (#[trigger] out[i]).len()
                    == ncols && row_wf(out[i]) by {
                    assert(out.contains(out[i]));
                    assert(mid.contains(out[i]));
                    let j = choose|j: int| 0 <= j < mid.len() && mid[j] == out[i];
                }
            },
            None => {},
        }
    }
}

impl Executor {
    /// Runs `SELECT`, exactly as `select_spec` describes: the store is
    /// read, never written, and on a cache hit the memoized rows are the
    /// very rows the query computes over the current store.
    #[verifier::rlimit(100)]
    pub fn exec_select(
        &mut self,
        table: String,
        projection: Vec<SelectItem>,
        where_clause: Option<Expr>,
        order_by: Option<Vec<OrderByClause>>,
        limit: Option<usize>,
    ) -> (r: Result<ExecutionResult, StorageError>)
        requires
            old(self).wf(),
            where_clause matches Some(e) ==> expr_wf(e@),
        ensures
            final(self).wf(),
            final(self).storage@ == old(self).storage@,
            final(self).counter == old(self).counter,
            r matches Ok(res) ==> select_spec(
                old(self).storage@,
                table@,
                items_view(projection@),
                opt_expr_view(where_clause),
                opt_orders_view(order_by),
                limit,
            ) matches Ok(p) && (res matches ExecutionResult::Selected { columns, rows }
                && strings_view(columns@) == p.0 && rowvec_view(rows@) == p.1),
            select_spec(
                old(self).storage@,
                table@,
                items_view(projection@),
                opt_expr_view(where_clause),
                opt_orders_view(order_by),
                limit,
            ) is Err ==> r is Err,
    {
        let ghost m0 = self.storage@;
        let ghost projv = items_view(projection@);
        let ghost wv = opt_expr_view(where_clause);
        let ghost ov = opt_orders_view(order_by);
        if self.cache_enabled {
            match self.cache.lookup(&table, &projection, &where_clause, &order_by, &limit) {
                Some((columns, rows)) => {
                    proof {
                        let i = choose|i: int|
                            0 <= i < self.cache@.len() && {
                                let en = #[trigger] self.cache@[i];
                                &&& en.table == table@
                                &&& en.projection == projv
                                &&& en.where_clause == wv
                                &&& en.order_by == ov
                                &&& en.limit == limit
                                &&& en.columns == strings_view(columns@)
                                &&& en.rows == rowvec_view(rows@)
                            };
                        assert(Self::entry_ok(m0, self.cache@[i]));
                    }
                    return Ok(ExecutionResult::Selected { columns, rows });
                },
                None => {},
            }
        }
        let schema = match cat_get(&self.storage, table.as_str()) {
            Ok(Some(s)) => s,
            Ok(None) => {
                return Err(StorageError::ReadError(table));
            },
            Err(e) => {
                return Err(e);
            },
        };
        let ghost colsv = cols_view(schema.columns@);
        let ncols = schema.columns.len();
        if projection.len() == 0 {
            return Err(StorageError::ReadError(table));
        }
        // the projection plan: selected indices and output names
        let mut idxs: Vec<usize> = Vec::new();
        let mut outnames: Vec<String> = Vec::new();
        let np = projection.len();
        let mut pi: usize = 0;
        proof {
            assert(projv.skip(0) =~= projv);
            match proj_plan(projv, colsv) {
                Some(pp) => {
                    assert(idxs_view(idxs@) + pp.0 =~= pp.0);
                    assert(strings_view(outnames@) + pp.1 =~= pp.1);
                },
                None => {},
            }
        }
        while pi < np
            invariant
                0 <= pi <= np,
                np == projection@.len(),
                projv == items_view(projection@),
                projv.len() > 0,
                colsv == cols_view(schema.columns@),
                ncols == schema.columns@.len(),
                old(self).wf(),
                self.storage@ == old(self).storage@,
                self.counter == old(self).counter,
                self.cache@ == old(self).cache@,
                self.cache_enabled == old(self).cache_enabled,
                m0 == old(self).storage@,
                cat_get_spec(m0, table@) == CatalogLookup::Table(schema.name@, colsv),
                self.storage@ == m0,
                proj_plan(projv, colsv) == (match proj_plan(projv.skip(pi as int), colsv) {
                    Some(pp) => Some(
                        (idxs_view(idxs@) + pp.0, strings_view(outnames@) + pp.1),
                    ),
                    None => None::<(Seq<int>, Seq<Seq<char>>)>,
                }),
                forall|j: int| 0 <= j < idxs@.len() ==> (#[trigger] idxs@[j]) < ncols,
            decreases np - pi,
        {
            proof {
                assert(projv.skip(pi as int)[0] == projv[pi as int]);
                assert(projv[pi as int] == projection@[pi as int]@);
                assert(projv.skip(pi as int).drop_first() =~= projv.skip(pi as int + 1));
            }
            let ghost idxpre = idxs@;
            let ghost namespre = outnames@;
            match &projection[pi] {
                SelectItem::Wildcard => {
                    proof {
                        assert(projv[pi as int] is Wildcard);
                    }
                    let mut k: usize = 0;
                    while k < ncols
                        invariant
                            0 <= k <= ncols,
                            0 <= pi < projv.len(),
                            projv[pi as int] is Wildcard,
                            ncols == schema.columns@.len(),
                            colsv == cols_view(schema.columns@),
                            old(self).wf(),
                            self.storage@ == old(self).storage@,
                            self.counter == old(self).counter,
                            self.cache@ == old(self).cache@,
                            self.cache_enabled == old(self).cache_enabled,
                            m0 == old(self).storage@,
                            idxs@.len() == idxpre.len() + k,
                            outnames@.len() == namespre.len() + k,
                            forall|j: int| 0 <= j < idxpre.len() ==> idxs@[j] == idxpre[j],
                            forall|j: int|
                                0 <= j < namespre.len() ==> outnames@[j] == namespre[j],
                            forall|j: int|
                                0 <= j < k ==> (#[trigger] idxs@[idxpre.len() + j]) == j,
                            forall|j: int|
                                0 <= j < k ==> (#[trigger] outnames@[namespre.len() + j])@
                                    == colsv[j].name,
                            forall|j: int|
                                0 <= j < idxpre.len() ==> (#[trigger] idxpre[j]) < ncols,
                        decreases ncols - k,
                    {
                        proof {
                            assert(colsv[k as int] == schema.columns@[k as int]@);
                        }
                        idxs.push(k);
                        outnames.push(crate::filter::clone_string(&schema.columns[k].name));
                        k = k + 1;
                    }
                    proof {
                        match item_plan(projv[pi as int], colsv) {
                            Some(ip) => {
                                assert forall|j: int|
                                    0 <= j < idxs@.len() implies idxs_view(idxs@)[j] == (
                                idxs_view(idxpre) + ip.0)[j] by {
                                    assert(idxs_view(idxs@)[j] == idxs@[j] as int);
                                    if j < idxpre.len() {
                                        assert(idxs_view(idxpre)[j] == idxpre[j] as int);
                                    } else {
                                        assert(idxs@[idxpre.len() + (j - idxpre.len())] == j
                                            - idxpre.len());
                                        assert(ip.0[j - idxpre.len()] == j - idxpre.len());
                                    }
                                }
                                assert(idxs_view(idxs@) =~= idxs_view(idxpre) + ip.0);
                                assert forall|j: int|
                                    0 <= j < outnames@.len() implies strings_view(outnames@)[j]
                                    == (strings_view(namespre) + ip.1)[j] by {
                                    assert(strings_view(outnames@)[j] == outnames@[j]@);
                                    if j < namespre.len() {
                                        assert(strings_view(namespre)[j] == namespre[j]@);
                                    } else {
                                        assert(outnames@[namespre.len() + (j - namespre.len())]@
                                            == colsv[j - namespre.len()].name);
                                        assert(ip.1[j - namespre.len()] == col_names(
                                            colsv,
                                        )[j - namespre.len()]);
                                        assert(col_names(colsv)[j - namespre.len()]
                                            == colsv[j - namespre.len()].name);
                                    }
                                }
                                assert(strings_view(outnames@) =~= strings_view(namespre)
                                    + ip.1);
                            },
                            None => {
                                assert(false);
                            },
                        }
                        assert forall|j: int| 0 <= j < idxs@.len() implies (
                        #[trigger] idxs@[j]) < ncols by {
                            if j >= idxpre.len() {
                                assert(idxs@[idxpre.len() + (j - idxpre.len())] == j
                                    - idxpre.len());
                            } else {
                                assert(idxs@[j] == idxpre[j]);
                                assert(idxpre[j] < ncols);
                            }
                        }
                    }
                },
                SelectItem::Column { name, alias } => {
                    match find_col_in(&schema.columns, name) {
                        None => {
                            proof {
                                assert(item_plan(projv[pi as int], colsv) is None);
                                assert(proj_plan(projv.skip(pi as int), colsv) is None);
                            }
                            return Err(StorageError::ReadError(table));
                        },
                        Some(ix) => {
                            idxs.push(ix);
                            match alias {
                                Some(a) => {
                                    outnames.push(crate::filter::clone_string(a));
                                },
                                None => {
                                    outnames.push(crate::filter::clone_string(name));
                                },
                            }
                            proof {
                                match item_plan(projv[pi as int], colsv) {
                                    Some(ip) => {
                                        assert(idxs_view(idxs@) =~= idxs_view(idxpre) + ip.0);
                                        assert(strings_view(outnames@) =~= strings_view(
                                            namespre,
                                        ) + ip.1);
                                    },
                                    None => {
                                        assert(false);
                                    },
                                }
                            }
                        },
                    }
                },
            }
            proof {
                match proj_plan(projv.skip(pi as int + 1), colsv) {
                    Some(pp) => {
                        match item_plan(projv[pi as int], colsv) {
                            Some(ip) => {
                                assert((idxs_view(idxpre) + ip.0) + pp.0 =~= idxs_view(idxpre)
                                    + (ip.0 + pp.0));
                                assert((strings_view(namespre) + ip.1) + pp.1 =~= strings_view(
                                    namespre,
                                ) + (ip.1 + pp.1));
                            },
                            None => {},
                        }
                    },
                    None => {},
                }
            }
            pi = pi + 1;
        }
        proof {
            assert(projv.skip(np as int) =~= Seq::<SelectItemS>::empty());
            assert(idxs_view(idxs@) + Seq::<int>::empty() =~= idxs_view(idxs@));
            assert(strings_view(outnames@) + Seq::<Seq<char>>::empty() =~= strings_view(
                outnames@,
            ));
            assert(proj_plan(projv, colsv) == Some(
                (idxs_view(idxs@), strings_view(outnames@)),
            ));
        }
        // scan and decode
        let prefix = data_prefix(table.as_str());
        let entries = self.storage.scan_prefix(&prefix)?;
        proof {
            crate::storage::lemma_scan_is_spec(
                m0,
                data_prefix_spec(table@),
                crate::storage::pairs_view(entries@),
            );
        }
        let ghost sv = crate::storage::pairs_view(entries@);
        let n = entries.len();
        let mut rows: Vec<Row> = Vec::new();
        let mut i: usize = 0;
        proof {
            assert(sv.skip(0) =~= sv);
            assert(rowvec_view(rows@) + read_rows(sv, ncols as nat) =~= read_rows(
                sv,
                ncols as nat,
            ));
        }
        while i < n
            invariant
                0 <= i <= n,
                n == entries@.len(),
                sv == crate::storage::pairs_view(entries@),
                ncols == schema.columns@.len(),
                read_rows(sv, ncols as nat) == rowvec_view(rows@) + read_rows(
                    sv.skip(i as int),
                    ncols as nat,
                ),
                forall|j: int|
                    0 <= j < rows@.len() ==> (#[trigger] rowvec_view(rows@)[j]).len() == ncols
                        && row_wf(rowvec_view(rows@)[j]),
            decreases n - i,
        {
            proof {
                assert(sv.skip(i as int)[0] == sv[i as int]);
                assert(sv[i as int].1 == entries@[i as int].1@);
                assert(sv.skip(i as int).drop_first() =~= sv.skip(i as int + 1));
            }
            let ghost rowspre = rows@;
            match decode_row(&entries[i].1) {
                Some(rw) => {
                    if rw.len() == ncols {
                        let ghost rv = crate::value::row_view(rw@);
                        rows.push(Row { values: rw });
                        proof {
                            assert(rowvec_view(rows@) =~= rowvec_view(rowspre) + seq![rv]);
                            assert((rowvec_view(rowspre) + seq![rv]) + read_rows(
                                sv.skip(i as int + 1),
                                ncols as nat,
                            ) =~= rowvec_view(rowspre) + (seq![rv] + read_rows(
                                sv.skip(i as int + 1),
                                ncols as nat,
                            )));
                        }
                    }
                },
                None => {},
            }
            i = i + 1;
        }
        proof {
            assert(sv.skip(n as int) =~= Seq::<(Seq<u8>, Seq<u8>)>::empty());
            assert(rowvec_view(rows@) + Seq::<Seq<ValueS>>::empty() =~= rowvec_view(rows@));
            assert(read_rows(sv, ncols as nat) == rowvec_view(rows@));
        }
        let ghost rows0v = rowvec_view(rows@);
        // filter
        let mut rows = rows;
        match &where_clause {
            None => {},
            Some(expr) => {
                let names = schema_names(&schema.columns);
                let evaluator = ExpressionEvaluator::new(names);
                let mut kept: Vec<Row> = Vec::new();
                let nr = rows.len();
                let mut f: usize = 0;
                proof {
                    assert(rows0v.skip(0) =~= rows0v);
                    assert(rowvec_view(kept@) + filter_rows_e(rows0v, expr@, col_names(colsv))
                        =~= filter_rows_e(rows0v, expr@, col_names(colsv)));
                }
                while f < nr
                    invariant
                        0 <= f <= nr,
                        nr == rows@.len(),
                        rows0v == rowvec_view(rows@),
                        expr_wf(expr@),
                        colsv == cols_view(schema.columns@),
                        ncols == schema.columns@.len(),
                        evaluator.cols() == col_names(colsv),
                        forall|j: int|
                            0 <= j < rows@.len() ==> (#[trigger] rowvec_view(rows@)[j]).len()
                                == ncols && row_wf(rowvec_view(rows@)[j]),
                        filter_rows_e(rows0v, expr@, col_names(colsv)) == rowvec_view(kept@)
                            + filter_rows_e(rows0v.skip(f as int), expr@, col_names(colsv)),
                        forall|j: int|
                            0 <= j < kept@.len() ==> (#[trigger] rowvec_view(kept@)[j]).len()
                                == ncols && row_wf(rowvec_view(kept@)[j]),
                    decreases nr - f,
                {
                    proof {
                        assert(rows0v.skip(f as int)[0] == rows0v[f as int]);
                        assert(rows0v[f as int] == rows@[f as int]@);
                        assert(rows0v.skip(f as int).drop_first() =~= rows0v.skip(f as int + 1));
                    }
                    let keep = match evaluator.evaluate(expr, &rows[f].values) {
                        Ok(b) => b,
                        Err(_) => false,
                    };
                    if keep {
                        let ghost keptpre = kept@;
                        kept.push(rows[f].clone_row());
                        proof {
                            assert(rowvec_view(kept@) =~= rowvec_view(keptpre) + seq![
                                rows0v[f as int],
                            ]);
                            assert((rowvec_view(keptpre) + seq![rows0v[f as int]])
                                + filter_rows_e(
                                rows0v.skip(f as int + 1),
                                expr@,
                                col_names(colsv),
                            ) =~= rowvec_view(keptpre) + (seq![rows0v[f as int]]
                                + filter_rows_e(
                                rows0v.skip(f as int + 1),
                                expr@,
                                col_names(colsv),
                            )));
                        }
                    }
                    f = f + 1;
                }
                proof {
                    assert(rows0v.skip(nr as int) =~= Seq::<Seq<ValueS>>::empty());
                    assert(rowvec_view(kept@) + Seq::<Seq<ValueS>>::empty() =~= rowvec_view(
                        kept@,
                    ));
                }
                rows = kept;
            },
        }
        let ghost rows1v = rowvec_view(rows@);
        proof {
            assert(rows1v == filter_rows(rows0v, wv, col_names(colsv)));
        }
        // compound order: each key in reverse declaration order
        let mut rows = rows;
        match &order_by {
            None => {
                proof {
                    assert(apply_orders(rows1v, Seq::<OrderS>::empty(), col_names(colsv))
                        == rows1v);
                }
            },
            Some(orders) => {
                let ghost osv = orders_view(orders@);
                let no = orders.len();
                let mut oi: usize = no;
                proof {
                    assert(osv.skip(no as int) =~= Seq::<OrderS>::empty());
                }
                while oi > 0
                    invariant
                        0 <= oi <= no,
                        no == orders@.len(),
                        osv == orders_view(orders@),
                        colsv == cols_view(schema.columns@),
                        ncols == schema.columns@.len(),
                        forall|j: int|
                            0 <= j < rows@.len() ==> (#[trigger] rowvec_view(rows@)[j]).len()
                                == ncols && row_wf(rowvec_view(rows@)[j]),
                        rowvec_view(rows@) == apply_orders(
                            rows1v,
                            osv.skip(oi as int),
                            col_names(colsv),
                        ),
                    decreases oi,
                {
                    proof {
                        assert(osv[oi - 1] == orders@[oi - 1]@);
                        assert(osv.skip(oi - 1)[0] == osv[oi - 1]);
                        assert(osv.skip(oi - 1).drop_first() =~= osv.skip(oi as int));
                    }
                    match find_col_in(&schema.columns, &orders[oi - 1].column) {
                        Some(ix) => {
                            proof {
                                assert(crate::sort::rows_sortable(rowvec_view(rows@), ix as int));
                            }
                            let sorted = sort_rows(rows, ix, orders[oi - 1].ascending);
                            proof {
                                crate::sort::lemma_sort_elems(
                                    apply_orders(rows1v, osv.skip(oi as int), col_names(colsv)),
                                    ix as int,
                                    orders@[oi - 1]@.ascending,
                                );
                                assert forall|j: int|
                                    0 <= j < rowvec_view(sorted@).len() implies (
                                #[trigger] rowvec_view(sorted@)[j]).len() == ncols && row_wf(
                                    rowvec_view(sorted@)[j],
                                ) by {
                                    let sd = rowvec_view(sorted@);
                                    assert(sd.contains(sd[j]));
                                    let pre = apply_orders(
                                        rows1v,
                                        osv.skip(oi as int),
                                        col_names(colsv),
                                    );
                                    assert(pre.contains(sd[j]));
                                    let jj = choose|jj: int|
                                        0 <= jj < pre.len() && pre[jj] == sd[j];
                                }
                            }
                            rows = sorted;
                        },
                        None => {},
                    }
                    oi = oi - 1;
                }
                proof {
                    assert(osv.skip(0) =~= osv);
                }
            },
        }
        let ghost rows2v = rowvec_view(rows@);
        proof {
            assert(rows2v == apply_orders(
                rows1v,
                match ov {
                    Some(o) => o,
                    None => Seq::empty(),
                },
                col_names(colsv),
            ));
        }
        // limit
        let mut rows = rows;
        match limit {
            None => {},
            Some(ln) => {
                if ln < rows.len() {
                    rows.truncate(ln);
                    proof {
                        assert(rowvec_view(rows@) =~= rows2v.take(ln as int));
                    }
                }
            },
        }
        let ghost rows3v = rowvec_view(rows@);
        proof {
            assert(rows3v == trunc_rows(rows2v, limit));
        }
        // project
        let nsel = idxs.len();
        let nr3 = rows.len();
        let mut out: Vec<Row> = Vec::new();
        let mut p2: usize = 0;
        while p2 < nr3
            invariant
                0 <= p2 <= nr3,
                nr3 == rows@.len(),
                rows3v == rowvec_view(rows@),
                nsel == idxs@.len(),
                forall|j: int| 0 <= j < idxs@.len() ==> (#[trigger] idxs@[j]) < ncols,
                forall|j: int|
                    0 <= j < rows@.len() ==> (#[trigger] rowvec_view(rows@)[j]).len() == ncols
                        && row_wf(rowvec_view(rows@)[j]),
                out@.len() == p2,
                forall|j: int|
                    0 <= j < p2 ==> (#[trigger] rowvec_view(out@)[j]) == project_row(
                        rows3v[j],
                        idxs_view(idxs@),
                    ),
            decreases nr3 - p2,
        {
            proof {
                assert(rows3v[p2 as int] == rows@[p2 as int]@);
            }
            let mut cells: Vec<Value> = Vec::new();
            let mut c: usize = 0;
            while c < nsel
                invariant
                    0 <= c <= nsel,
                    0 <= p2 < nr3,
                    nr3 == rows@.len(),
                    rows3v == rowvec_view(rows@),
                    rows3v[p2 as int] == rows@[p2 as int]@,
                    nsel == idxs@.len(),
                    forall|j: int| 0 <= j < idxs@.len() ==> (#[trigger] idxs@[j]) < ncols,
                    forall|j: int|
                        0 <= j < rows@.len() ==> (#[trigger] rowvec_view(rows@)[j]).len()
                            == ncols && row_wf(rowvec_view(rows@)[j]),
                    cells@.len() == c,
                    forall|j: int|
                        0 <= j < c ==> (#[trigger] cells@[j])@ == rows3v[p2 as int][idxs_view(
                            idxs@,
                        )[j]],
                decreases nsel - c,
            {
                proof {
                    assert(idxs_view(idxs@)[c as int] == idxs@[c as int] as int);
                    assert(rows3v[p2 as int][idxs@[c as int] as int]
                        == rows@[p2 as int].values@[idxs@[c as int] as int]@);
                }
                cells.push(rows[p2].values[idxs[c]].clone_value());
                c = c + 1;
            }
            let ghost cellsv2 = cells@;
            let ghost outpre = out@;
            out.push(Row { values: cells });
            proof {
                assert(out@ == outpre.push(out@[p2 as int]));
                assert(out@[p2 as int]@ == crate::value::row_view(cellsv2));
                assert forall|j: int|
                    0 <= j < project_row(rows3v[p2 as int], idxs_view(idxs@)).len() implies
                    crate::value::row_view(cellsv2)[j] == project_row(
                    rows3v[p2 as int],
                    idxs_view(idxs@),
                )[j] by {
                    assert(crate::value::row_view(cellsv2)[j] == cellsv2[j]@);
                }
                assert(crate::value::row_view(cellsv2) =~= project_row(
                    rows3v[p2 as int],
                    idxs_view(idxs@),
                ));
                assert forall|j: int| 0 <= j < p2 + 1 implies (#[trigger] rowvec_view(out@)[j])
                    == project_row(rows3v[j], idxs_view(idxs@)) by {
                    assert(rowvec_view(out@)[j] == out@[j]@);
                    if j < p2 {
                        assert(out@[j] == outpre[j]);
                        assert(rowvec_view(outpre)[j] == outpre[j]@);
                    }
                }
            }
            p2 = p2 + 1;
        }
        proof {
            assert forall|j: int| 0 <= j < nr3 implies project_rows(rows3v, idxs_view(idxs@))[j]
                == rowvec_view(out@)[j] by {}
            assert(rowvec_view(out@) =~= project_rows(rows3v, idxs_view(idxs@)));
            match select_spec(m0, table@, projv, wv, ov, limit) {
                Ok(p) => {
                    assert(p.0 == strings_view(outnames@));
                    assert(p.1 == rowvec_view(out@));
                },
                Err(k) => {
                    assert(false);
                },
            }
        }
        // memoize the projected result under the full query shape
        if self.cache_enabled {
            let ccols = crate::cache::clone_strings(&outnames);
            let crows = crate::cache::clone_rows(&out);
            let entry = CacheEntry {
                table,
                projection,
                where_clause,
                order_by,
                limit,
                columns: ccols,
                rows: crows,
            };
            proof {
                assert(Self::entry_ok(m0, entry@));
            }
            self.cache.put(entry);
            proof {
                assert forall|j: int| 0 <= j < self.cache@.len() implies Self::entry_ok(
                    self.storage@,
                    #[trigger] self.cache@[j],
                ) by {
                    if j < old(self).cache@.len() {
                        assert(self.cache@[j] == old(self).cache@[j]);
                    }
                }
            }
            return Ok(ExecutionResult::Selected { columns: outnames, rows: out });
        }
        Ok(ExecutionResult::Selected { columns: outnames, rows: out })
    }
}



/// Validity of the values a statement carries: decimals well-formed in
/// inserted rows, assignment values and predicate literals.
pub open spec fn stmt_wf(s: StatementS) -> bool {
    match s {
        StatementS::Insert { table: _, columns: _, values } => forall|i: int|
            0 <= i < values.len() ==> row_wf(#[trigger] values[i]),
        StatementS::Select { where_clause, .. } => match where_clause {
            Some(e) => expr_wf(e),
            None => true,
        },
        StatementS::Update { table: _, assignments, where_clause } => (forall|i: int|
            0 <= i < assignments.len() ==> (#[trigger] assignments[i]).1.wf()) && (
        match where_clause {
            Some(e) => expr_wf(e),
            None => true,
        }),
        StatementS::Delete { table: _, where_clause } => match where_clause {
            Some(e) => expr_wf(e),
            None => true,
        },
        _ => true,
    }
}

impl Executor {
    /// Runs one statement: the single dispatch over the statement's tag.
    /// Each arm behaves exactly as its statement's spec function
    /// describes; every successful mutation leaves the result cache
    /// empty.
    pub fn execute(&mut self, statement: Statement) -> (r: Result<ExecutionResult, StorageError>)
        requires
            old(self).wf(),
            stmt_wf(statement@),
        ensures
            final(self).wf(),
            match statement@ {
                StatementS::CreateTable { name, columns } => {
                    &&& (r matches Ok(res) ==> create_spec(old(self).st(), name, columns)
                        == Ok::<EState, ErrKind>(final(self).st()) && (res matches
                    ExecutionResult::Created { table } && table@ == name))
                    &&& (create_spec(old(self).st(), name, columns) is Err ==> r is Err
                        && final(self).st() == old(self).st())
                    &&& final(self).cache@ == Seq::<CacheEntryS>::empty()
                },
                StatementS::DropTable { name, if_exists } => {
                    &&& (r matches Ok(res) ==> drop_spec(old(self).st(), name, if_exists)
                        matches Ok(p) && final(self).st() == p.0 && (res matches
                    ExecutionResult::Deleted { table, rows } && table@ == name && rows as nat
                        == p.1))
                    &&& (drop_spec(old(self).st(), name, if_exists) is Err ==> r is Err
                        && final(self).st() == old(self).st())
                    &&& final(self).cache@ == Seq::<CacheEntryS>::empty()
                },
                StatementS::ShowTables => {
                    &&& (r matches Ok(res) ==> (res matches ExecutionResult::TableList { tables }
                        && strings_view(tables@) == cat_list_spec(old(self).storage@)))
                    &&& final(self).st() == old(self).st()
                },
                StatementS::DescribeTable { name } => {
                    &&& (r matches Ok(res) ==> describe_spec(old(self).storage@, name)
                        matches Ok(p) && (res matches ExecutionResult::TableDescription {
                        table,
                        columns,
                    } && table@ == p.0 && cols_view(columns@) == p.1))
                    &&& (describe_spec(old(self).storage@, name) is Err ==> r is Err)
                    &&& final(self).st() == old(self).st()
                },
                StatementS::Insert { table, columns, values } => {
                    &&& (r matches Ok(res) ==> insert_spec(old(self).st(), table, columns, values)
                        matches Ok(p) && final(self).st() == p.0 && (res matches
                    ExecutionResult::Inserted { table: t, rows } && t@ == table && rows as nat
                        == p.1))
                    &&& (insert_spec(old(self).st(), table, columns, values) is Err ==> r is Err
                        && final(self).st() == old(self).st())
                    &&& final(self).cache@ == Seq::<CacheEntryS>::empty()
                },
                StatementS::Select { table, projection, where_clause, order_by, limit } => {
                    &&& (r matches Ok(res) ==> select_spec(
                        old(self).storage@,
                        table,
                        projection,
                        where_clause,
                        order_by,
                        limit,
                    ) matches Ok(p) && (res matches ExecutionResult::Selected { columns, rows }
                        && strings_view(columns@) == p.0 && rowvec_view(rows@) == p.1))
                    &&& (select_spec(
                        old(self).storage@,
                        table,
                        projection,
                        where_clause,
                        order_by,
                        limit,
                    ) is Err ==> r is Err)
                    &&& final(self).st() == old(self).st()
                },
                StatementS::Update { table, assignments, where_clause } => {
                    &&& (r matches Ok(res) ==> update_spec(
                        old(self).st(),
                        table,
                        assignments,
                        where_clause,
                    ) matches Ok(p) && final(self).st() == p.0 && (res matches
                    ExecutionResult::Updated { table: t, rows } && t@ == table && rows as nat
                        == p.1))
                    &&& (update_spec(old(self).st(), table, assignments, where_clause) is Err
                        ==> r is Err && final(self).st() == old(self).st())
                    &&& final(self).cache@ == Seq::<CacheEntryS>::empty()
                },
                StatementS::Delete { table, where_clause } => {
                    &&& (r matches Ok(res) ==> delete_spec(old(self).st(), table, where_clause)
                        matches Ok(p) && final(self).st() == p.0 && (res matches
                    ExecutionResult::Deleted { table: t, rows } && t@ == table && rows as nat
                        == p.1))
                    &&& (delete_spec(old(self).st(), table, where_clause) is Err ==> r is Err
                        && final(self).st() == old(self).st())
                    &&& final(self).cache@ == Seq::<CacheEntryS>::empty()
                },
            },
    {
        match statement {
            Statement::CreateTable { name, columns } => self.exec_create(name, columns),
            Statement::DropTable { name, if_exists } => self.exec_drop(name, if_exists),
            Statement::ShowTables => self.exec_show(),
            Statement::DescribeTable { name } => self.exec_describe(name),
            Statement::Insert { table, columns, values } => self.exec_insert(
                table,
                columns,
                values,
            ),
            Statement::Select { table, projection, where_clause, order_by, limit } => self
                .exec_select(table, projection, where_clause, order_by, limit),
            Statement::Update { table, assignments, where_clause } => self.exec_update(
                table,
                assignments,
                where_clause,
            ),
            Statement::Delete { table, where_clause } => self.exec_delete(table, where_clause),
        }
    }
}

} // verus!