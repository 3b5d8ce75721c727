//! The ordered byte-keyed store. The engine is modelled as a map from
//! byte keys to byte values; every operation's contract says how it reads
//! or transforms that map. The calls into the embedded store are the
//! trusted boundary of this crate.

use vstd::prelude::*;
use vstd::relations::total_ordering;
use crate::keys::has_prefix;

verus! {

/// Why a storage operation failed.
#[derive(Debug, Clone, PartialEq)]
pub enum StorageError {
    OpenError(String),
    WriteError(String),
    ReadError(String),
    KeyNotFound(String),
    SerializationError(String),
}

/// The class an error belongs to; contracts speak of classes, messages
/// carry detail for a human.
pub enum ErrKind {
    Open,
    Write,
    Read,
    KeyNotFound,
    Serialization,
}

/// The class of an error.
pub open spec fn err_kind(e: StorageError) -> ErrKind {
    match e {
        StorageError::OpenError(_) => ErrKind::Open,
        StorageError::WriteError(_) => ErrKind::Write,
        StorageError::ReadError(_) => ErrKind::Read,
        StorageError::KeyNotFound(_) => ErrKind::KeyNotFound,
        StorageError::SerializationError(_) => ErrKind::Serialization,
    }
}

#[verifier::external_type_specification]
#[verifier::external_body]
pub struct ExDb(sled::Db);

/// The keyed contents of a store handle.
pub uninterp spec fn db_view(db: sled::Db) -> Map<Seq<u8>, Seq<u8>>;

/// A handle to one ordered byte-keyed durable map.
pub struct StorageEngine {
    pub db: sled::Db,
}

/// The map a storage handle holds.
pub open spec fn engine_view(e: StorageEngine) -> Map<Seq<u8>, Seq<u8>> {
    db_view(e.db)
}

/// A store holding nothing.
pub open spec fn empty_store() -> Map<Seq<u8>, Seq<u8>> {
    Map::empty()
}

impl View for StorageEngine {
    type V = Map<Seq<u8>, Seq<u8>>;

    open spec fn view(&self) -> Map<Seq<u8>, Seq<u8>> {
        engine_view(*self)
    }
}

/// Strict lexicographic order on byte strings: a proper prefix comes
/// first, otherwise the first differing byte decides.
pub open spec fn lex_lt(a: Seq<u8>, b: Seq<u8>) -> bool
    decreases a.len(),
{
    if a.len() == 0 {
        b.len() > 0
    } else if b.len() == 0 {
        false
    } else if a[0] < b[0] {
        true
    } else if a[0] > b[0] {
        false
    } else {
        lex_lt(a.drop_first(), b.drop_first())
    }
}

pub open spec fn lex_leq(a: Seq<u8>, b: Seq<u8>) -> bool {
    lex_lt(a, b) || a == b
}

pub open spec fn lex_leq_fn() -> spec_fn(Seq<u8>, Seq<u8>) -> bool {
    |a: Seq<u8>, b: Seq<u8>| lex_leq(a, b)
}

pub proof fn lemma_lex_lt_trans(a: Seq<u8>, b: Seq<u8>, c: Seq<u8>)
    requires
        lex_lt(a, b),
        lex_lt(b, c),
    ensures
        lex_lt(a, c),
    decreases a.len(),
{
    if a.len() > 0 && b.len() > 0 && c.len() > 0 && a[0] == b[0] && b[0] == c[0] {
        lemma_lex_lt_trans(a.drop_first(), b.drop_first(), c.drop_first());
    }
}

pub proof fn lemma_lex_lt_asym(a: Seq<u8>, b: Seq<u8>)
    requires
        lex_lt(a, b),
    ensures
        !lex_lt(b, a),
        a != b,
    decreases a.len(),
{
    if a.len() > 0 && b.len() > 0 && a[0] == b[0] {
        lemma_lex_lt_asym(a.drop_first(), b.drop_first());
        if a == b {
            assert(a.drop_first() =~= b.drop_first());
        }
    } else if a.len() == 0 {
        if a == b {
            assert(b.len() == 0);
        }
    }
}

pub proof fn lemma_lex_connected(a: Seq<u8>, b: Seq<u8>)
    requires
        a != b,
    ensures
        lex_lt(a, b) || lex_lt(b, a),
    decreases a.len(),
{
    if a.len() == 0 {
        assert(b.len() > 0) by {
            if b.len() == 0 {
                assert(a =~= b);
            }
        }
    } else if b.len() == 0 {
    } else if a[0] == b[0] {
        assert(a.drop_first() != b.drop_first()) by {
            if a.drop_first() == b.drop_first() {
                assert(a =~= seq![a[0]] + a.drop_first());
                assert(b =~= seq![b[0]] + b.drop_first());
            }
        }
        lemma_lex_connected(a.drop_first(), b.drop_first());
    }
}

/// Pushing onto strictly ordered equal-length strings keeps the order.
pub proof fn lemma_lex_push_lt(a: Seq<u8>, b: Seq<u8>, p: u8, q: u8)
    requires
        lex_lt(a, b),
        a.len() == b.len(),
    ensures
        lex_lt(a.push(p), b.push(q)),
    decreases a.len(),
{
    assert(a.len() > 0);
    assert(a.push(p)[0] == a[0]);
    assert(b.push(q)[0] == b[0]);
    if a[0] == b[0] {
        assert(a.push(p).drop_first() =~= a.drop_first().push(p));
        assert(b.push(q).drop_first() =~= b.drop_first().push(q));
        lemma_lex_push_lt(a.drop_first(), b.drop_first(), p, q);
    }
}

/// Pushing ordered bytes onto one string orders the results.
pub proof fn lemma_lex_push_eq(a: Seq<u8>, p: u8, q: u8)
    requires
        p < q,
    ensures
        lex_lt(a.push(p), a.push(q)),
    decreases a.len(),
{
    if a.len() == 0 {
        assert(a.push(p)[0] == p);
        assert(a.push(q)[0] == q);
    } else {
        assert(a.push(p)[0] == a[0]);
        assert(a.push(q)[0] == a[0]);
        assert(a.push(p).drop_first() =~= a.drop_first().push(p));
        assert(a.push(q).drop_first() =~= a.drop_first().push(q));
        lemma_lex_push_eq(a.drop_first(), p, q);
    }
}

/// A shared prefix does not disturb the order of what follows.
pub proof fn lemma_lex_prefix(p: Seq<u8>, a: Seq<u8>, b: Seq<u8>)
    requires
        lex_lt(a, b),
    ensures
        lex_lt(p + a, p + b),
    decreases p.len(),
{
    if p.len() == 0 {
        assert(p + a =~= a);
        assert(p + b =~= b);
    } else {
        assert((p + a)[0] == p[0]);
        assert((p + b)[0] == p[0]);
        assert((p + a).drop_first() =~= p.drop_first() + a);
        assert((p + b).drop_first() =~= p.drop_first() + b);
        lemma_lex_prefix(p.drop_first(), a, b);
    }
}

/// Lexicographic order totally orders byte strings.
pub proof fn lemma_lex_total_ordering()
    ensures
        total_ordering(lex_leq_fn()),
{
    let r = lex_leq_fn();
    assert forall|a: Seq<u8>, b: Seq<u8>, c: Seq<u8>|
        #[trigger] r(a, b) && #[trigger] r(b, c) implies r(a, c) by {
        if a != b && b != c {
            lemma_lex_lt_trans(a, b, c);
        }
    }
    assert forall|a: Seq<u8>, b: Seq<u8>| #[trigger] r(a, b) && #[trigger] r(b, a) implies a
        == b by {
        if a != b {
            lemma_lex_lt_asym(a, b);
        }
    }
    assert forall|a: Seq<u8>, b: Seq<u8>| #[trigger] r(a, b) || #[trigger] r(b, a) by {
        if a != b {
            lemma_lex_connected(a, b);
        }
    }
}

/// The keys of `m` that start with `p`.
pub open spec fn matching_keys(m: Map<Seq<u8>, Seq<u8>>, p: Seq<u8>) -> Set<Seq<u8>> {
    m.dom().filter(|k: Seq<u8>| has_prefix(k, p))
}

/// The keys of a finite set in ascending lexicographic order.
pub open spec fn sorted_keys(s: Set<Seq<u8>>) -> Seq<Seq<u8>>
    decreases s.len(),
    when s.finite()
{
    if !s.finite() || s.len() == 0 {
        Seq::empty()
    } else {
        let m = s.find_unique_minimal(lex_leq_fn());
        if s.contains(m) {
            seq![m] + sorted_keys(s.remove(m))
        } else {
            Seq::empty()
        }
    }
}

/// The unique minimal element of a finite nonempty key set is its least:
/// it is contained and below every member.
pub proof fn lemma_min_least(s: Set<Seq<u8>>)
    requires
        s.finite(),
        s.len() > 0,
    ensures
        s.contains(s.find_unique_minimal(lex_leq_fn())),
        forall|x: Seq<u8>|
            #[trigger] s.contains(x) ==> lex_leq(s.find_unique_minimal(lex_leq_fn()), x),
{
    lemma_lex_total_ordering();
    s.find_unique_minimal_ensures(lex_leq_fn());
    let r = lex_leq_fn();
    let m = s.find_unique_minimal(r);
    assert forall|x: Seq<u8>| #[trigger] s.contains(x) implies lex_leq(m, x) by {
        if x != m && !lex_lt(m, x) {
            lemma_lex_connected(m, x);
            assert(r(x, m));
            assert(r(m, x));
        }
    }
}

/// What a prefix scan of the store yields: the matching entries in
/// ascending key order.
pub open spec fn scan_spec(m: Map<Seq<u8>, Seq<u8>>, p: Seq<u8>) -> Seq<(Seq<u8>, Seq<u8>)> {
    sorted_keys(matching_keys(m, p)).map(|i: int, k: Seq<u8>| (k, m[k]))
}

/// The ordered keys of a finite set: each listed once, all of them, in
/// strictly ascending order.
pub proof fn lemma_sorted_keys_props(s: Set<Seq<u8>>)
    requires
        s.finite(),
    ensures
        sorted_keys(s).len() == s.len(),
        forall|i: int| 0 <= i < sorted_keys(s).len() ==> s.contains(#[trigger] sorted_keys(s)[i]),
        forall|k: Seq<u8>| s.contains(k) ==> sorted_keys(s).contains(k),
        forall|i: int, j: int|
            0 <= i < j < sorted_keys(s).len() ==> lex_lt(sorted_keys(s)[i], sorted_keys(s)[j]),
    decreases s.len(),
{
    lemma_lex_total_ordering();
    if s.len() > 0 {
        let m = s.find_unique_minimal(lex_leq_fn());
        lemma_min_least(s);
        assert(s.contains(m));
        let rest = s.remove(m);
        lemma_sorted_keys_props(rest);
        let out = sorted_keys(s);
        assert(out == seq![m] + sorted_keys(rest));
        assert forall|i: int| 0 <= i < out.len() implies s.contains(#[trigger] out[i]) by {
            if i == 0 {
                assert(out[0] == m);
            } else {
                assert(out[i] == sorted_keys(rest)[i - 1]);
                assert(rest.contains(out[i]));
            }
        }
        assert forall|k: Seq<u8>| s.contains(k) implies out.contains(k) by {
            if k == m {
                assert(out[0] == m);
            } else {
                assert(rest.contains(k));
                let j = choose|j: int|
                    0 <= j < sorted_keys(rest).len() && sorted_keys(rest)[j] == k;
                assert(out[j + 1] == k);
            }
        }
        assert forall|i: int, j: int| 0 <= i < j < out.len() implies lex_lt(out[i], out[j]) by {
            if i == 0 {
                assert(out[j] == sorted_keys(rest)[j - 1]);
                assert(rest.contains(out[j]));
                assert(s.contains(out[j]));
                assert(out[j] != m);
                assert(lex_leq(m, out[j]));
            } else {
                assert(out[i] == sorted_keys(rest)[i - 1]);
                assert(out[j] == sorted_keys(rest)[j - 1]);
            }
        }
    }
}

/// Any listing of a finite key set that is strictly ascending and
/// complete is the ordered listing.
pub proof fn lemma_sorted_keys_unique(s: Set<Seq<u8>>, ks: Seq<Seq<u8>>)
    requires
        s.finite(),
        forall|i: int| 0 <= i < ks.len() ==> s.contains(#[trigger] ks[i]),
        forall|k: Seq<u8>| s.contains(k) ==> ks.contains(k),
        forall|i: int, j: int| 0 <= i < j < ks.len() ==> lex_lt(#[trigger] ks[i], #[trigger] ks[j]),
    ensures
        ks == sorted_keys(s),
    decreases s.len(),
{
    lemma_lex_total_ordering();
    if s.len() == 0 {
        if ks.len() > 0 {
            assert(s.contains(ks[0]));
        }
        assert(ks =~= sorted_keys(s));
    } else {
        let m = s.find_unique_minimal(lex_leq_fn());
        lemma_min_least(s);
        assert(s.contains(m));
        assert(ks.contains(m));
        assert(ks.len() > 0);
        // the head must be the minimum
        let j = choose|j: int| 0 <= j < ks.len() && ks[j] == m;
        assert(ks[0] == m) by {
            if j > 0 {
                assert(lex_lt(ks[0], ks[j]));
                assert(s.contains(ks[0]));
                assert(lex_leq(m, ks[0]));
                lemma_lex_lt_asym(ks[0], m);
            }
        }
        let rest = s.remove(m);
        let kt = ks.drop_first();
        assert forall|i: int| 0 <= i < kt.len() implies rest.contains(#[trigger] kt[i]) by {
            assert(kt[i] == ks[i + 1]);
            assert(lex_lt(ks[0], ks[i + 1]));
            lemma_lex_lt_asym(ks[0], ks[i + 1]);
            assert(ks[i + 1] != m);
        }
        assert forall|k: Seq<u8>| rest.contains(k) implies kt.contains(k) by {
            assert(s.contains(k));
            let j2 = choose|j2: int| 0 <= j2 < ks.len() && ks[j2] == k;
            assert(j2 > 0) by {
                if j2 == 0 {
                    assert(k == m);
                }
            }
            assert(kt[j2 - 1] == k);
        }
        assert forall|i: int, j2: int| 0 <= i < j2 < kt.len() implies lex_lt(
            #[trigger] kt[i],
            #[trigger] kt[j2],
        ) by {
            assert(kt[i] == ks[i + 1]);
            assert(kt[j2] == ks[j2 + 1]);
        }
        lemma_sorted_keys_unique(rest, kt);
        assert(ks =~= seq![m] + kt);
    }
}

/// The view of a vector of byte-string pairs.
pub open spec fn pairs_view(s: Seq<(Vec<u8>, Vec<u8>)>) -> Seq<(Seq<u8>, Seq<u8>)> {
    s.map(|i: int, kv: (Vec<u8>, Vec<u8>)| (kv.0@, kv.1@))
}

/// `m2` is `m` after some subset of a batch's keyed writes: each key is
/// either untouched or carries the value the whole batch would give it.
pub open spec fn batch_partial(
    m: Map<Seq<u8>, Seq<u8>>,
    entries: Seq<(Seq<u8>, Seq<u8>)>,
    m2: Map<Seq<u8>, Seq<u8>>,
) -> bool {
    forall|k: Seq<u8>|
        ((#[trigger] m2.dom().contains(k)) == m.dom().contains(k) && (m.dom().contains(k)
            ==> m2[k] == m[k])) || (m2.dom().contains(k) == insert_all(m, entries).dom().contains(
            k,
        ) && (insert_all(m, entries).dom().contains(k) ==> m2[k] == insert_all(m, entries)[k]))
}

/// `m` after writing all `entries` in order; a later entry for the same
/// key wins.
pub open spec fn insert_all(m: Map<Seq<u8>, Seq<u8>>, entries: Seq<(Seq<u8>, Seq<u8>)>) -> Map<
    Seq<u8>,
    Seq<u8>,
>
    decreases entries.len(),
{
    if entries.len() == 0 {
        m
    } else {
        insert_all(m.insert(entries[0].0, entries[0].1), entries.drop_first())
    }
}

impl StorageEngine {
    /// Relies on `sled::Config::open` with `temporary(true)`: a fresh
    /// non-durable store holding nothing.
    #[verifier::external_body]
    pub fn memory() -> (r: Result<StorageEngine, StorageError>)
        ensures
            r matches Ok(e) ==> e@ == db_view(e.db) && e@ == empty_store(),
    {
        let config = sled::Config::new().temporary(true);
        match config.open() {
            Ok(db) => Ok(StorageEngine { db }),
            Err(e) => Err(StorageError::OpenError(e.to_string())),
        }
    }

    /// Relies on `sled::open`: opens the durable store at `path`, holding
    /// whatever was persisted there — a finite map.
    #[verifier::external_body]
    pub fn new(path: &str) -> (r: Result<StorageEngine, StorageError>)
        ensures
            r matches Ok(e) ==> e@.dom().finite(),
    {
        match sled::open(path) {
            Ok(db) => Ok(StorageEngine { db }),
            Err(e) => Err(StorageError::OpenError(e.to_string())),
        }
    }

    /// Relies on `sled::Tree::insert` and `flush`: on success the key maps
    /// to the value; on failure the write may or may not have applied.
    #[verifier::external_body]
    pub fn set(&mut self, key: &Vec<u8>, value: &Vec<u8>) -> (r: Result<(), StorageError>)
        ensures
            r is Ok ==> final(self)@ == old(self)@.insert(key@, value@),
            r is Err ==> final(self)@ == old(self)@ || final(self)@ == old(self)@.insert(
                key@,
                value@,
            ),
    {
        if let Err(e) = self.db.insert(key.as_slice(), value.as_slice()) {
            return Err(StorageError::WriteError(e.to_string()));
        }
        match self.db.flush() {
            Ok(_) => Ok(()),
            Err(e) => Err(StorageError::WriteError(e.to_string())),
        }
    }

    /// Relies on `sled::Tree::get`: returns the value the key maps to.
    #[verifier::external_body]
    pub fn get(&self, key: &Vec<u8>) -> (r: Result<Option<Vec<u8>>, StorageError>)
        ensures
            r matches Ok(o) ==> (o is Some <==> self@.dom().contains(key@)),
            r matches Ok(o) ==> (o matches Some(v) ==> self@[key@] == v@),
    {
        match self.db.get(key.as_slice()) {
            Ok(Some(iv)) => Ok(Some(iv.to_vec())),
            Ok(None) => Ok(None),
            Err(e) => Err(StorageError::ReadError(e.to_string())),
        }
    }

    /// Relies on `sled::Tree::remove`: on success the key is gone; on
    /// failure the removal may or may not have applied.
    #[verifier::external_body]
    pub fn delete(&mut self, key: &Vec<u8>) -> (r: Result<(), StorageError>)
        ensures
            r is Ok ==> final(self)@ == old(self)@.remove(key@),
            r is Err ==> final(self)@ == old(self)@ || final(self)@ == old(self)@.remove(key@),
    {
        match self.db.remove(key.as_slice()) {
            Ok(_) => Ok(()),
            Err(e) => Err(StorageError::WriteError(e.to_string())),
        }
    }

    /// Relies on `sled::Tree::scan_prefix`: yields exactly the entries
    /// whose key starts with the prefix, in ascending byte order of keys.
    #[verifier::external_body]
    pub fn scan_prefix(&self, prefix: &Vec<u8>) -> (r: Result<
        Vec<(Vec<u8>, Vec<u8>)>,
        StorageError,
    >)
        ensures
            r matches Ok(s) ==> {
                let sv = pairs_view(s@);
                &&& forall|i: int|
                    0 <= i < sv.len() ==> has_prefix(#[trigger] sv[i].0, prefix@)
                        && self@.contains_pair(sv[i].0, sv[i].1)
                &&& forall|k: Seq<u8>|
                    self@.dom().contains(k) && has_prefix(k, prefix@) ==> exists|i: int|
                        0 <= i < sv.len() && (#[trigger] sv[i].0) == k
                &&& forall|i: int, j: int|
                    0 <= i < j < sv.len() ==> lex_lt(#[trigger] sv[i].0, #[trigger] sv[j].0)
            },
    {
        let mut out = Vec::new();
        for item in self.db.scan_prefix(prefix.as_slice()) {
            match item {
                Ok((k, v)) => out.push((k.to_vec(), v.to_vec())),
                Err(e) => return Err(StorageError::ReadError(e.to_string())),
            }
        }
        Ok(out)
    }

    /// Relies on `sled::Tree::apply_batch` and `flush`: on success every
    /// entry is written, as one batch; on failure some subset of the
    /// keyed writes may have applied, each key either untouched or
    /// carrying its final batched value.
    #[verifier::external_body]
    pub fn batch_set(&mut self, entries: &Vec<(Vec<u8>, Vec<u8>)>) -> (r: Result<
        (),
        StorageError,
    >)
        ensures
            r is Ok ==> final(self)@ == insert_all(old(self)@, pairs_view(entries@)),
            r is Err ==> batch_partial(old(self)@, pairs_view(entries@), final(self)@),
    {
        let mut batch = sled::Batch::default();
        for (k, v) in entries.iter() {
            batch.insert(k.as_slice(), v.as_slice());
        }
        if let Err(e) = self.db.apply_batch(batch) {
            return Err(StorageError::WriteError(e.to_string()));
        }
        match self.db.flush() {
            Ok(_) => Ok(()),
            Err(e) => Err(StorageError::WriteError(e.to_string())),
        }
    }

    /// Relies on `sled::Tree::flush`: persists what is already held;
    /// the contents do not change.
    #[verifier::external_body]
    pub fn flush(&self) -> (r: Result<(), StorageError>)
    {
        match self.db.flush() {
            Ok(_) => Ok(()),
            Err(e) => Err(StorageError::WriteError(e.to_string())),
        }
    }
}

/// A scan result with the contract's three properties is the ordered
/// listing `scan_spec` describes.
pub proof fn lemma_scan_is_spec(
    m: Map<Seq<u8>, Seq<u8>>,
    p: Seq<u8>,
    sv: Seq<(Seq<u8>, Seq<u8>)>,
)
    requires
        m.dom().finite(),
        forall|i: int|
            0 <= i < sv.len() ==> has_prefix(#[trigger] sv[i].0, p) && m.contains_pair(
                sv[i].0,
                sv[i].1,
            ),
        forall|k: Seq<u8>|
            m.dom().contains(k) && has_prefix(k, p) ==> exists|i: int|
                0 <= i < sv.len() && (#[trigger] sv[i].0) == k,
        forall|i: int, j: int|
            0 <= i < j < sv.len() ==> lex_lt(#[trigger] sv[i].0, #[trigger] sv[j].0),
    ensures
        sv == scan_spec(m, p),
{
    let s = matching_keys(m, p);
    assert(s.finite()) by {
        assert(s =~= m.dom().intersect(Set::new(|k: Seq<u8>| has_prefix(k, p))));
        vstd::set_lib::lemma_len_intersect(
            m.dom(),
            Set::new(|k: Seq<u8>| has_prefix(k, p)),
        );
    }
    let ks = sv.map(|i: int, kv: (Seq<u8>, Seq<u8>)| kv.0);
    assert forall|i: int| 0 <= i < ks.len() implies s.contains(#[trigger] ks[i]) by {
        assert(ks[i] == sv[i].0);
    }
    assert forall|k: Seq<u8>| s.contains(k) implies ks.contains(k) by {
        let i = choose|i: int| 0 <= i < sv.len() && sv[i].0 == k;
        assert(ks[i] == k);
    }
    assert forall|i: int, j: int| 0 <= i < j < ks.len() implies lex_lt(
        #[trigger] ks[i],
        #[trigger] ks[j],
    ) by {
        assert(ks[i] == sv[i].0);
        assert(ks[j] == sv[j].0);
    }
    lemma_sorted_keys_unique(s, ks);
    assert(sv =~= scan_spec(m, p)) by {
        assert(scan_spec(m, p).len() == sorted_keys(s).len());
        assert(ks.len() == sv.len());
        assert forall|i: int| 0 <= i < sv.len() implies sv[i] == scan_spec(m, p)[i] by {
            assert(scan_spec(m, p)[i] == (sorted_keys(s)[i], m[sorted_keys(s)[i]]));
            assert(sorted_keys(s)[i] == ks[i]);
            assert(ks[i] == sv[i].0);
            assert(m.contains_pair(sv[i].0, sv[i].1));
        }
    }
}

/// Basic facts about a scan of a finite store: every listed entry is in
/// the store under the prefix, every such key is listed once, and keys
/// ascend strictly.
pub proof fn lemma_scan_spec_props(m: Map<Seq<u8>, Seq<u8>>, p: Seq<u8>)
    requires
        m.dom().finite(),
    ensures
        forall|i: int|
            0 <= i < scan_spec(m, p).len() ==> has_prefix(#[trigger] scan_spec(m, p)[i].0, p)
                && m.contains_pair(scan_spec(m, p)[i].0, scan_spec(m, p)[i].1),
        forall|k: Seq<u8>|
            m.dom().contains(k) && has_prefix(k, p) ==> exists|i: int|
                0 <= i < scan_spec(m, p).len() && (#[trigger] scan_spec(m, p)[i].0) == k,
        forall|i: int, j: int|
            0 <= i < j < scan_spec(m, p).len() ==> lex_lt(scan_spec(m, p)[i].0, scan_spec(m, p)[j].0),
        scan_spec(m, p).len() == matching_keys(m, p).len(),
{
    let s = matching_keys(m, p);
    assert(s.finite()) by {
        assert(s =~= m.dom().intersect(Set::new(|k: Seq<u8>| has_prefix(k, p))));
        vstd::set_lib::lemma_len_intersect(
            m.dom(),
            Set::new(|k: Seq<u8>| has_prefix(k, p)),
        );
    }
    lemma_sorted_keys_props(s);
    let out = scan_spec(m, p);
    assert forall|i: int| 0 <= i < out.len() implies has_prefix(#[trigger] out[i].0, p)
        && m.contains_pair(out[i].0, out[i].1) by {
        assert(out[i].0 == sorted_keys(s)[i]);
        assert(s.contains(out[i].0));
    }
    assert forall|k: Seq<u8>| m.dom().contains(k) && has_prefix(k, p) implies exists|i: int|
        0 <= i < out.len() && (#[trigger] out[i].0) == k by {
        assert(s.contains(k));
        assert(sorted_keys(s).contains(k));
        let i = choose|i: int| 0 <= i < sorted_keys(s).len() && sorted_keys(s)[i] == k;
        assert(out[i].0 == k);
    }
}

} // verus!
