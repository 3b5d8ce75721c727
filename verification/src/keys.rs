//! The key layout: two disjoint byte-prefix regions share the store.
//! Catalog entries live under `catalog:name`; rows live under
//! `data:table:` followed by an eight-byte big-endian stamp, so that a
//! byte-lexicographic scan returns rows in stamp order.

use vstd::prelude::*;
use vstd::utf8::{encode_utf8, is_ascii_chars, is_ascii_chars_encode_utf8};
use crate::codec::be_bytes;

verus! {

pub open spec fn catalog_prefix_spec() -> Seq<u8> {
    encode_utf8("catalog:"@)
}

pub open spec fn data_tag_spec() -> Seq<u8> {
    encode_utf8("data:"@)
}

/// The catalog key of a table.
pub open spec fn catalog_key_spec(name: Seq<char>) -> Seq<u8> {
    catalog_prefix_spec() + encode_utf8(name)
}

/// The prefix every row key of a table starts with; the trailing colon
/// separates the table name from the stamp.
pub open spec fn data_prefix_spec(table: Seq<char>) -> Seq<u8> {
    data_tag_spec() + encode_utf8(table) + encode_utf8(":"@)
}

/// A row key: the table's data prefix and a stamp.
pub open spec fn row_key_spec(table: Seq<char>, stamp: u64) -> Seq<u8> {
    data_prefix_spec(table) + be_bytes(stamp as nat, 8)
}

/// `p` is an initial run of `k`.
pub open spec fn has_prefix(k: Seq<u8>, p: Seq<u8>) -> bool {
    p.len() <= k.len() && k.subrange(0, p.len() as int) == p
}

/// Builds the catalog key of a table.
pub fn catalog_key(name: &str) -> (k: Vec<u8>)
    ensures
        k@ == catalog_key_spec(name@),
{
    let mut k: Vec<u8> = Vec::new();
    k.extend_from_slice("catalog:".as_bytes());
    k.extend_from_slice(name.as_bytes());
    proof {
        assert(k@ =~= catalog_key_spec(name@));
    }
    k
}

/// Builds the catalog region's prefix.
pub fn catalog_prefix_vec() -> (p: Vec<u8>)
    ensures
        p@ == catalog_prefix_spec(),
{
    let mut p: Vec<u8> = Vec::new();
    p.extend_from_slice("catalog:".as_bytes());
    proof {
        assert(p@ =~= catalog_prefix_spec());
    }
    p
}

/// Builds the data prefix of a table.
pub fn data_prefix(table: &str) -> (p: Vec<u8>)
    ensures
        p@ == data_prefix_spec(table@),
{
    let mut p: Vec<u8> = Vec::new();
    p.extend_from_slice("data:".as_bytes());
    p.extend_from_slice(table.as_bytes());
    p.extend_from_slice(":".as_bytes());
    proof {
        assert(p@ =~= data_prefix_spec(table@));
    }
    p
}

/// Builds the row key for a stamp under a prepared data prefix.
pub fn row_key(prefix: &Vec<u8>, stamp: u64) -> (k: Vec<u8>)
    ensures
        k@ == prefix@ + be_bytes(stamp as nat, 8),
{
    let mut k: Vec<u8> = Vec::new();
    k.extend_from_slice(prefix.as_slice());
    crate::codec::push_be(stamp, 8, &mut k);
    k
}

/// The first byte of the catalog region differs from the first byte of
/// the data region, so no key lies in both.
pub proof fn lemma_regions_disjoint(name: Seq<char>, table: Seq<char>, suffix: Seq<u8>)
    ensures
        !has_prefix(catalog_key_spec(name), data_prefix_spec(table)),
        !has_prefix(data_prefix_spec(table) + suffix, catalog_prefix_spec()),
{
    reveal_strlit("catalog:");
    reveal_strlit("data:");
    assert(is_ascii_chars("catalog:"@));
    assert(is_ascii_chars("data:"@));
    is_ascii_chars_encode_utf8("catalog:"@);
    is_ascii_chars_encode_utf8("data:"@);
    assert(catalog_prefix_spec().len() == 8);
    assert(data_tag_spec().len() == 5);
    assert(catalog_prefix_spec()[0] == 'c' as u8);
    assert(data_tag_spec()[0] == 'd' as u8);
    assert(catalog_key_spec(name)[0] == 'c' as u8);
    assert(data_prefix_spec(table)[0] == 'd' as u8);
    assert((data_prefix_spec(table) + suffix)[0] == 'd' as u8);
    if has_prefix(catalog_key_spec(name), data_prefix_spec(table)) {
        assert(catalog_key_spec(name).subrange(0, data_prefix_spec(table).len() as int)[0]
            == catalog_key_spec(name)[0]);
    }
    if has_prefix(data_prefix_spec(table) + suffix, catalog_prefix_spec()) {
        assert((data_prefix_spec(table) + suffix).subrange(0, 8)[0] == (data_prefix_spec(
            table,
        ) + suffix)[0]);
    }
}

/// A key with a data prefix never has the catalog prefix: its first byte
/// already differs.
pub proof fn lemma_data_key_not_catalog(k: Seq<u8>, table: Seq<char>)
    requires
        has_prefix(k, data_prefix_spec(table)),
    ensures
        !has_prefix(k, catalog_prefix_spec()),
        forall|n: Seq<char>| k != catalog_key_spec(n),
{
    reveal_strlit("catalog:");
    reveal_strlit("data:");
    assert(is_ascii_chars("catalog:"@));
    assert(is_ascii_chars("data:"@));
    is_ascii_chars_encode_utf8("catalog:"@);
    is_ascii_chars_encode_utf8("data:"@);
    assert(k.subrange(0, data_prefix_spec(table).len() as int)[0] == k[0]);
    assert(k[0] == 'd' as u8);
    if has_prefix(k, catalog_prefix_spec()) {
        assert(k.subrange(0, 8)[0] == k[0]);
    }
    assert forall|n: Seq<char>| k != catalog_key_spec(n) by {
        if k == catalog_key_spec(n) {
            assert(k[0] == catalog_key_spec(n)[0]);
        }
    }
}

/// A catalog key never lies in the data region.
pub proof fn lemma_catalog_key_not_tag(name: Seq<char>)
    ensures
        !has_prefix(catalog_key_spec(name), data_tag_spec()),
{
    reveal_strlit("catalog:");
    reveal_strlit("data:");
    assert(is_ascii_chars("catalog:"@));
    assert(is_ascii_chars("data:"@));
    is_ascii_chars_encode_utf8("catalog:"@);
    is_ascii_chars_encode_utf8("data:"@);
    assert(catalog_key_spec(name)[0] == 'c' as u8);
    assert(data_tag_spec()[0] == 'd' as u8);
    if has_prefix(catalog_key_spec(name), data_tag_spec()) {
        assert(catalog_key_spec(name).subrange(0, 5)[0] == catalog_key_spec(name)[0]);
    }
}

/// A key in the data region is not a catalog key, and a row key always
/// lies in the data region.
pub proof fn lemma_data_prefix_tag(table: Seq<char>, k: Seq<u8>)
    requires
        has_prefix(k, data_prefix_spec(table)),
    ensures
        has_prefix(k, data_tag_spec()),
{
    assert(data_tag_spec().len() <= data_prefix_spec(table).len()) by {
        assert(data_prefix_spec(table).len() == data_tag_spec().len() + encode_utf8(table).len()
            + encode_utf8(":"@).len());
    }
    assert forall|i: int| 0 <= i < data_tag_spec().len() implies k.subrange(
        0,
        data_tag_spec().len() as int,
    )[i] == data_tag_spec()[i] by {
        assert(k.subrange(0, data_prefix_spec(table).len() as int)[i] == k[i]);
        assert(data_prefix_spec(table)[i] == data_tag_spec()[i]);
        assert(k.subrange(0, data_tag_spec().len() as int)[i] == k[i]);
    }
    assert(k.subrange(0, data_tag_spec().len() as int) =~= data_tag_spec());
}

/// Row keys of one table scan in stamp order: a fresh stamp sorts after
/// every earlier one, so a byte-lexicographic scan returns rows in
/// insertion order — the tie-break a stable `ORDER BY` preserves.
pub proof fn lemma_row_key_order(table: Seq<char>, s1: u64, s2: u64)
    requires
        s1 < s2,
    ensures
        crate::storage::lex_lt(row_key_spec(table, s1), row_key_spec(table, s2)),
{
    crate::codec::lemma_pow256_8();
    crate::codec::lemma_be_bytes_mono(s1 as nat, s2 as nat, 8);
    crate::storage::lemma_lex_prefix(
        data_prefix_spec(table),
        be_bytes(s1 as nat, 8),
        be_bytes(s2 as nat, 8),
    );
}

/// A catalog key never has a data prefix.
pub proof fn lemma_catalog_key_not_data(name: Seq<char>, table: Seq<char>)
    ensures
        !has_prefix(catalog_key_spec(name), data_prefix_spec(table)),
{
    lemma_regions_disjoint(name, table, Seq::empty());
}

} // verus!
