//! The catalog: a persisted directory of table schemas, stored in the
//! same key space as the data under its own prefix. A schema is encoded
//! as the table name followed by `(column name, type discriminator)`
//! pairs, the discriminator drawn from a fixed vocabulary so decoding is
//! self-describing.

use vstd::prelude::*;
use vstd::string::StringExecFns;
use vstd::utf8::encode_utf8;
use crate::codec::{be_bytes, dec_be, dec_chunk, enc_chunk, lemma_be_bytes_len,
    lemma_be_roundtrip, lemma_chunk_roundtrip, lemma_dec_be_bound, lemma_pow256_8, pow256,
    push_be, push_chunk, read_chunk};
use crate::keys::{catalog_key, catalog_key_spec};
use crate::stmt::{cols_view, Column, ColumnS, TableSchema};
use crate::storage::{StorageEngine, StorageError};
use crate::text::{string_from_chars, text_cmp_spec, text_compare, lemma_text_cmp_eq};
use crate::value::DataType;

verus! {

/// The persisted discriminator of a declared type.
pub open spec fn type_name_spec(dt: DataType) -> Seq<char> {
    match dt {
        DataType::Integer => "Integer"@,
        DataType::Float => "Float"@,
        DataType::Text => "Text"@,
        DataType::Boolean => "Boolean"@,
        DataType::Null => "Null"@,
    }
}

/// The declared type a discriminator denotes; anything unknown reads as
/// `Null`.
pub open spec fn parse_data_type_spec(s: Seq<char>) -> DataType {
    if s == "Integer"@ {
        DataType::Integer
    } else if s == "Float"@ {
        DataType::Float
    } else if s == "Text"@ {
        DataType::Text
    } else if s == "Boolean"@ {
        DataType::Boolean
    } else {
        DataType::Null
    }
}

/// The five discriminators are pairwise distinct, so decoding restores
/// every declared type.
pub proof fn lemma_type_name_roundtrip(dt: DataType)
    ensures
        dt != DataType::Null ==> parse_data_type_spec(type_name_spec(dt)) == dt,
{
    reveal_strlit("Integer");
    reveal_strlit("Float");
    reveal_strlit("Text");
    reveal_strlit("Boolean");
    assert("Integer"@.len() == 7 && "Float"@.len() == 5 && "Text"@.len() == 4 && "Boolean"@.len()
        == 7);
    assert("Integer"@[0] == 'I' && "Boolean"@[0] == 'B');
}

/// Prints the discriminator of a declared type.
pub fn type_label(dt: DataType) -> (r: String)
    ensures
        r@ == type_name_spec(dt),
{
    match dt {
        DataType::Integer => String::from_str("Integer"),
        DataType::Float => String::from_str("Float"),
        DataType::Text => String::from_str("Text"),
        DataType::Boolean => String::from_str("Boolean"),
        DataType::Null => String::from_str("Null"),
    }
}

/// Reads a discriminator, exactly as `parse_data_type_spec` describes.
pub fn parse_data_type(s: &str) -> (r: DataType)
    ensures
        r == parse_data_type_spec(s@),
{
    proof {
        lemma_text_cmp_eq(s@, "Integer"@);
        lemma_text_cmp_eq(s@, "Float"@);
        lemma_text_cmp_eq(s@, "Text"@);
        lemma_text_cmp_eq(s@, "Boolean"@);
    }
    if text_compare(s, "Integer") == 0 {
        DataType::Integer
    } else if text_compare(s, "Float") == 0 {
        DataType::Float
    } else if text_compare(s, "Text") == 0 {
        DataType::Text
    } else if text_compare(s, "Boolean") == 0 {
        DataType::Boolean
    } else {
        DataType::Null
    }
}

/// The encodings of the column pairs, concatenated.
pub open spec fn enc_cols(cols: Seq<ColumnS>) -> Seq<u8>
    decreases cols.len(),
{
    if cols.len() == 0 {
        Seq::empty()
    } else {
        enc_chunk(cols[0].name) + enc_chunk(type_name_spec(cols[0].data_type)) + enc_cols(
            cols.drop_first(),
        )
    }
}

/// The encoded catalog entry of a schema.
pub open spec fn enc_schema_spec(name: Seq<char>, cols: Seq<ColumnS>) -> Seq<u8> {
    enc_chunk(name) + be_bytes(cols.len(), 8) + enc_cols(cols)
}

/// Reads `n` column pairs at `pos`.
pub open spec fn dec_cols(b: Seq<u8>, pos: int, n: nat) -> Option<(Seq<ColumnS>, int)>
    decreases n,
{
    if n == 0 {
        Some((Seq::empty(), pos))
    } else {
        match dec_chunk(b, pos) {
            Some((cn, p1)) => match dec_chunk(b, p1) {
                Some((tn, p2)) => match dec_cols(b, p2, (n - 1) as nat) {
                    Some((rest, p3)) => Some(
                        (
                            seq![ColumnS { name: cn, data_type: parse_data_type_spec(tn) }] + rest,
                            p3,
                        ),
                    ),
                    None => None,
                },
                None => None,
            },
            None => None,
        }
    }
}

/// What decoding a catalog value yields: the table name and its columns;
/// the whole buffer must be consumed.
pub open spec fn dec_schema_spec(b: Seq<u8>) -> Option<(Seq<char>, Seq<ColumnS>)> {
    match dec_chunk(b, 0) {
        Some((name, p0)) => if p0 + 8 <= b.len() {
            let n = dec_be(b.subrange(p0, p0 + 8));
            match dec_cols(b, p0 + 8, n) {
                Some((cols, p)) => if p == b.len() {
                    Some((name, cols))
                } else {
                    None
                },
                None => None,
            }
        } else {
            None
        },
        None => None,
    }
}

/// Size conditions under which a schema's encoding is faithful.
pub open spec fn schema_size_ok(name: Seq<char>, cols: Seq<ColumnS>) -> bool {
    &&& encode_utf8(name).len() < 0x1_0000_0000_0000_0000
    &&& cols.len() < 0x1_0000_0000_0000_0000
    &&& forall|i: int|
        0 <= i < cols.len() ==> encode_utf8((#[trigger] cols[i]).name).len()
            < 0x1_0000_0000_0000_0000
}

/// Encoding then decoding a schema is the identity, as long as no column
/// carries the `Null` pseudo-type.
pub proof fn lemma_schema_roundtrip(name: Seq<char>, cols: Seq<ColumnS>)
    requires
        schema_size_ok(name, cols),
        forall|i: int| 0 <= i < cols.len() ==> (#[trigger] cols[i]).data_type != DataType::Null,
    ensures
        dec_schema_spec(enc_schema_spec(name, cols)) == Some((name, cols)),
{
    let b = enc_schema_spec(name, cols);
    let c0 = enc_chunk(name);
    assert(b.subrange(0, c0.len() as int) =~= c0);
    lemma_chunk_roundtrip(b, 0, name);
    let p0 = c0.len() as int;
    lemma_be_bytes_len(cols.len(), 8);
    assert(b.subrange(p0, p0 + 8) =~= be_bytes(cols.len(), 8));
    lemma_pow256_8();
    lemma_be_roundtrip(cols.len(), 8);
    assert(b.subrange(p0 + 8, p0 + 8 + enc_cols(cols).len() as int) =~= enc_cols(cols));
    lemma_cols_roundtrip(b, p0 + 8, cols);
}

proof fn lemma_cols_roundtrip(b: Seq<u8>, pos: int, cols: Seq<ColumnS>)
    requires
        0 <= pos,
        pos + enc_cols(cols).len() <= b.len(),
        b.subrange(pos, pos + enc_cols(cols).len()) == enc_cols(cols),
        forall|i: int|
            0 <= i < cols.len() ==> encode_utf8((#[trigger] cols[i]).name).len()
                < 0x1_0000_0000_0000_0000,
        forall|i: int| 0 <= i < cols.len() ==> (#[trigger] cols[i]).data_type != DataType::Null,
    ensures
        dec_cols(b, pos, cols.len()) == Some((cols, pos + enc_cols(cols).len())),
    decreases cols.len(),
{
    if cols.len() == 0 {
        assert(cols =~= Seq::<ColumnS>::empty());
    } else {
        let c = cols[0];
        let e1 = enc_chunk(c.name);
        let e2 = enc_chunk(type_name_spec(c.data_type));
        let rest = enc_cols(cols.drop_first());
        assert(enc_cols(cols) == e1 + e2 + rest);
        assert(b.subrange(pos, pos + e1.len() as int) =~= (e1 + e2 + rest).subrange(
            0,
            e1.len() as int,
        ));
        assert((e1 + e2 + rest).subrange(0, e1.len() as int) =~= e1);
        lemma_chunk_roundtrip(b, pos, c.name);
        let p1 = pos + e1.len();
        assert(b.subrange(p1, p1 + e2.len() as int) =~= (e1 + e2 + rest).subrange(
            e1.len() as int,
            (e1.len() + e2.len()) as int,
        ));
        assert((e1 + e2 + rest).subrange(e1.len() as int, (e1.len() + e2.len()) as int) =~= e2);
        lemma_type_name_size(c.data_type);
        lemma_chunk_roundtrip(b, p1, type_name_spec(c.data_type));
        let p2 = p1 + e2.len();
        assert(b.subrange(p2, p2 + rest.len() as int) =~= (e1 + e2 + rest).subrange(
            (e1.len() + e2.len()) as int,
            (e1 + e2 + rest).len() as int,
        ));
        assert((e1 + e2 + rest).subrange((e1.len() + e2.len()) as int, (e1 + e2 + rest).len() as int)
            =~= rest);
        assert(forall|i: int|
            0 <= i < cols.drop_first().len() ==> cols.drop_first()[i] == cols[i + 1]);
        lemma_cols_roundtrip(b, p2, cols.drop_first());
        lemma_type_name_roundtrip(c.data_type);
        assert(seq![
            ColumnS {
                name: c.name,
                data_type: parse_data_type_spec(type_name_spec(c.data_type)),
            },
        ] + cols.drop_first() =~= cols);
    }
}

/// The discriminators are short ASCII words.
proof fn lemma_type_name_size(dt: DataType)
    ensures
        encode_utf8(type_name_spec(dt)).len() < 0x1_0000_0000_0000_0000,
{
    reveal_strlit("Integer");
    reveal_strlit("Float");
    reveal_strlit("Text");
    reveal_strlit("Boolean");
    reveal_strlit("Null");
    let s = type_name_spec(dt);
    assert(vstd::utf8::is_ascii_chars(s));
    vstd::utf8::is_ascii_chars_encode_utf8(s);
}

/// Encodes a schema for the catalog.
pub fn encode_schema(name: &str, columns: &Vec<Column>) -> (out: Vec<u8>)
    ensures
        out@ == enc_schema_spec(name@, cols_view(columns@)),
{
    let mut out: Vec<u8> = Vec::new();
    push_chunk(name, &mut out);
    let n = columns.len();
    push_be(n as u64, 8, &mut out);
    let ghost cv = cols_view(columns@);
    let ghost head = enc_chunk(name@) + be_bytes(cv.len(), 8);
    let mut i: usize = 0;
    proof {
        assert(out@ =~= head + enc_cols(cv.take(0)));
    }
    while i < n
        invariant
            0 <= i <= n,
            n == columns@.len(),
            cv == cols_view(columns@),
            head == enc_chunk(name@) + be_bytes(cv.len(), 8),
            out@ == head + enc_cols(cv.take(i as int)),
        decreases n - i,
    {
        proof {
            assert(cv[i as int] == columns@[i as int]@);
        }
        let c = &columns[i];
        push_chunk(c.name.as_str(), &mut out);
        let tn = type_label(c.data_type);
        push_chunk(tn.as_str(), &mut out);
        proof {
            lemma_enc_cols_snoc(cv, i as int);
            assert(out@ =~= head + enc_cols(cv.take(i + 1)));
        }
        i = i + 1;
    }
    proof {
        assert(cv.take(n as int) =~= cv);
        assert(out@ =~= enc_schema_spec(name@, cv));
    }
    out
}

proof fn lemma_enc_cols_snoc(cols: Seq<ColumnS>, i: int)
    requires
        0 <= i < cols.len(),
    ensures
        enc_cols(cols.take(i + 1)) == enc_cols(cols.take(i)) + (enc_chunk(cols[i].name)
            + enc_chunk(type_name_spec(cols[i].data_type))),
    decreases cols.len(),
{
    lemma_enc_cols_push(cols.take(i as int), cols[i]);
    assert(cols.take(i + 1) =~= cols.take(i as int).push(cols[i]));
}

proof fn lemma_enc_cols_push(s: Seq<ColumnS>, x: ColumnS)
    ensures
        enc_cols(s.push(x)) == enc_cols(s) + (enc_chunk(x.name) + enc_chunk(
            type_name_spec(x.data_type),
        )),
    decreases s.len(),
{
    let ex = enc_chunk(x.name) + enc_chunk(type_name_spec(x.data_type));
    if s.len() == 0 {
        assert(s.push(x)[0] == x);
        assert(s.push(x).drop_first() =~= Seq::<ColumnS>::empty());
        assert(enc_cols(s.push(x)) == enc_chunk(x.name) + enc_chunk(type_name_spec(x.data_type))
            + enc_cols(Seq::<ColumnS>::empty()));
        assert(enc_chunk(x.name) + enc_chunk(type_name_spec(x.data_type)) + Seq::<u8>::empty()
            =~= ex);
        assert(enc_cols(s) + ex =~= ex);
    } else {
        assert(s.push(x)[0] == s[0]);
        assert(s.push(x).drop_first() =~= s.drop_first().push(x));
        lemma_enc_cols_push(s.drop_first(), x);
        let e0 = enc_chunk(s[0].name) + enc_chunk(type_name_spec(s[0].data_type));
        assert(enc_cols(s.push(x)) == enc_chunk(s[0].name) + enc_chunk(
            type_name_spec(s[0].data_type),
        ) + (enc_cols(s.drop_first()) + ex));
        assert(enc_chunk(s[0].name) + enc_chunk(type_name_spec(s[0].data_type)) + (enc_cols(
            s.drop_first(),
        ) + ex) =~= (enc_chunk(s[0].name) + enc_chunk(type_name_spec(s[0].data_type)) + enc_cols(
            s.drop_first(),
        )) + ex);
    }
}

/// Decodes a catalog value, exactly as `dec_schema_spec` describes.
pub fn decode_schema(bytes: &Vec<u8>) -> (r: Option<TableSchema>)
    ensures
        r is Some <==> dec_schema_spec(bytes@) is Some,
        r matches Some(s) ==> dec_schema_spec(bytes@) == Some((s.name@, cols_view(s.columns@))),
{
    let (name, p0) = match read_chunk(bytes, 0) {
        Some(x) => x,
        None => {
            return None;
        },
    };
    let blen = bytes.len();
    let ghost namev = name@;
    proof {
        crate::codec::lemma_dec_chunk_sane(bytes@, 0);
        assert(dec_chunk(bytes@, 0) == Some((namev, p0 as int)));
    }
    if blen - p0 < 8 {
        return None;
    }
    let n64 = crate::codec::read_be_u64(bytes, p0);
    proof {
        lemma_dec_be_bound(bytes@.subrange(p0 as int, p0 + 8));
        lemma_dec_cols_lower(bytes@, p0 + 8, n64 as nat);
    }
    if n64 > ((blen - p0 - 8) / 16) as u64 {
        proof {
            match dec_cols(bytes@, p0 + 8, n64 as nat) {
                Some((cs, p)) => {
                    assert(p - (p0 + 8) >= 16 * (n64 as nat));
                    assert(false);
                },
                None => {},
            }
        }
        return None;
    }
    let n = n64 as usize;
    let mut cols: Vec<Column> = Vec::new();
    let mut pos: usize = p0 + 8;
    let mut i: usize = 0;
    proof {
        match dec_cols(bytes@, p0 + 8, n as nat) {
            Some((cs, p)) => {
                assert(cols_view(cols@) + cs =~= cs);
            },
            None => {},
        }
    }
    while i < n
        invariant
            0 <= i <= n,
            p0 + 8 <= pos <= bytes@.len(),
            cols@.len() == i,
            dec_chunk(bytes@, 0) == Some((namev, p0 as int)),
            dec_be(bytes@.subrange(p0 as int, p0 + 8)) == n as nat,
            dec_cols(bytes@, p0 + 8, n as nat) == (match dec_cols(
                bytes@,
                pos as int,
                (n - i) as nat,
            ) {
                Some((cs, p)) => Some((cols_view(cols@) + cs, p)),
                None => None::<(Seq<ColumnS>, int)>,
            }),
        decreases n - i,
    {
        let (cn, p1) = match read_chunk(bytes, pos) {
            Some(x) => x,
            None => {
                return None;
            },
        };
        proof {
            crate::codec::lemma_dec_chunk_sane(bytes@, pos as int);
        }
        let (tn, p2) = match read_chunk(bytes, p1) {
            Some(x) => x,
            None => {
                return None;
            },
        };
        proof {
            crate::codec::lemma_dec_chunk_sane(bytes@, p1 as int);
        }
        let dt = parse_data_type(tn.as_str());
        let ghost old_cols = cols@;
        let ghost cnv = cn@;
        cols.push(Column { name: cn, data_type: dt });
        proof {
            assert(cols_view(cols@) =~= cols_view(old_cols) + seq![
                ColumnS { name: cnv, data_type: dt },
            ]);
            match dec_cols(bytes@, p2 as int, (n - i - 1) as nat) {
                Some((cs, p)) => {
                    assert(cols_view(old_cols) + (seq![
                        ColumnS { name: cnv, data_type: dt },
                    ] + cs) =~= cols_view(cols@) + cs);
                },
                None => {},
            }
        }
        pos = p2;
        i = i + 1;
    }
    proof {
        assert(cols_view(cols@) + Seq::<ColumnS>::empty() =~= cols_view(cols@));
    }
    if pos == bytes.len() {
        Some(TableSchema { name, columns: cols })
    } else {
        None
    }
}

/// Each decoded column pair consumes at least sixteen bytes.
proof fn lemma_dec_cols_lower(b: Seq<u8>, pos: int, n: nat)
    ensures
        dec_cols(b, pos, n) matches Some((cs, p)) ==> cs.len() == n && p - pos >= 16 * n && (n > 0
            ==> pos <= p <= b.len()),
    decreases n,
{
    if n > 0 {
        match dec_chunk(b, pos) {
            Some((cn, p1)) => {
                crate::codec::lemma_dec_chunk_sane(b, pos);
                match dec_chunk(b, p1) {
                    Some((tn, p2)) => {
                        crate::codec::lemma_dec_chunk_sane(b, p1);
                        lemma_dec_cols_lower(b, p2, (n - 1) as nat);
                    },
                    None => {},
                }
            },
            None => {},
        }
    }
}

/// What looking a table up in the catalog yields.
pub enum CatalogLookup {
    Absent,
    Undecodable,
    Table(Seq<char>, Seq<ColumnS>),
}

/// The schema the catalog holds for `name`.
pub open spec fn cat_get_spec(m: Map<Seq<u8>, Seq<u8>>, name: Seq<char>) -> CatalogLookup {
    let key = catalog_key_spec(name);
    if !m.dom().contains(key) {
        CatalogLookup::Absent
    } else {
        match dec_schema_spec(m[key]) {
            Some((nm, cols)) => CatalogLookup::Table(nm, cols),
            None => CatalogLookup::Undecodable,
        }
    }
}

/// Whether some column declares the `Null` pseudo-type, which create
/// rejects.
pub open spec fn has_null_col(cols: Seq<ColumnS>) -> bool {
    exists|i: int| 0 <= i < cols.len() && (#[trigger] cols[i]).data_type == DataType::Null
}

/// What creating a table does: it is rejected if the catalog key exists
/// or a column declares `Null`; otherwise the encoded schema is written.
pub open spec fn cat_create_spec(
    m: Map<Seq<u8>, Seq<u8>>,
    name: Seq<char>,
    cols: Seq<ColumnS>,
) -> Result<Map<Seq<u8>, Seq<u8>>, crate::storage::ErrKind> {
    if m.dom().contains(catalog_key_spec(name)) {
        Err(crate::storage::ErrKind::Write)
    } else if has_null_col(cols) {
        Err(crate::storage::ErrKind::Write)
    } else {
        Ok(m.insert(catalog_key_spec(name), enc_schema_spec(name, cols)))
    }
}

/// What dropping a table's catalog entry does: the key goes,
/// unconditionally.
pub open spec fn cat_drop_spec(m: Map<Seq<u8>, Seq<u8>>, name: Seq<char>) -> Map<Seq<u8>, Seq<u8>> {
    m.remove(catalog_key_spec(name))
}

/// The names of the decodable catalog entries, in scan order.
pub open spec fn list_names(entries: Seq<(Seq<u8>, Seq<u8>)>) -> Seq<Seq<char>>
    decreases entries.len(),
{
    if entries.len() == 0 {
        Seq::empty()
    } else {
        match dec_schema_spec(entries[0].1) {
            Some((nm, _cols)) => seq![nm] + list_names(entries.drop_first()),
            None => list_names(entries.drop_first()),
        }
    }
}

/// What listing the tables yields.
pub open spec fn cat_list_spec(m: Map<Seq<u8>, Seq<u8>>) -> Seq<Seq<char>> {
    list_names(crate::storage::scan_spec(m, crate::keys::catalog_prefix_spec()))
}

/// Creates a table in the catalog, exactly as `cat_create_spec`
/// describes; a rejected create leaves the store unchanged.
pub fn cat_create(store: &mut StorageEngine, name: &str, columns: &Vec<Column>) -> (r: Result<
    (),
    StorageError,
>)
    requires
        old(store)@.dom().finite(),
    ensures
        final(store)@.dom().finite(),
        r is Ok ==> cat_create_spec(old(store)@, name@, cols_view(columns@)) == Ok::<
            Map<Seq<u8>, Seq<u8>>,
            crate::storage::ErrKind,
        >(final(store)@),
        cat_create_spec(old(store)@, name@, cols_view(columns@)) is Err ==> r is Err
            && final(store)@ == old(store)@,
        r is Err ==> final(store)@ == old(store)@ || cat_create_spec(
            old(store)@,
            name@,
            cols_view(columns@),
        ) == Ok::<Map<Seq<u8>, Seq<u8>>, crate::storage::ErrKind>(final(store)@),
{
    let key = catalog_key(name);
    let got = store.get(&key)?;
    if got.is_some() {
        return Err(StorageError::WriteError(String::from_str(name)));
    }
    let n = columns.len();
    let mut i: usize = 0;
    while i < n
        invariant
            0 <= i <= n,
            n == columns@.len(),
            store@ == old(store)@,
            old(store)@.dom().finite(),
            forall|j: int|
                0 <= j < i ==> (#[trigger] cols_view(columns@)[j]).data_type != DataType::Null,
        decreases n - i,
    {
        proof {
            assert(cols_view(columns@)[i as int] == columns@[i as int]@);
        }
        if columns[i].data_type == DataType::Null {
            return Err(StorageError::WriteError(String::from_str(name)));
        }
        i = i + 1;
    }
    proof {
        if has_null_col(cols_view(columns@)) {
            let j = choose|j: int|
                0 <= j < cols_view(columns@).len() && (#[trigger] cols_view(columns@)[j]).data_type
                    == DataType::Null;
            assert(false);
        }
    }
    let value = encode_schema(name, columns);
    store.set(&key, &value)?;
    Ok(())
}

/// Looks a table up, exactly as `cat_get_spec` describes: absent tables
/// read as nothing, an undecodable entry is an error, and a held schema
/// is returned as stored.
pub fn cat_get(store: &StorageEngine, name: &str) -> (r: Result<Option<TableSchema>, StorageError>)
    ensures
        r matches Ok(o) ==> match o {
            Option::None => cat_get_spec(store@, name@) is Absent,
            Option::Some(sch) => cat_get_spec(store@, name@) == CatalogLookup::Table(
                sch.name@,
                cols_view(sch.columns@),
            ),
        },
        cat_get_spec(store@, name@) is Undecodable ==> r is Err,
{
    let key = catalog_key(name);
    match store.get(&key)? {
        None => Ok(None),
        Some(bytes) => match decode_schema(&bytes) {
            Some(schema) => Ok(Some(schema)),
            None => Err(StorageError::SerializationError(String::from_str(name))),
        },
    }
}

/// Lists the tables, exactly as `cat_list_spec` describes.
pub fn cat_list(store: &StorageEngine) -> (r: Result<Vec<String>, StorageError>)
    requires
        store@.dom().finite(),
    ensures
        r matches Ok(names) ==> crate::stmt::strings_view(names@) == cat_list_spec(store@),
{
    let prefix = crate::keys::catalog_prefix_vec();
    let entries = store.scan_prefix(&prefix)?;
    proof {
        crate::storage::lemma_scan_is_spec(
            store@,
            crate::keys::catalog_prefix_spec(),
            crate::storage::pairs_view(entries@),
        );
    }
    let ghost sv = crate::storage::pairs_view(entries@);
    let mut out: Vec<String> = Vec::new();
    let n = entries.len();
    let mut i: usize = 0;
    proof {
        assert(sv.skip(0) =~= sv);
        assert(crate::stmt::strings_view(out@) + list_names(sv) =~= list_names(sv));
    }
    while i < n
        invariant
            0 <= i <= n,
            n == entries@.len(),
            sv == crate::storage::pairs_view(entries@),
            cat_list_spec(store@) == list_names(sv),
            list_names(sv) == crate::stmt::strings_view(out@) + list_names(sv.skip(i as int)),
        decreases n - i,
    {
        proof {
            assert(sv.skip(i as int)[0] == sv[i as int]);
            assert(sv[i as int].1 == entries@[i as int].1@);
            assert(sv.skip(i as int).drop_first() =~= sv.skip(i as int + 1));
        }
        let ghost old_out = out@;
        match decode_schema(&entries[i].1) {
            Some(schema) => {
                let ghost nm = schema.name@;
                out.push(schema.name);
                proof {
                    assert(crate::stmt::strings_view(out@) =~= crate::stmt::strings_view(old_out)
                        + seq![nm]);
                    assert((crate::stmt::strings_view(old_out) + seq![nm]) + list_names(
                        sv.skip(i as int + 1),
                    ) =~= crate::stmt::strings_view(old_out) + (seq![nm] + list_names(
                        sv.skip(i as int + 1),
                    )));
                }
            },
            None => {},
        }
        i = i + 1;
    }
    proof {
        assert(sv.skip(n as int) =~= Seq::<(Seq<u8>, Seq<u8>)>::empty());
        assert(crate::stmt::strings_view(out@) + Seq::<Seq<char>>::empty()
            =~= crate::stmt::strings_view(out@));
    }
    Ok(out)
}

/// Removes a table's catalog entry, exactly as `cat_drop_spec` describes.
pub fn cat_drop(store: &mut StorageEngine, name: &str) -> (r: Result<(), StorageError>)
    requires
        old(store)@.dom().finite(),
    ensures
        final(store)@.dom().finite(),
        r is Ok ==> final(store)@ == cat_drop_spec(old(store)@, name@),
        r is Err ==> final(store)@ == old(store)@ || final(store)@ == cat_drop_spec(
            old(store)@,
            name@,
        ),
{
    let key = catalog_key(name);
    store.delete(&key)?;
    Ok(())
}

/// The persisted directory of table schemas, owning its store handle.
pub struct Catalog {
    pub storage: StorageEngine,
}

impl Catalog {
    pub fn new(storage: StorageEngine) -> (c: Catalog)
        ensures
            c.storage@ == storage@,
    {
        Catalog { storage }
    }

    /// As `cat_create` over the owned store.
    pub fn create_table(&mut self, name: &str, columns: Vec<Column>) -> (r: Result<
        (),
        StorageError,
    >)
        requires
            old(self).storage@.dom().finite(),
        ensures
            final(self).storage@.dom().finite(),
            r is Ok ==> cat_create_spec(old(self).storage@, name@, cols_view(columns@)) == Ok::<
                Map<Seq<u8>, Seq<u8>>,
                crate::storage::ErrKind,
            >(final(self).storage@),
            cat_create_spec(old(self).storage@, name@, cols_view(columns@)) is Err ==> r is Err
                && final(self).storage@ == old(self).storage@,
    {
        cat_create(&mut self.storage, name, &columns)
    }

    /// As `cat_get` over the owned store.
    pub fn get_table(&self, name: &str) -> (r: Result<Option<TableSchema>, StorageError>)
        ensures
            r matches Ok(o) ==> match o {
                Option::None => cat_get_spec(self.storage@, name@) is Absent,
                Option::Some(sch) => cat_get_spec(self.storage@, name@) == CatalogLookup::Table(
                    sch.name@,
                    cols_view(sch.columns@),
                ),
            },
            cat_get_spec(self.storage@, name@) is Undecodable ==> r is Err,
    {
        cat_get(&self.storage, name)
    }

    /// As `cat_list` over the owned store.
    pub fn list_tables(&self) -> (r: Result<Vec<String>, StorageError>)
        requires
            self.storage@.dom().finite(),
        ensures
            r matches Ok(names) ==> crate::stmt::strings_view(names@) == cat_list_spec(
                self.storage@,
            ),
    {
        cat_list(&self.storage)
    }

    /// As `cat_drop` over the owned store.
    pub fn drop_table(&mut self, name: &str) -> (r: Result<(), StorageError>)
        requires
            old(self).storage@.dom().finite(),
        ensures
            final(self).storage@.dom().finite(),
            r is Ok ==> final(self).storage@ == cat_drop_spec(old(self).storage@, name@),
    {
        cat_drop(&mut self.storage, name)
    }
}

} // verus!
