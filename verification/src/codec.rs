//! The row codec: a self-describing binary encoding of value vectors.
//! Each value carries a tag byte; integers and lengths are big-endian;
//! text is stored as UTF-8. Encoding then decoding is the identity.

use vstd::prelude::*;
use vstd::utf8::{decode_utf8, encode_utf8, valid_utf8};
use crate::value::{row_view, row_wf, Decimal, Value, ValueS};

verus! {

broadcast use vstd::utf8::encode_utf8_valid_utf8, vstd::utf8::encode_utf8_decode_utf8;

/// Big-endian bytes of `x % 256^n`, `n` bytes long.
pub open spec fn be_bytes(x: nat, n: nat) -> Seq<u8>
    decreases n,
{
    if n == 0 {
        Seq::empty()
    } else {
        be_bytes(x / 256, (n - 1) as nat).push((x % 256) as u8)
    }
}

/// The natural number big-endian bytes denote.
pub open spec fn dec_be(s: Seq<u8>) -> nat
    decreases s.len(),
{
    if s.len() == 0 {
        0
    } else {
        dec_be(s.drop_last()) * 256 + s.last() as nat
    }
}

/// 256^n.
pub open spec fn pow256(n: nat) -> nat
    decreases n,
{
    if n == 0 {
        1
    } else {
        256 * pow256((n - 1) as nat)
    }
}

pub proof fn lemma_be_bytes_len(x: nat, n: nat)
    ensures
        be_bytes(x, n).len() == n,
    decreases n,
{
    if n > 0 {
        lemma_be_bytes_len(x / 256, (n - 1) as nat);
    }
}

pub proof fn lemma_be_roundtrip(x: nat, n: nat)
    requires
        x < pow256(n),
    ensures
        dec_be(be_bytes(x, n)) == x,
    decreases n,
{
    if n > 0 {
        assert(x / 256 < pow256((n - 1) as nat)) by (nonlinear_arith)
            requires
                x < pow256(n),
                pow256(n) == 256 * pow256((n - 1) as nat),
        ;
        lemma_be_roundtrip(x / 256, (n - 1) as nat);
        lemma_be_bytes_len(x / 256, (n - 1) as nat);
        assert(be_bytes(x, n).drop_last() =~= be_bytes(x / 256, (n - 1) as nat));
        assert(dec_be(be_bytes(x, n)) == (x / 256) * 256 + (x % 256));
    }
}

pub proof fn lemma_dec_be_bound(s: Seq<u8>)
    ensures
        dec_be(s) < pow256(s.len()),
    decreases s.len(),
{
    if s.len() > 0 {
        lemma_dec_be_bound(s.drop_last());
        assert(dec_be(s.drop_last()) * 256 + s.last() < pow256(s.len())) by (nonlinear_arith)
            requires
                dec_be(s.drop_last()) < pow256((s.len() - 1) as nat),
                s.last() < 256,
                pow256(s.len()) == 256 * pow256((s.len() - 1) as nat),
        ;
    }
}

/// Big-endian encodings of equal width order as their numbers do.
pub proof fn lemma_be_bytes_mono(x: nat, y: nat, n: nat)
    requires
        x < y,
        y < pow256(n),
    ensures
        crate::storage::lex_lt(be_bytes(x, n), be_bytes(y, n)),
    decreases n,
{
    assert(n > 0);
    lemma_be_bytes_len(x / 256, (n - 1) as nat);
    lemma_be_bytes_len(y / 256, (n - 1) as nat);
    assert(y / 256 < pow256((n - 1) as nat)) by (nonlinear_arith)
        requires
            y < pow256(n),
            pow256(n) == 256 * pow256((n - 1) as nat),
    ;
    assert(x / 256 <= y / 256) by (nonlinear_arith)
        requires
            x < y,
    ;
    if x / 256 == y / 256 {
        assert(x % 256 < y % 256) by (nonlinear_arith)
            requires
                x < y,
                x / 256 == y / 256,
        ;
        assert(be_bytes(x / 256, (n - 1) as nat) == be_bytes(y / 256, (n - 1) as nat));
        crate::storage::lemma_lex_push_eq(
            be_bytes(x / 256, (n - 1) as nat),
            (x % 256) as u8,
            (y % 256) as u8,
        );
    } else {
        lemma_be_bytes_mono(x / 256, y / 256, (n - 1) as nat);
        crate::storage::lemma_lex_push_lt(
            be_bytes(x / 256, (n - 1) as nat),
            be_bytes(y / 256, (n - 1) as nat),
            (x % 256) as u8,
            (y % 256) as u8,
        );
    }
}

pub proof fn lemma_pow256_8()
    ensures
        pow256(8) == 0x1_0000_0000_0000_0000,
{
    reveal_with_fuel(pow256, 9);
}

proof fn lemma_dec_be_step(s: Seq<u8>, i: int)
    requires
        0 <= i < s.len(),
    ensures
        dec_be(s.take(i + 1)) == dec_be(s.take(i)) * 256 + s[i],
{
    assert(s.take(i + 1).drop_last() =~= s.take(i));
    assert(s.take(i + 1).last() == s[i]);
}

/// Appends the `n`-byte big-endian form of `x`.
pub fn push_be(x: u64, n: u8, out: &mut Vec<u8>)
    ensures
        final(out)@ == old(out)@ + be_bytes(x as nat, n as nat),
    decreases n,
{
    if n == 0 {
        assert(final(out)@ =~= old(out)@ + be_bytes(x as nat, 0));
    } else {
        push_be(x / 256, n - 1, out);
        out.push((x % 256) as u8);
        assert(final(out)@ =~= old(out)@ + be_bytes(x as nat, n as nat));
    }
}

/// Reads the 8-byte big-endian number at `pos`.
pub fn read_be_u64(bytes: &Vec<u8>, pos: usize) -> (x: u64)
    requires
        pos + 8 <= bytes@.len(),
    ensures
        x as nat == dec_be(bytes@.subrange(pos as int, pos + 8)),
{
    let blen = bytes.len();
    let ghost window = bytes@.subrange(pos as int, pos + 8);
    let mut acc: u64 = 0;
    let mut i: usize = 0;
    proof {
        assert(window.take(0) =~= Seq::<u8>::empty());
    }
    while i < 8
        invariant
            0 <= i <= 8,
            pos + 8 <= bytes@.len(),
            bytes@.len() == blen,
            window == bytes@.subrange(pos as int, pos + 8),
            acc as nat == dec_be(window.take(i as int)),
            acc < pow256(i as nat),
        decreases 8 - i,
    {
        proof {
            assert(window[i as int] == bytes@[pos + i]);
            lemma_dec_be_step(window, i as int);
            assert(pow256(i as nat) <= pow256(7)) by {
                lemma_pow256_mono(i as nat, 7);
            }
            assert(pow256(7) == 0x100_0000_0000_0000) by {
                reveal_with_fuel(pow256, 8);
            }
        }
        let b = bytes[pos + i];
        acc = acc * 256 + (b as u64);
        i = i + 1;
    }
    proof {
        assert(window.take(8) =~= window);
    }
    acc
}

proof fn lemma_pow256_mono(a: nat, b: nat)
    requires
        a <= b,
    ensures
        pow256(a) <= pow256(b),
    decreases b,
{
    if a < b {
        lemma_pow256_mono(a, (b - 1) as nat);
        lemma_pow256_pos((b - 1) as nat);
    }
}

proof fn lemma_pow256_pos(n: nat)
    ensures
        pow256(n) >= 1,
    decreases n,
{
    if n > 0 {
        lemma_pow256_pos((n - 1) as nat);
    }
}

/// A length-prefixed UTF-8 chunk: 8 length bytes, then the encoding.
pub open spec fn enc_chunk(s: Seq<char>) -> Seq<u8> {
    be_bytes(encode_utf8(s).len(), 8) + encode_utf8(s)
}

/// Appends the length-prefixed UTF-8 encoding of `s`.
pub fn push_chunk(s: &str, out: &mut Vec<u8>)
    ensures
        final(out)@ == old(out)@ + enc_chunk(s@),
{
    let bs = s.as_bytes();
    let n = bs.len();
    push_be(n as u64, 8, out);
    out.extend_from_slice(bs);
    proof {
        assert(final(out)@ =~= old(out)@ + enc_chunk(s@));
    }
}

/// Relies on `String::from_utf8`: returns the string this UTF-8 encoding
/// denotes, failing exactly on invalid UTF-8.
#[verifier::external_body]
pub fn string_from_utf8(v: Vec<u8>) -> (r: Option<String>)
    ensures
        r is Some <==> valid_utf8(v@),
        r matches Some(s) ==> s@ == decode_utf8(v@),
{
    String::from_utf8(v).ok()
}

/// A decoded chunk consumes at least its length field and ends inside
/// the buffer.
pub proof fn lemma_dec_chunk_sane(b: Seq<u8>, pos: int)
    ensures
        dec_chunk(b, pos) matches Some((s, p)) ==> pos + 8 <= p <= b.len(),
{
}

/// Reads the length-prefixed UTF-8 chunk at `pos`: the decoded text and
/// the position after it, or nothing if the bytes are not a chunk.
pub open spec fn dec_chunk(b: Seq<u8>, pos: int) -> Option<(Seq<char>, int)> {
    if pos < 0 || pos + 8 > b.len() {
        None
    } else {
        let n = dec_be(b.subrange(pos, pos + 8));
        if pos + 8 + n > b.len() {
            None
        } else {
            let bytes = b.subrange(pos + 8, pos + 8 + n);
            if valid_utf8(bytes) {
                Some((decode_utf8(bytes), pos + 8 + n))
            } else {
                None
            }
        }
    }
}

/// Reads a chunk, exactly as `dec_chunk` describes.
pub fn read_chunk(bytes: &Vec<u8>, pos: usize) -> (r: Option<(String, usize)>)
    requires
        pos <= bytes@.len(),
    ensures
        r is Some <==> dec_chunk(bytes@, pos as int) is Some,
        r matches Some((s, p)) ==> dec_chunk(bytes@, pos as int) == Some((s@, p as int)),
{
    let blen = bytes.len();
    if blen - pos < 8 {
        return None;
    }
    let n64 = read_be_u64(bytes, pos);
    proof {
        lemma_dec_be_bound(bytes@.subrange(pos as int, pos + 8));
    }
    if n64 > (blen - pos - 8) as u64 {
        return None;
    }
    let n = n64 as usize;
    let mut chunk: Vec<u8> = Vec::new();
    let mut i: usize = 0;
    while i < n
        invariant
            0 <= i <= n,
            pos + 8 + n <= bytes@.len(),
            bytes@.len() == blen,
            chunk@ == bytes@.subrange(pos + 8, pos + 8 + i),
        decreases n - i,
    {
        chunk.push(bytes[pos + 8 + i]);
        proof {
            assert(chunk@ =~= bytes@.subrange(pos + 8, pos + 8 + i + 1));
        }
        i = i + 1;
    }
    match string_from_utf8(chunk) {
        Some(s) => Some((s, pos + 8 + n)),
        None => None,
    }
}

/// Encoding and decoding a chunk round-trips.
pub proof fn lemma_chunk_roundtrip(b: Seq<u8>, pos: int, s: Seq<char>)
    requires
        0 <= pos,
        pos + enc_chunk(s).len() <= b.len(),
        b.subrange(pos, pos + enc_chunk(s).len()) == enc_chunk(s),
        encode_utf8(s).len() < 0x1_0000_0000_0000_0000,
    ensures
        dec_chunk(b, pos) == Some((s, pos + enc_chunk(s).len())),
{
    let u = encode_utf8(s);
    let e = enc_chunk(s);
    lemma_be_bytes_len(u.len(), 8);
    assert(e.len() == 8 + u.len());
    assert(b.subrange(pos, pos + 8) =~= e.subrange(0, 8));
    assert(e.subrange(0, 8) =~= be_bytes(u.len(), 8));
    lemma_pow256_8();
    lemma_be_roundtrip(u.len(), 8);
    assert(dec_be(b.subrange(pos, pos + 8)) == u.len());
    assert(b.subrange(pos + 8, pos + 8 + u.len() as int) =~= e.subrange(8, e.len() as int));
    assert(e.subrange(8, e.len() as int) =~= u);
    assert(valid_utf8(u));
    assert(decode_utf8(u) == s);
}

/// One encoded value: a tag byte and the payload.
pub open spec fn enc_value(v: ValueS) -> Seq<u8> {
    match v {
        ValueS::Null => seq![0u8],
        ValueS::Integer(i) => seq![1u8] + be_bytes((i as u64) as nat, 8),
        ValueS::Float(d) => seq![2u8] + seq![
            if d.negative {
                1u8
            } else {
                0u8
            },
        ] + be_bytes(d.mantissa as nat, 8) + seq![d.scale],
        ValueS::Text(s) => seq![3u8] + enc_chunk(s),
        ValueS::Boolean(x) => seq![4u8] + seq![
            if x {
                1u8
            } else {
                0u8
            },
        ],
    }
}

/// Reads one encoded value at `pos`: the value and the position after it.
/// Only well-formed values decode.
pub open spec fn dec_value(b: Seq<u8>, pos: int) -> Option<(ValueS, int)> {
    if pos < 0 || pos >= b.len() {
        None
    } else if b[pos] == 0 {
        Some((ValueS::Null, pos + 1))
    } else if b[pos] == 1 {
        if pos + 9 <= b.len() {
            Some(
                (
                    ValueS::Integer(((dec_be(b.subrange(pos + 1, pos + 9)) as u64) as i64)),
                    pos + 9,
                ),
            )
        } else {
            None
        }
    } else if b[pos] == 2 {
        if pos + 11 <= b.len() && (b[pos + 1] == 0 || b[pos + 1] == 1) {
            let d = Decimal {
                negative: b[pos + 1] == 1,
                mantissa: dec_be(b.subrange(pos + 2, pos + 10)) as u64,
                scale: b[pos + 10],
            };
            if d.wf() {
                Some((ValueS::Float(d), pos + 11))
            } else {
                None
            }
        } else {
            None
        }
    } else if b[pos] == 3 {
        match dec_chunk(b, pos + 1) {
            Some((s, p)) => Some((ValueS::Text(s), p)),
            None => None,
        }
    } else if b[pos] == 4 {
        if pos + 2 <= b.len() && (b[pos + 1] == 0 || b[pos + 1] == 1) {
            Some((ValueS::Boolean(b[pos + 1] == 1), pos + 2))
        } else {
            None
        }
    } else {
        None
    }
}

/// Whatever decodes is well-formed and sits inside the buffer.
pub proof fn lemma_dec_value_sane(b: Seq<u8>, pos: int)
    ensures
        dec_value(b, pos) matches Some((v, p)) ==> v.wf() && pos < p <= b.len(),
{
}

/// Whatever decodes re-encodes within the length field's range: a
/// decoded text's encoding is the very byte run it was read from.
pub proof fn lemma_dec_value_size(b: Seq<u8>, pos: int)
    ensures
        dec_value(b, pos) matches Some((v, p)) ==> vs_size_ok(v),
{
    if 0 <= pos < b.len() && b[pos] == 3 {
        match dec_chunk(b, pos + 1) {
            Some((s, p)) => {
                let n = dec_be(b.subrange(pos + 1, pos + 9));
                let bytes = b.subrange(pos + 9, pos + 9 + n);
                lemma_dec_be_bound(b.subrange(pos + 1, pos + 9));
                lemma_pow256_8();
                assert(valid_utf8(bytes));
                vstd::utf8::decode_utf8_encode_utf8(bytes);
            },
            None => {},
        }
    }
}

/// Every value of a decoded run re-encodes within range.
pub proof fn lemma_dec_values_size(b: Seq<u8>, pos: int, n: nat)
    ensures
        dec_values(b, pos, n) matches Some((vs, p)) ==> forall|i: int|
            0 <= i < vs.len() ==> vs_size_ok(#[trigger] vs[i]),
    decreases n,
{
    if n > 0 {
        match dec_value(b, pos) {
            Some((v, p1)) => {
                lemma_dec_value_size(b, pos);
                lemma_dec_values_size(b, p1, (n - 1) as nat);
                match dec_values(b, p1, (n - 1) as nat) {
                    Some((vs2, p2)) => {
                        let whole = seq![v] + vs2;
                        assert forall|i: int| 0 <= i < whole.len() implies vs_size_ok(
                            #[trigger] whole[i],
                        ) by {
                            if i == 0 {
                                assert(whole[0] == v);
                            } else {
                                assert(whole[i] == vs2[i - 1]);
                            }
                        }
                    },
                    None => {},
                }
            },
            None => {},
        }
    }
}

/// A decoded row's cells all re-encode within range, and the row itself
/// fits the count field.
pub proof fn lemma_dec_row_size(b: Seq<u8>)
    ensures
        dec_row(b) matches Some(vs) ==> row_size_ok(vs),
{
    if b.len() >= 8 {
        let n = dec_be(b.subrange(0, 8));
        lemma_dec_be_bound(b.subrange(0, 8));
        lemma_pow256_8();
        lemma_dec_values_size(b, 8, n);
        lemma_dec_values_sane(b, 8, n);
    }
}

/// Appends the encoding of one value.
pub fn push_value(v: &Value, out: &mut Vec<u8>)
    ensures
        final(out)@ == old(out)@ + enc_value(v@),
{
    match v {
        Value::Null => {
            out.push(0u8);
            assert(final(out)@ =~= old(out)@ + enc_value(v@));
        },
        Value::Integer(i) => {
            out.push(1u8);
            push_be(*i as u64, 8, out);
            assert(final(out)@ =~= old(out)@ + enc_value(v@));
        },
        Value::Float(d) => {
            out.push(2u8);
            out.push(
                if d.negative {
                    1u8
                } else {
                    0u8
                },
            );
            push_be(d.mantissa, 8, out);
            out.push(d.scale);
            assert(final(out)@ =~= old(out)@ + enc_value(v@));
        },
        Value::Text(s) => {
            out.push(3u8);
            push_chunk(s.as_str(), out);
            assert(final(out)@ =~= old(out)@ + enc_value(v@));
        },
        Value::Boolean(x) => {
            out.push(4u8);
            out.push(
                if *x {
                    1u8
                } else {
                    0u8
                },
            );
            assert(final(out)@ =~= old(out)@ + enc_value(v@));
        },
    }
}

/// Reads one value, exactly as `dec_value` describes.
pub fn read_value(bytes: &Vec<u8>, pos: usize) -> (r: Option<(Value, usize)>)
    requires
        pos <= bytes@.len(),
    ensures
        r is Some <==> dec_value(bytes@, pos as int) is Some,
        r matches Some((v, p)) ==> dec_value(bytes@, pos as int) == Some((v@, p as int))
            && v@.wf(),
{
    let blen = bytes.len();
    if pos >= blen {
        return None;
    }
    let tag = bytes[pos];
    if tag == 0 {
        Some((Value::Null, pos + 1))
    } else if tag == 1 {
        if blen - pos >= 9 {
            let x = read_be_u64(bytes, pos + 1);
            Some((Value::Integer(#[verifier::truncate] (x as i64)), pos + 9))
        } else {
            None
        }
    } else if tag == 2 {
        if blen - pos >= 11 && (bytes[pos + 1] == 0 || bytes[pos + 1] == 1) {
            let m = read_be_u64(bytes, pos + 2);
            let d = Decimal { negative: bytes[pos + 1] == 1, mantissa: m, scale: bytes[pos + 10] };
            let wf = d.mantissa < crate::value::MANTISSA_LIMIT && d.scale
                <= crate::value::SCALE_LIMIT && (d.scale == 0 || d.mantissa % 10 != 0) && (
            d.mantissa != 0 || (d.scale == 0 && !d.negative));
            if wf {
                Some((Value::Float(d), pos + 11))
            } else {
                None
            }
        } else {
            None
        }
    } else if tag == 3 {
        match read_chunk(bytes, pos + 1) {
            Some((s, p)) => Some((Value::Text(s), p)),
            None => None,
        }
    } else if tag == 4 {
        if blen - pos >= 2 && (bytes[pos + 1] == 0 || bytes[pos + 1] == 1) {
            Some((Value::Boolean(bytes[pos + 1] == 1), pos + 2))
        } else {
            None
        }
    } else {
        None
    }
}

/// Encoding then decoding one well-formed value is the identity.
pub proof fn lemma_value_roundtrip(b: Seq<u8>, pos: int, v: ValueS)
    requires
        v.wf(),
        vs_size_ok(v),
        0 <= pos,
        pos + enc_value(v).len() <= b.len(),
        b.subrange(pos, pos + enc_value(v).len()) == enc_value(v),
    ensures
        dec_value(b, pos) == Some((v, pos + enc_value(v).len())),
{
    let e = enc_value(v);
    assert(b[pos] == e[0]);
    match v {
        ValueS::Null => {},
        ValueS::Integer(i) => {
            lemma_be_bytes_len((i as u64) as nat, 8);
            assert(b.subrange(pos + 1, pos + 9) =~= e.subrange(1, 9));
            assert(e.subrange(1, 9) =~= be_bytes((i as u64) as nat, 8));
            lemma_pow256_8();
            lemma_be_roundtrip((i as u64) as nat, 8);
            assert((((i as u64) as nat) as u64) as i64 == i) by (bit_vector);
        },
        ValueS::Float(d) => {
            lemma_be_bytes_len(d.mantissa as nat, 8);
            assert(e.len() == 11);
            assert(b[pos + 1] == e[1]);
            assert(b[pos + 10] == e[10]);
            assert(b.subrange(pos + 2, pos + 10) =~= e.subrange(2, 10));
            assert(e.subrange(2, 10) =~= be_bytes(d.mantissa as nat, 8));
            lemma_pow256_8();
            lemma_be_roundtrip(d.mantissa as nat, 8);
        },
        ValueS::Text(s) => {
            assert(b.subrange(pos + 1, pos + 1 + enc_chunk(s).len() as int) =~= e.subrange(
                1,
                e.len() as int,
            ));
            assert(e.subrange(1, e.len() as int) =~= enc_chunk(s));
            lemma_chunk_roundtrip(b, pos + 1, s);
        },
        ValueS::Boolean(x) => {
            assert(e.len() == 2);
            assert(b[pos + 1] == e[1]);
        },
    }
}

/// Size side conditions under which a value's encoding is faithful: text
/// no longer than the length field can carry.
pub open spec fn vs_size_ok(v: ValueS) -> bool {
    match v {
        ValueS::Text(s) => encode_utf8(s).len() < 0x1_0000_0000_0000_0000,
        _ => true,
    }
}

pub open spec fn row_size_ok(r: Seq<ValueS>) -> bool {
    &&& r.len() < 0x1_0000_0000_0000_0000
    &&& forall|i: int| 0 <= i < r.len() ==> vs_size_ok(#[trigger] r[i])
}

/// The encodings of a row's values, concatenated.
pub open spec fn enc_values(r: Seq<ValueS>) -> Seq<u8>
    decreases r.len(),
{
    if r.len() == 0 {
        Seq::empty()
    } else {
        enc_value(r[0]) + enc_values(r.drop_first())
    }
}

/// An encoded row: the count, then each value in order.
pub open spec fn enc_row(r: Seq<ValueS>) -> Seq<u8> {
    be_bytes(r.len(), 8) + enc_values(r)
}

/// Reads `n` consecutive values at `pos`.
pub open spec fn dec_values(b: Seq<u8>, pos: int, n: nat) -> Option<(Seq<ValueS>, int)>
    decreases n,
{
    if n == 0 {
        Some((Seq::empty(), pos))
    } else {
        match dec_value(b, pos) {
            Some((v, p)) => match dec_values(b, p, (n - 1) as nat) {
                Some((vs, p2)) => Some((seq![v] + vs, p2)),
                None => None,
            },
            None => None,
        }
    }
}

/// What decoding a row's bytes yields: the whole buffer must be one
/// count and exactly that many values.
pub open spec fn dec_row(b: Seq<u8>) -> Option<Seq<ValueS>> {
    if b.len() < 8 {
        None
    } else {
        let n = dec_be(b.subrange(0, 8));
        match dec_values(b, 8, n) {
            Some((vs, p)) => if p == b.len() {
                Some(vs)
            } else {
                None
            },
            None => None,
        }
    }
}

/// A decoded row is well-formed.
pub proof fn lemma_dec_values_sane(b: Seq<u8>, pos: int, n: nat)
    ensures
        dec_values(b, pos, n) matches Some((vs, p)) ==> vs.len() == n && pos <= p && p - pos >= n
            && row_wf(vs) && (n > 0 ==> p <= b.len()),
    decreases n,
{
    if n > 0 {
        match dec_value(b, pos) {
            Some((v, p)) => {
                lemma_dec_value_sane(b, pos);
                lemma_dec_values_sane(b, p, (n - 1) as nat);
                match dec_values(b, p, (n - 1) as nat) {
                    Some((vs, p2)) => {
                        let whole = seq![v] + vs;
                        assert(dec_values(b, pos, n) == Some((whole, p2)));
                        assert forall|i: int| 0 <= i < whole.len() implies (
                        #[trigger] whole[i]).wf() by {
                            if i == 0 {
                                assert(whole[0] == v);
                            } else {
                                assert(whole[i] == vs[i - 1]);
                            }
                        }
                        assert(row_wf(whole));
                        assert(whole.len() == n);
                        assert(pos <= p2 <= b.len());
                        assert(p2 - pos >= n);
                    },
                    None => {},
                }
            },
            None => {},
        }
    }
}

pub proof fn lemma_dec_row_wf(b: Seq<u8>)
    ensures
        dec_row(b) matches Some(vs) ==> row_wf(vs),
{
    if b.len() >= 8 {
        lemma_dec_values_sane(b, 8, dec_be(b.subrange(0, 8)));
    }
}

/// Encodes a row of values.
pub fn encode_row(row: &Vec<Value>) -> (out: Vec<u8>)
    ensures
        out@ == enc_row(row_view(row@)),
{
    let mut out: Vec<u8> = Vec::new();
    let n = row.len();
    push_be(n as u64, 8, &mut out);
    let ghost rv = row_view(row@);
    let mut i: usize = 0;
    while i < n
        invariant
            0 <= i <= n,
            n == row@.len(),
            rv == row_view(row@),
            out@ == be_bytes(rv.len(), 8) + enc_values(rv.take(i as int)),
        decreases n - i,
    {
        proof {
            assert(rv[i as int] == row@[i as int]@);
        }
        push_value(&row[i], &mut out);
        proof {
            assert(rv.take(i + 1) =~= rv.take(i as int).push(rv[i as int]));
            lemma_enc_values_push(rv.take(i as int), rv[i as int]);
        }
        i = i + 1;
    }
    proof {
        assert(rv.take(n as int) =~= rv);
    }
    out
}

/// Appending one value extends the concatenated encodings on the right.
proof fn lemma_enc_values_push(s: Seq<ValueS>, x: ValueS)
    ensures
        enc_values(s.push(x)) == enc_values(s) + enc_value(x),
    decreases s.len(),
{
    if s.len() == 0 {
        assert(s.push(x)[0] == x);
        assert(s.push(x).drop_first() =~= Seq::<ValueS>::empty());
        assert(enc_values(s.push(x)) == enc_value(x) + enc_values(Seq::<ValueS>::empty()));
        assert(enc_value(x) + Seq::<u8>::empty() =~= enc_value(x));
        assert(enc_values(s) + enc_value(x) =~= enc_value(x));
    } else {
        assert(s.push(x)[0] == s[0]);
        assert(s.push(x).drop_first() =~= s.drop_first().push(x));
        lemma_enc_values_push(s.drop_first(), x);
        assert(enc_values(s.push(x)) == enc_value(s[0]) + (enc_values(s.drop_first()) + enc_value(
            x,
        )));
        assert(enc_value(s[0]) + (enc_values(s.drop_first()) + enc_value(x)) =~= (enc_value(s[0])
            + enc_values(s.drop_first())) + enc_value(x));
    }
}

/// Decodes a row's bytes, exactly as `dec_row` describes; the values of a
/// decoded row are well-formed.
pub fn decode_row(bytes: &Vec<u8>) -> (r: Option<Vec<Value>>)
    ensures
        r is Some <==> dec_row(bytes@) is Some,
        r matches Some(vs) ==> dec_row(bytes@) == Some(row_view(vs@)) && row_wf(row_view(vs@)),
{
    if bytes.len() < 8 {
        return None;
    }
    let n64 = read_be_u64(bytes, 0);
    proof {
        lemma_dec_values_sane(bytes@, 8, n64 as nat);
    }
    if n64 > (bytes.len() - 8) as u64 {
        proof {
            match dec_values(bytes@, 8, n64 as nat) {
                Some((vs, p)) => {
                    assert(p - 8 >= n64);
                    assert(false);
                },
                None => {},
            }
        }
        return None;
    }
    let n = n64 as usize;
    let mut row: Vec<Value> = Vec::new();
    let mut pos: usize = 8;
    let mut i: usize = 0;
    while i < n
        invariant
            0 <= i <= n,
            8 <= pos <= bytes@.len(),
            n64 as nat == dec_be(bytes@.subrange(0, 8)),
            n == n64,
            row@.len() == i,
            row_wf(row_view(row@)),
            dec_values(bytes@, 8, n as nat) == (match dec_values(
                bytes@,
                pos as int,
                (n - i) as nat,
            ) {
                Some((vs, p)) => Some((row_view(row@) + vs, p)),
                None => None::<(Seq<ValueS>, int)>,
            }),
        decreases n - i,
    {
        match read_value(bytes, pos) {
            None => {
                return None;
            },
            Some((v, p)) => {
                proof {
                    let tail = dec_values(bytes@, p as int, (n - i - 1) as nat);
                    lemma_dec_values_sane(bytes@, p as int, (n - i - 1) as nat);
                    match tail {
                        Some((vs, p2)) => {
                            assert(seq![v@] + vs =~= (row_view(row@) + (seq![v@] + vs)).skip(
                                row@.len() as int,
                            ));
                        },
                        None => {},
                    }
                }
                let ghost old_row = row@;
                row.push(v);
                proof {
                    assert(row_view(row@) =~= row_view(old_row) + seq![v@]);
                    match dec_values(bytes@, p as int, (n - i - 1) as nat) {
                        Some((vs, p2)) => {
                            assert(row_view(old_row) + (seq![v@] + vs) =~= row_view(row@) + vs);
                        },
                        None => {},
                    }
                }
                pos = p;
            },
        }
        i = i + 1;
    }
    proof {
        lemma_dec_values_sane(bytes@, pos as int, 0);
        assert(row_view(row@) + Seq::<ValueS>::empty() =~= row_view(row@));
    }
    if pos == bytes.len() {
        Some(row)
    } else {
        None
    }
}

/// Encoding then decoding a well-formed row is the identity.
pub proof fn lemma_row_roundtrip(r: Seq<ValueS>)
    requires
        row_wf(r),
        row_size_ok(r),
    ensures
        dec_row(enc_row(r)) == Some(r),
{
    let b = enc_row(r);
    lemma_be_bytes_len(r.len(), 8);
    assert(b.subrange(0, 8) =~= be_bytes(r.len(), 8));
    lemma_pow256_8();
    lemma_be_roundtrip(r.len(), 8);
    assert(b.subrange(8, 8 + enc_values(r).len() as int) =~= enc_values(r));
    lemma_values_roundtrip(b, 8, r);
    assert(enc_values(r).len() == b.len() - 8);
}

/// Concatenated encodings decode back to the same values.
proof fn lemma_values_roundtrip(b: Seq<u8>, pos: int, r: Seq<ValueS>)
    requires
        row_wf(r),
        forall|i: int| 0 <= i < r.len() ==> vs_size_ok(#[trigger] r[i]),
        0 <= pos,
        pos + enc_values(r).len() <= b.len(),
        b.subrange(pos, pos + enc_values(r).len()) == enc_values(r),
    ensures
        dec_values(b, pos, r.len()) == Some((r, pos + enc_values(r).len())),
    decreases r.len(),
{
    if r.len() == 0 {
        assert(r =~= Seq::<ValueS>::empty());
    } else {
        let e0 = enc_value(r[0]);
        let rest = enc_values(r.drop_first());
        assert(enc_values(r) == e0 + rest);
        assert(b.subrange(pos, pos + e0.len() as int) =~= (e0 + rest).subrange(
            0,
            e0.len() as int,
        ));
        assert((e0 + rest).subrange(0, e0.len() as int) =~= e0);
        assert(r[0].wf());
        lemma_value_roundtrip(b, pos, r[0]);
        assert(b.subrange(pos + e0.len(), pos + e0.len() + rest.len()) =~= (e0 + rest).subrange(
            e0.len() as int,
            (e0 + rest).len() as int,
        ));
        assert((e0 + rest).subrange(e0.len() as int, (e0 + rest).len() as int) =~= rest);
        assert(forall|i: int|
            0 <= i < r.drop_first().len() ==> r.drop_first()[i] == r[i + 1]);
        lemma_values_roundtrip(b, pos + e0.len(), r.drop_first());
        assert(seq![r[0]] + r.drop_first() =~= r);
    }
}

} // verus!
