//! Character-level text utilities: conversion between strings and char
//! vectors, lexicographic comparison, and exact parsing and printing of
//! integers and decimals.

use vstd::prelude::*;
use crate::value::{Decimal, pow10, dec_norm, lemma_dec_norm_wf, MANTISSA_LIMIT, SCALE_LIMIT};

verus! {

/// Relies on `str::chars`: yields exactly the characters of the string,
/// in order, which is this string's view.
#[verifier::external_body]
pub fn chars_vec(s: &str) -> (r: Vec<char>)
    ensures
        r@ == s@,
{
    s.chars().collect()
}

/// Relies on `String: FromIterator<char>`: collecting characters builds the
/// string of exactly those characters.
#[verifier::external_body]
pub fn string_from_chars(cs: &Vec<char>) -> (r: String)
    ensures
        r@ == cs@,
{
    cs.iter().collect()
}

/// Sign of `a - b` under lexicographic order by code point. On UTF-8
/// encoded bytes this coincides with byte-lexicographic order, since UTF-8
/// preserves code-point order.
pub open spec fn text_cmp_spec(a: Seq<char>, b: Seq<char>) -> int
    decreases a.len(),
{
    if a.len() == 0 && b.len() == 0 {
        0
    } else if a.len() == 0 {
        -1
    } else if b.len() == 0 {
        1
    } else if a[0] < b[0] {
        -1
    } else if a[0] > b[0] {
        1
    } else {
        text_cmp_spec(a.drop_first(), b.drop_first())
    }
}

/// Compares two strings lexicographically by code point.
pub fn text_compare(a: &str, b: &str) -> (c: i8)
    ensures
        c as int == text_cmp_spec(a@, b@),
{
    let av = chars_vec(a);
    let bv = chars_vec(b);
    let mut i: usize = 0;
    proof {
        assert(a@.skip(0) =~= a@);
        assert(b@.skip(0) =~= b@);
    }
    loop
        invariant
            i <= av.len(),
            i <= bv.len(),
            av@ == a@,
            bv@ == b@,
            text_cmp_spec(a@, b@) == text_cmp_spec(a@.skip(i as int), b@.skip(i as int)),
        decreases av.len() - i,
    {
        proof {
            lemma_text_cmp_step(a@.skip(i as int), b@.skip(i as int));
        }
        if i >= av.len() {
            if i >= bv.len() {
                return 0;
            }
            return -1;
        }
        if i >= bv.len() {
            return 1;
        }
        let ca = av[i];
        let cb = bv[i];
        if ca < cb {
            return -1;
        }
        if ca > cb {
            return 1;
        }
        proof {
            assert(a@.skip(i as int).drop_first() =~= a@.skip(i as int + 1));
            assert(b@.skip(i as int).drop_first() =~= b@.skip(i as int + 1));
        }
        i = i + 1;
    }
}

proof fn lemma_text_cmp_step(a: Seq<char>, b: Seq<char>)
    ensures
        a.len() == 0 && b.len() == 0 ==> text_cmp_spec(a, b) == 0,
        a.len() == 0 && b.len() > 0 ==> text_cmp_spec(a, b) == -1,
        a.len() > 0 && b.len() == 0 ==> text_cmp_spec(a, b) == 1,
        a.len() > 0 && b.len() > 0 && a[0] < b[0] ==> text_cmp_spec(a, b) == -1,
        a.len() > 0 && b.len() > 0 && a[0] > b[0] ==> text_cmp_spec(a, b) == 1,
        a.len() > 0 && b.len() > 0 && a[0] == b[0] ==> text_cmp_spec(a, b) == text_cmp_spec(
            a.drop_first(),
            b.drop_first(),
        ),
{
}

pub proof fn lemma_text_cmp_eq(a: Seq<char>, b: Seq<char>)
    ensures
        text_cmp_spec(a, b) == 0 <==> a == b,
    decreases a.len(),
{
    if a.len() == 0 && b.len() == 0 {
        assert(a =~= b);
    }
    if a.len() > 0 && b.len() > 0 && a[0] == b[0] {
        lemma_text_cmp_eq(a.drop_first(), b.drop_first());
        if a.drop_first() == b.drop_first() {
            assert(a =~= seq![a[0]] + a.drop_first());
            assert(b =~= seq![b[0]] + b.drop_first());
        }
    }
}

pub open spec fn is_digit(c: char) -> bool {
    '0' <= c && c <= '9'
}

pub open spec fn digit_val(c: char) -> nat {
    (c as u32 - 48) as nat
}

pub open spec fn all_digits(s: Seq<char>) -> bool {
    forall|i: int| 0 <= i < s.len() ==> is_digit(#[trigger] s[i])
}

/// The natural number a digit string denotes (most significant first).
pub open spec fn digits_val(s: Seq<char>) -> nat
    decreases s.len(),
{
    if s.len() == 0 {
        0
    } else {
        digits_val(s.drop_last()) * 10 + digit_val(s.last())
    }
}

pub proof fn lemma_digits_val_extend_bound(s: Seq<char>, i: int, j: int)
    requires
        0 <= i <= j <= s.len(),
    ensures
        digits_val(s.take(i)) <= digits_val(s.take(j)),
    decreases j - i,
{
    if i < j {
        lemma_digits_val_extend_bound(s, i, j - 1);
        assert(s.take(j).drop_last() =~= s.take(j - 1));
        assert(digits_val(s.take(j)) == digits_val(s.take(j - 1)) * 10 + digit_val(
            s.take(j).last(),
        ));
        assert(digits_val(s.take(j - 1)) * 10 >= digits_val(s.take(j - 1)));
    }
}

/// The canonical digit character for `d` in 0..10.
pub open spec fn digit_char(d: nat) -> char {
    ((48 + d) as u8) as char
}

/// Decimal digit string of `n`, no leading zeros (a single `'0'` for zero).
pub open spec fn digits_of(n: nat) -> Seq<char>
    decreases n,
{
    if n < 10 {
        seq![digit_char(n)]
    } else {
        digits_of(n / 10).push(digit_char(n % 10))
    }
}

/// Fixed-width digit string of `n`, `width` digits, leading zeros kept.
pub open spec fn digits_fixed(n: nat, width: nat) -> Seq<char>
    decreases width,
{
    if width == 0 {
        Seq::empty()
    } else {
        digits_fixed(n / 10, (width - 1) as nat).push(digit_char(n % 10))
    }
}

/// Appends the decimal digits of `n` to `out`.
pub fn push_digits(n: u64, out: &mut Vec<char>)
    ensures
        final(out)@ == old(out)@ + digits_of(n as nat),
    decreases n,
{
    if n < 10 {
        let c = (48 + (n as u8)) as char;
        out.push(c);
        assert(out@ =~= old(out)@ + digits_of(n as nat));
    } else {
        push_digits(n / 10, out);
        let c = (48 + ((n % 10) as u8)) as char;
        out.push(c);
        assert(out@ =~= old(out)@ + digits_of(n as nat));
    }
}

/// Appends exactly `width` digits of `n`, leading zeros kept.
pub fn push_digits_fixed(n: u64, width: u8, out: &mut Vec<char>)
    ensures
        final(out)@ == old(out)@ + digits_fixed(n as nat, width as nat),
    decreases width,
{
    if width == 0 {
        assert(out@ =~= old(out)@ + digits_fixed(n as nat, 0));
    } else {
        push_digits_fixed(n / 10, width - 1, out);
        let c = (48 + ((n % 10) as u8)) as char;
        out.push(c);
        assert(out@ =~= old(out)@ + digits_fixed(n as nat, width as nat));
    }
}

/// Text form of a 64-bit signed integer.
pub open spec fn int_to_chars(i: int) -> Seq<char> {
    if i < 0 {
        seq!['-'] + digits_of((-i) as nat)
    } else {
        digits_of(i as nat)
    }
}

/// Prints an integer in its usual decimal form.
pub fn i64_to_text(i: i64) -> (r: String)
    ensures
        r@ == int_to_chars(i as int),
{
    let mut out: Vec<char> = Vec::new();
    if i < 0 {
        out.push('-');
        let mag: u64 = if i == i64::MIN {
            9_223_372_036_854_775_808u64
        } else {
            (-i) as u64
        };
        push_digits(mag, &mut out);
        assert(out@ =~= int_to_chars(i as int));
    } else {
        push_digits(i as u64, &mut out);
    }
    string_from_chars(&out)
}

/// Text form of a well-formed decimal: sign, integer part, and, for a
/// positive scale, a point followed by exactly `scale` fraction digits.
pub open spec fn dec_to_chars(d: Decimal) -> Seq<char> {
    let sign: Seq<char> = if d.negative {
        seq!['-']
    } else {
        Seq::empty()
    };
    if d.scale == 0 {
        sign + digits_of(d.mantissa as nat)
    } else {
        sign + digits_of((d.mantissa as nat) / pow10(d.scale as nat)) + seq!['.'] + digits_fixed(
            (d.mantissa as nat) % pow10(d.scale as nat),
            d.scale as nat,
        )
    }
}

/// Prints a decimal exactly.
pub fn decimal_to_text(d: &Decimal) -> (r: String)
    requires
        d.wf(),
    ensures
        r@ == dec_to_chars(*d),
{
    let mut out: Vec<char> = Vec::new();
    if d.negative {
        out.push('-');
    }
    if d.scale == 0 {
        push_digits(d.mantissa, &mut out);
    } else {
        let p = crate::value::pow10_u64(d.scale);
        push_digits(d.mantissa / p, &mut out);
        out.push('.');
        push_digits_fixed(d.mantissa % p, d.scale, &mut out);
    }
    proof {
        assert(out@ =~= dec_to_chars(*d));
    }
    string_from_chars(&out)
}

/// Splits an optional leading sign off a numeric literal.
pub open spec fn sign_split(s: Seq<char>) -> (bool, Seq<char>) {
    if s.len() > 0 && s[0] == '-' {
        (true, s.drop_first())
    } else if s.len() > 0 && s[0] == '+' {
        (false, s.drop_first())
    } else {
        (false, s)
    }
}

/// What parsing a 64-bit integer from text yields: an optional sign, then
/// one or more digits, with the value in `i64` range.
pub open spec fn parse_int_spec(s: Seq<char>) -> Option<i64> {
    let neg = sign_split(s).0;
    let body = sign_split(s).1;
    if body.len() == 0 || !all_digits(body) {
        None
    } else {
        let v = digits_val(body);
        if neg && v <= 0x8000_0000_0000_0000 {
            Some((-(v as int)) as i64)
        } else if !neg && v < 0x8000_0000_0000_0000 {
            Some(v as i64)
        } else {
            None
        }
    }
}

proof fn lemma_digits_val_step(s: Seq<char>, i: int)
    requires
        0 <= i < s.len(),
    ensures
        digits_val(s.take(i + 1)) == digits_val(s.take(i)) * 10 + digit_val(s[i]),
{
    assert(s.take(i + 1).drop_last() =~= s.take(i));
    assert(s.take(i + 1).last() == s[i]);
}

/// Accumulates the value of the digit run `cs[from..to]`, or nothing if it
/// exceeds `max`.
fn digits_val_range(cs: &Vec<char>, from: usize, to: usize, max: u64) -> (r: Option<u64>)
    requires
        from <= to <= cs@.len(),
        max >= 9,
        all_digits(cs@.subrange(from as int, to as int)),
    ensures
        digits_val(cs@.subrange(from as int, to as int)) <= max <==> r is Some,
        r is Some ==> r->0 as nat == digits_val(cs@.subrange(from as int, to as int)),
{
    let ghost body = cs@.subrange(from as int, to as int);
    let mut acc: u64 = 0;
    let mut i: usize = from;
    proof {
        assert(body.take(0) =~= Seq::<char>::empty());
    }
    while i < to
        invariant
            from <= i <= to <= cs@.len(),
            max >= 9,
            body == cs@.subrange(from as int, to as int),
            all_digits(body),
            acc <= max,
            acc as nat == digits_val(body.take(i - from)),
        decreases to - i,
    {
        let c = cs[i];
        proof {
            assert(body[i - from] == cs@[i as int]);
            assert(is_digit(c));
            assert('0' as u32 == 48 && '9' as u32 == 57);
            assert(48 <= c as u32 <= 57);
            lemma_digits_val_step(body, i - from);
        }
        let cu: u32 = c as u32;
        proof {
            assert(48 <= cu <= 57);
        }
        let d: u64 = (cu - 48) as u64;
        proof {
            assert(d <= 9);
        }
        if acc > (max - d) / 10 {
            proof {
                lemma_digits_val_extend_bound(body, i - from + 1, body.len() as int);
                assert(body.take(body.len() as int) =~= body);
            }
            return None;
        }
        acc = acc * 10 + d;
        i = i + 1;
    }
    proof {
        assert(body.take(to - from) =~= body);
    }
    Some(acc)
}

/// True when every character of `cs[from..to]` is a digit.
fn check_digits(cs: &Vec<char>, from: usize, to: usize) -> (b: bool)
    requires
        from <= to <= cs@.len(),
    ensures
        b == all_digits(cs@.subrange(from as int, to as int)),
{
    let ghost body = cs@.subrange(from as int, to as int);
    let mut i: usize = from;
    while i < to
        invariant
            from <= i <= to <= cs@.len(),
            body == cs@.subrange(from as int, to as int),
            forall|j: int| 0 <= j < i - from ==> is_digit(#[trigger] body[j]),
        decreases to - i,
    {
        let c = cs[i];
        proof {
            assert(body[i - from] == cs@[i as int]);
        }
        if !(c >= '0' && c <= '9') {
            return false;
        }
        i = i + 1;
    }
    true
}

/// Parses a 64-bit integer exactly as `parse_int_spec` describes.
pub fn parse_i64_text(s: &str) -> (r: Option<i64>)
    ensures
        r == parse_int_spec(s@),
{
    let cs = chars_vec(s);
    let mut start: usize = 0;
    let mut neg: bool = false;
    if cs.len() > 0 && cs[0] == '-' {
        neg = true;
        start = 1;
    } else if cs.len() > 0 && cs[0] == '+' {
        start = 1;
    }
    let ghost body = sign_split(s@).1;
    proof {
        assert(body =~= cs@.subrange(start as int, cs@.len() as int));
    }
    if start >= cs.len() {
        return None;
    }
    if !check_digits(&cs, start, cs.len()) {
        return None;
    }
    let hi: u64 = 0x8000_0000_0000_0000;
    match digits_val_range(&cs, start, cs.len(), hi) {
        None => {
            None
        },
        Some(mag) => {
            if neg {
                if mag == hi {
                    Some(i64::MIN)
                } else {
                    Some(-(mag as i64))
                }
            } else {
                if mag == hi {
                    None
                } else {
                    Some(mag as i64)
                }
            }
        },
    }
}

/// Index of the first `'.'` in `s`, or `s.len()` if there is none.
pub open spec fn dot_index(s: Seq<char>) -> int
    decreases s.len(),
{
    if s.len() == 0 {
        0
    } else if s[0] == '.' {
        0
    } else {
        1 + dot_index(s.drop_first())
    }
}

proof fn lemma_dot_index_range(s: Seq<char>)
    ensures
        0 <= dot_index(s) <= s.len(),
        dot_index(s) < s.len() ==> s[dot_index(s)] == '.',
        forall|j: int| 0 <= j < dot_index(s) ==> s[j] != '.',
    decreases s.len(),
{
    if s.len() > 0 && s[0] != '.' {
        lemma_dot_index_range(s.drop_first());
        assert forall|j: int| 0 <= j < dot_index(s) implies s[j] != '.' by {
            if j > 0 {
                assert(s.drop_first()[j - 1] == s[j]);
            }
        }
        if dot_index(s) < s.len() {
            assert(s.drop_first()[dot_index(s) - 1] == s[dot_index(s)]);
        }
    }
}

proof fn lemma_dot_index_unique(s: Seq<char>, i: int)
    requires
        0 <= i <= s.len(),
        i < s.len() ==> s[i] == '.',
        forall|j: int| 0 <= j < i ==> s[j] != '.',
    ensures
        dot_index(s) == i,
    decreases s.len(),
{
    if s.len() > 0 && s[0] != '.' {
        assert(i > 0);
        lemma_dot_index_unique(s.drop_first(), i - 1);
    }
}

/// The integer-part digits of a numeric body (before any point).
pub open spec fn int_part(body: Seq<char>) -> Seq<char> {
    body.take(dot_index(body))
}

/// The fraction digits of a numeric body (after the point, if present).
pub open spec fn frac_part(body: Seq<char>) -> Seq<char> {
    if dot_index(body) < body.len() {
        body.skip(dot_index(body) + 1)
    } else {
        Seq::empty()
    }
}

/// What parsing a decimal from text yields: an optional sign, digits with
/// at most one point and at least one digit, a mantissa below the
/// representable bound and at most `SCALE_LIMIT` fraction digits; the
/// result is canonical.
pub open spec fn parse_dec_spec(s: Seq<char>) -> Option<Decimal> {
    let neg = sign_split(s).0;
    let body = sign_split(s).1;
    let ip = int_part(body);
    let fp = frac_part(body);
    if !(all_digits(ip) && all_digits(fp) && ip.len() + fp.len() > 0) {
        None
    } else if digits_val(ip + fp) < MANTISSA_LIMIT as nat && fp.len() <= SCALE_LIMIT as nat {
        Some(dec_norm(neg, digits_val(ip + fp), fp.len()))
    } else {
        None
    }
}

proof fn lemma_digits_val_concat(a: Seq<char>, b: Seq<char>)
    ensures
        digits_val(a + b) == digits_val(a) * pow10(b.len()) + digits_val(b),
    decreases b.len(),
{
    if b.len() == 0 {
        assert(a + b =~= a);
        assert(pow10(0) == 1);
    } else {
        lemma_digits_val_concat(a, b.drop_last());
        assert((a + b).drop_last() =~= a + b.drop_last());
        assert((a + b).last() == b.last());
        assert(digits_val(a + b) == digits_val(a + b.drop_last()) * 10 + digit_val(b.last()));
        assert(digits_val(b) == digits_val(b.drop_last()) * 10 + digit_val(b.last()));
        let p = pow10((b.len() - 1) as nat);
        let va = digits_val(a);
        let vd = digits_val(b.drop_last());
        assert(digits_val(a + b.drop_last()) == va * p + vd);
        assert((va * p + vd) * 10 == va * (10 * p) + vd * 10) by (nonlinear_arith);
        assert(pow10(b.len()) == 10 * p);
    }
}

/// A digit run's value dominates the value of either half of a split.
proof fn lemma_concat_lower(a: Seq<char>, b: Seq<char>)
    ensures
        digits_val(a + b) >= digits_val(a),
        digits_val(a + b) >= digits_val(b),
{
    lemma_digits_val_concat(a, b);
    lemma_pow10_ge_one(b.len());
    assert(digits_val(a) * pow10(b.len()) >= digits_val(a) * 1) by (nonlinear_arith)
        requires
            pow10(b.len()) >= 1,
    ;
    assert(digits_val(a) * pow10(b.len()) >= 0);
}

/// Parses a decimal literal exactly as `parse_dec_spec` describes.
#[verifier::rlimit(50)]
pub fn parse_decimal_text(s: &str) -> (r: Option<Decimal>)
    ensures
        r == parse_dec_spec(s@),
        r is Some ==> r->0.wf(),
{
    let cs = chars_vec(s);
    let mut start: usize = 0;
    let mut neg: bool = false;
    if cs.len() > 0 && cs[0] == '-' {
        neg = true;
        start = 1;
    } else if cs.len() > 0 && cs[0] == '+' {
        start = 1;
    }
    let ghost body = sign_split(s@).1;
    proof {
        assert(body =~= cs@.subrange(start as int, cs@.len() as int));
    }
    // find the first point, if any
    let mut dot: usize = start;
    while dot < cs.len() && cs[dot] != '.'
        invariant
            start <= dot <= cs@.len(),
            body == cs@.subrange(start as int, cs@.len() as int),
            forall|j: int| start <= j < dot ==> cs@[j] != '.',
        decreases cs@.len() - dot,
    {
        dot = dot + 1;
    }
    proof {
        assert forall|j: int| 0 <= j < dot - start implies body[j] != '.' by {
            assert(body[j] == cs@[start + j]);
        }
        if dot < cs@.len() {
            assert(body[dot - start] == cs@[dot as int]);
        }
        lemma_dot_index_unique(body, dot - start);
        assert(int_part(body) =~= cs@.subrange(start as int, dot as int));
        if dot < cs@.len() {
            assert(frac_part(body) =~= cs@.subrange(dot + 1, cs@.len() as int));
        } else {
            assert(frac_part(body) =~= Seq::<char>::empty());
        }
    }
    let frac_from: usize = if dot < cs.len() {
        dot + 1
    } else {
        dot
    };
    proof {
        if dot == cs@.len() {
            assert(cs@.subrange(frac_from as int, cs@.len() as int) =~= Seq::<char>::empty());
            assert(frac_part(body) =~= cs@.subrange(frac_from as int, cs@.len() as int));
        }
    }
    if !check_digits(&cs, start, dot) {
        return None;
    }
    if !check_digits(&cs, frac_from, cs.len()) {
        return None;
    }
    let ip_len = dot - start;
    let fp_len = cs.len() - frac_from;
    if ip_len + fp_len == 0 {
        return None;
    }
    let ghost digits = int_part(body) + frac_part(body);
    proof {
        assert(all_digits(digits));
    }
    if fp_len > SCALE_LIMIT as usize {
        // the fraction is too fine for the representable scales
        proof {
            assert(parse_dec_spec(s@) is None);
        }
        return None;
    }
    let ghost ips = int_part(body);
    let ghost fps = frac_part(body);
    proof {
        lemma_concat_lower(ips, fps);
        lemma_digits_val_concat(ips, fps);
    }
    // value of the combined digit run
    let vi = match digits_val_range(&cs, start, dot, MANTISSA_LIMIT - 1) {
        None => {
            return None;
        },
        Some(v) => v,
    };
    let pf = crate::value::pow10_u64(fp_len as u8);
    proof {
        crate::value::lemma_pow10_bound(fp_len as nat);
    }
    let vf = match digits_val_range(&cs, frac_from, cs.len(), MANTISSA_LIMIT - 1) {
        None => {
            return None;
        },
        Some(v) => v,
    };
    // mantissa = vi * 10^fp_len + vf, checked against the bound
    if vi > (MANTISSA_LIMIT - 1 - vf) / pf {
        proof {
            lemma_div_bound_exceeded(vi as nat, vf as nat, pf as nat, (MANTISSA_LIMIT - 1) as nat);
        }
        return None;
    }
    proof {
        lemma_div_bound_ok(vi as nat, vf as nat, pf as nat, (MANTISSA_LIMIT - 1) as nat);
    }
    let m = vi * pf + vf;
    proof {
        lemma_dec_norm_wf(neg, m as nat, fp_len as nat);
    }
    Some(crate::value::dec_normalize(neg, m, fp_len as u8))
}

proof fn lemma_pow10_ge_one(e: nat)
    ensures
        pow10(e) >= 1,
{
    crate::value::lemma_pow10_pos(e);
}

/// If `vi > (cap - vf) / p` then `vi * p + vf > cap`.
proof fn lemma_div_bound_exceeded(vi: nat, vf: nat, p: nat, cap: nat)
    by (nonlinear_arith)
    requires
        p >= 1,
        vf <= cap,
        vi > (cap - vf) / (p as int),
    ensures
        vi * p + vf > cap,
{
}

/// If `vi <= (cap - vf) / p` then `vi * p + vf <= cap`.
proof fn lemma_div_bound_ok(vi: nat, vf: nat, p: nat, cap: nat)
    by (nonlinear_arith)
    requires
        p >= 1,
        vf <= cap,
        vi <= (cap - vf) / (p as int),
    ensures
        vi * p + vf <= cap,
{
}

} // verus!
