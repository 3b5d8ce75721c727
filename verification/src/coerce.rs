//! The type coercer: normalizes an incoming value into a column's declared
//! type, or fails with a mismatch.

use vstd::prelude::*;
use crate::text::{
    chars_vec, dec_to_chars, decimal_to_text, i64_to_text, int_to_chars, parse_dec_spec,
    parse_decimal_text, parse_i64_text, parse_int_spec, string_from_chars,
};
use crate::value::{pow10, DataType, Decimal, Value, ValueS};

verus! {

/// The exact decimal a 64-bit integer widens to.
pub open spec fn int_to_dec_spec(i: i64) -> Decimal {
    Decimal {
        negative: i < 0,
        mantissa: if i < 0 {
            (-(i as int)) as u64
        } else {
            i as u64
        },
        scale: 0,
    }
}

/// Truncation of an integral decimal to a 64-bit integer, if it fits.
pub open spec fn dec_to_int_spec(d: Decimal) -> Option<i64> {
    let p = pow10(d.scale as nat);
    if (d.mantissa as nat) % p != 0 {
        None
    } else {
        let q = (d.mantissa as nat) / p;
        if d.negative {
            if q <= 0x8000_0000_0000_0000 {
                Some((-(q as int)) as i64)
            } else {
                None
            }
        } else {
            if q < 0x8000_0000_0000_0000 {
                Some(q as i64)
            } else {
                None
            }
        }
    }
}

pub open spec fn is_space(c: char) -> bool {
    c == ' ' || c == '\t' || c == '\n' || c == '\r'
}

pub open spec fn trim_front(s: Seq<char>) -> Seq<char>
    decreases s.len(),
{
    if s.len() > 0 && is_space(s[0]) {
        trim_front(s.drop_first())
    } else {
        s
    }
}

pub open spec fn trim_back(s: Seq<char>) -> Seq<char>
    decreases s.len(),
{
    if s.len() > 0 && is_space(s.last()) {
        trim_back(s.drop_last())
    } else {
        s
    }
}

pub open spec fn trim_spec(s: Seq<char>) -> Seq<char> {
    trim_back(trim_front(s))
}

pub open spec fn lower_char(c: char) -> char {
    if 'A' <= c && c <= 'Z' {
        ((c as u32 + 32) as u8) as char
    } else {
        c
    }
}

/// ASCII lowercasing, character by character.
pub open spec fn lower_spec(s: Seq<char>) -> Seq<char> {
    s.map(|i: int, c: char| lower_char(c))
}

/// The boolean a text denotes: its trimmed, lowercased form must be
/// `true`/`1` or `false`/`0`.
pub open spec fn text_to_bool_spec(s: Seq<char>) -> Option<bool> {
    let t = lower_spec(trim_spec(s));
    if t == seq!['t', 'r', 'u', 'e'] || t == seq!['1'] {
        Some(true)
    } else if t == seq!['f', 'a', 'l', 's', 'e'] || t == seq!['0'] {
        Some(false)
    } else {
        None
    }
}

/// The coercion table: what a value becomes under a declared target type,
/// or nothing on a mismatch. Null passes through every target; no non-null
/// value coerces to the `Null` pseudo-type.
pub open spec fn coerce_spec(target: DataType, v: ValueS) -> Option<ValueS> {
    match v {
        ValueS::Null => Some(ValueS::Null),
        ValueS::Integer(i) => match target {
            DataType::Integer => Some(v),
            DataType::Float => Some(ValueS::Float(int_to_dec_spec(i))),
            DataType::Text => Some(ValueS::Text(int_to_chars(i as int))),
            DataType::Boolean => if i == 0 {
                Some(ValueS::Boolean(false))
            } else if i == 1 {
                Some(ValueS::Boolean(true))
            } else {
                None
            },
            DataType::Null => None,
        },
        ValueS::Float(d) => match target {
            DataType::Integer => match dec_to_int_spec(d) {
                Some(i) => Some(ValueS::Integer(i)),
                None => None,
            },
            DataType::Float => Some(v),
            DataType::Text => Some(ValueS::Text(dec_to_chars(d))),
            DataType::Boolean => if d.mantissa == 0 {
                Some(ValueS::Boolean(false))
            } else if !d.negative && d.mantissa as nat == pow10(d.scale as nat) {
                Some(ValueS::Boolean(true))
            } else {
                None
            },
            DataType::Null => None,
        },
        ValueS::Text(s) => match target {
            DataType::Integer => match parse_int_spec(s) {
                Some(i) => Some(ValueS::Integer(i)),
                None => None,
            },
            DataType::Float => match parse_dec_spec(s) {
                Some(d) => Some(ValueS::Float(d)),
                None => None,
            },
            DataType::Text => Some(v),
            DataType::Boolean => match text_to_bool_spec(s) {
                Some(b) => Some(ValueS::Boolean(b)),
                None => None,
            },
            DataType::Null => None,
        },
        ValueS::Boolean(b) => match target {
            DataType::Integer => Some(ValueS::Integer(if b {
                1
            } else {
                0
            })),
            DataType::Float => Some(ValueS::Float(Decimal {
                negative: false,
                mantissa: if b {
                    1
                } else {
                    0
                },
                scale: 0,
            })),
            DataType::Text => Some(ValueS::Text(if b {
                seq!['t', 'r', 'u', 'e']
            } else {
                seq!['f', 'a', 'l', 's', 'e']
            })),
            DataType::Boolean => Some(v),
            DataType::Null => None,
        },
    }
}

/// A coercion yields well-formed values.
pub proof fn lemma_coerce_wf(target: DataType, v: ValueS)
    requires
        v.wf(),
    ensures
        coerce_spec(target, v) matches Some(w) ==> w.wf(),
{
    match v {
        ValueS::Integer(i) => {
            if target == DataType::Float {
                assert(int_to_dec_spec(i).mantissa < crate::value::MANTISSA_LIMIT);
                assert(int_to_dec_spec(i).wf());
            }
        },
        ValueS::Text(s) => {
            if target == DataType::Float {
                match parse_dec_spec(s) {
                    Some(d) => {
                        crate::value::lemma_dec_norm_wf(
                            crate::text::sign_split(s).0,
                            crate::text::digits_val(
                                crate::text::int_part(crate::text::sign_split(s).1)
                                    + crate::text::frac_part(crate::text::sign_split(s).1),
                            ),
                            crate::text::frac_part(crate::text::sign_split(s).1).len(),
                        );
                    },
                    None => {},
                }
            }
        },
        _ => {},
    }
}

/// Coerces one value to the target type, exactly as `coerce_spec`
/// describes.
pub fn coerce_value(target: DataType, v: &Value) -> (r: Option<Value>)
    requires
        v@.wf(),
    ensures
        r is Some <==> coerce_spec(target, v@) is Some,
        r matches Some(w) ==> coerce_spec(target, v@) == Some(w@) && w@.wf(),
{
    proof {
        lemma_coerce_wf(target, v@);
    }
    match v {
        Value::Null => Some(Value::Null),
        Value::Integer(i) => match target {
            DataType::Integer => Some(Value::Integer(*i)),
            DataType::Float => {
                let mag: u64 = if *i < 0 {
                    if *i == i64::MIN {
                        9_223_372_036_854_775_808u64
                    } else {
                        (-*i) as u64
                    }
                } else {
                    *i as u64
                };
                Some(Value::Float(Decimal { negative: *i < 0, mantissa: mag, scale: 0 }))
            },
            DataType::Text => Some(Value::Text(i64_to_text(*i))),
            DataType::Boolean => {
                if *i == 0 {
                    Some(Value::Boolean(false))
                } else if *i == 1 {
                    Some(Value::Boolean(true))
                } else {
                    None
                }
            },
            DataType::Null => None,
        },
        Value::Float(d) => match target {
            DataType::Integer => {
                let p = crate::value::pow10_u64(d.scale);
                if d.mantissa % p != 0 {
                    None
                } else {
                    let q = d.mantissa / p;
                    if d.negative {
                        if q <= 0x8000_0000_0000_0000u64 {
                            if q == 0x8000_0000_0000_0000u64 {
                                Some(Value::Integer(i64::MIN))
                            } else {
                                Some(Value::Integer(-(q as i64)))
                            }
                        } else {
                            None
                        }
                    } else {
                        if q < 0x8000_0000_0000_0000u64 {
                            Some(Value::Integer(q as i64))
                        } else {
                            None
                        }
                    }
                }
            },
            DataType::Float => Some(Value::Float(*d)),
            DataType::Text => Some(Value::Text(decimal_to_text(d))),
            DataType::Boolean => {
                if d.mantissa == 0 {
                    Some(Value::Boolean(false))
                } else {
                    let p = crate::value::pow10_u64(d.scale);
                    if !d.negative && d.mantissa == p {
                        Some(Value::Boolean(true))
                    } else {
                        None
                    }
                }
            },
            DataType::Null => None,
        },
        Value::Text(s) => match target {
            DataType::Integer => match parse_i64_text(s.as_str()) {
                Some(i) => Some(Value::Integer(i)),
                None => None,
            },
            DataType::Float => match parse_decimal_text(s.as_str()) {
                Some(d) => Some(Value::Float(d)),
                None => None,
            },
            DataType::Text => Some(Value::Text(crate::filter::clone_string(s))),
            DataType::Boolean => match text_to_bool(s.as_str()) {
                Some(b) => Some(Value::Boolean(b)),
                None => None,
            },
            DataType::Null => None,
        },
        Value::Boolean(b) => match target {
            DataType::Integer => Some(Value::Integer(
                if *b {
                    1
                } else {
                    0
                },
            )),
            DataType::Float => Some(Value::Float(Decimal {
                negative: false,
                mantissa: if *b {
                    1
                } else {
                    0
                },
                scale: 0,
            })),
            DataType::Text => {
                let mut cs: Vec<char> = Vec::new();
                if *b {
                    cs.push('t');
                    cs.push('r');
                    cs.push('u');
                    cs.push('e');
                    proof {
                        assert(cs@ =~= seq!['t', 'r', 'u', 'e']);
                    }
                } else {
                    cs.push('f');
                    cs.push('a');
                    cs.push('l');
                    cs.push('s');
                    cs.push('e');
                    proof {
                        assert(cs@ =~= seq!['f', 'a', 'l', 's', 'e']);
                    }
                }
                Some(Value::Text(string_from_chars(&cs)))
            },
            DataType::Boolean => Some(Value::Boolean(*b)),
            DataType::Null => None,
        },
    }
}

/// Reads a boolean out of text, as `text_to_bool_spec` describes.
/// The window of `cs` that survives trimming leading and trailing
/// whitespace.
pub fn trim_window(cs: &Vec<char>) -> (r: (usize, usize))
    ensures
        r.0 <= r.1 <= cs@.len(),
        trim_spec(cs@) == cs@.subrange(r.0 as int, r.1 as int),
{
    let mut from: usize = 0;
    let n = cs.len();
    proof {
        assert(cs@.skip(0) =~= cs@);
    }
    while from < n && is_space_exec(cs[from])
        invariant
            0 <= from <= n,
            n == cs@.len(),
            trim_front(cs@) == trim_front(cs@.skip(from as int)),
            forall|j: int| 0 <= j < from ==> is_space(#[trigger] cs@[j]),
        decreases n - from,
    {
        proof {
            assert(cs@.skip(from as int)[0] == cs@[from as int]);
            assert(cs@.skip(from as int).drop_first() =~= cs@.skip(from as int + 1));
        }
        from = from + 1;
    }
    proof {
        if from < n {
            assert(cs@.skip(from as int)[0] == cs@[from as int]);
        }
        assert(trim_front(cs@) == cs@.skip(from as int));
    }
    let mut to: usize = n;
    proof {
        assert(cs@.skip(from as int).take(n - from as int) =~= cs@.skip(from as int));
    }
    while to > from && is_space_exec(cs[to - 1])
        invariant
            from <= to <= n,
            n == cs@.len(),
            trim_front(cs@) == cs@.skip(from as int),
            trim_back(cs@.skip(from as int)) == trim_back(
                cs@.skip(from as int).take(to - from as int),
            ),
        decreases to,
    {
        proof {
            let cur = cs@.skip(from as int).take(to - from as int);
            assert(cur.last() == cs@[to - 1]);
            assert(cur.drop_last() =~= cs@.skip(from as int).take(to - 1 - from as int));
        }
        to = to - 1;
    }
    proof {
        let cur = cs@.skip(from as int).take(to - from as int);
        if to > from {
            assert(cur.last() == cs@[to - 1]);
        }
        assert(trim_back(cur) == cur);
        assert(trim_spec(cs@) == cur);
        assert(cur =~= cs@.subrange(from as int, to as int));
    }
    (from, to)
}

fn text_to_bool(s: &str) -> (r: Option<bool>)
    ensures
        r == text_to_bool_spec(s@),
{
    let cs = chars_vec(s);
    let n = cs.len();
    let window = trim_window(&cs);
    let from = window.0;
    let to = window.1;
    proof {
        assert(trim_spec(s@) == cs@.subrange(from as int, to as int));
        assert(cs@.subrange(from as int, to as int) =~= cs@.skip(from as int).take(
            to - from as int,
        ));
    }
    // lowercase the trimmed window
    let mut t: Vec<char> = Vec::new();
    let mut i: usize = from;
    while i < to
        invariant
            from <= i <= to <= n,
            n == cs@.len(),
            t@ == lower_spec(trim_spec(s@)).take(i - from as int),
            trim_spec(s@) == cs@.skip(from as int).take(to - from as int),
            s@ == cs@,
        decreases to - i,
    {
        let c = cs[i];
        let lc: char = if c >= 'A' && c <= 'Z' {
            (((c as u32) + 32) as u8) as char
        } else {
            c
        };
        proof {
            let tw = trim_spec(s@);
            assert(tw[i - from as int] == cs@[i as int]);
            assert(lower_spec(tw)[i - from as int] == lower_char(cs@[i as int]));
            assert(lower_spec(tw).take(i + 1 - from as int) =~= lower_spec(tw).take(
                i - from as int,
            ).push(lower_char(cs@[i as int])));
        }
        t.push(lc);
        i = i + 1;
    }
    proof {
        assert(lower_spec(trim_spec(s@)).take(to - from as int) =~= lower_spec(trim_spec(s@)));
    }
    // compare against the four accepted spellings
    let r: Option<bool> = if t.len() == 4 && t[0] == 't' && t[1] == 'r' && t[2] == 'u' && t[3]
        == 'e' {
        proof {
            assert(t@ =~= seq!['t', 'r', 'u', 'e']);
        }
        Some(true)
    } else if t.len() == 1 && t[0] == '1' {
        proof {
            assert(t@ =~= seq!['1']);
        }
        Some(true)
    } else if t.len() == 5 && t[0] == 'f' && t[1] == 'a' && t[2] == 'l' && t[3] == 's' && t[4]
        == 'e' {
        proof {
            assert(t@ =~= seq!['f', 'a', 'l', 's', 'e']);
        }
        Some(false)
    } else if t.len() == 1 && t[0] == '0' {
        proof {
            assert(t@ =~= seq!['0']);
        }
        Some(false)
    } else {
        proof {
            let w = lower_spec(trim_spec(s@));
            if w == seq!['t', 'r', 'u', 'e'] {
                assert(t@.len() == 4 && t@[0] == 't' && t@[1] == 'r' && t@[2] == 'u' && t@[3]
                    == 'e');
            }
            if w == seq!['1'] {
                assert(t@.len() == 1 && t@[0] == '1');
            }
            if w == seq!['f', 'a', 'l', 's', 'e'] {
                assert(t@.len() == 5);
            }
            if w == seq!['0'] {
                assert(t@.len() == 1 && t@[0] == '0');
            }
        }
        None
    };
    r
}

fn is_space_exec(c: char) -> (b: bool)
    ensures
        b == is_space(c),
{
    c == ' ' || c == '\t' || c == '\n' || c == '\r'
}

} // verus!
