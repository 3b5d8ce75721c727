//! The dynamically tagged cell value, the declared column types, and the
//! exact decimal payload that stands for a float-typed cell.

use vstd::prelude::*;

verus! {

/// A column's declared type. `Null` appears only as the decoded form of an
/// unknown catalog discriminator, never on a freshly created column.
#[derive(Debug, Clone, Copy, PartialEq, Eq, Structural)]
pub enum DataType {
    Integer,
    Float,
    Text,
    Boolean,
    Null,
}

/// Largest admissible mantissa bound: 10^19, just above `i64`'s magnitude
/// range, so every 64-bit integer widens exactly.
pub const MANTISSA_LIMIT: u64 = 10_000_000_000_000_000_000;

/// Largest admissible scale (number of fractional decimal digits).
pub const SCALE_LIMIT: u8 = 18;

/// An exact decimal number `±mantissa / 10^scale`. Float-typed cells hold
/// one of these: every float that enters the engine arrives as a decimal
/// literal or through a coercion, so the engine never performs inexact
/// arithmetic and can compare these values exactly — equality is exact
/// value equality, not an epsilon band. The representable domain is
/// deliberately the decimal literals: at most nineteen significant
/// digits, at most eighteen fraction digits, no exponent notation, no
/// infinities, no not-a-number; a literal outside it is rejected as a
/// mismatch rather than rounded.
#[derive(Debug, Clone, Copy, PartialEq, Eq, Structural)]
pub struct Decimal {
    pub negative: bool,
    pub mantissa: u64,
    pub scale: u8,
}

/// 10^e as a mathematical natural.
pub open spec fn pow10(e: nat) -> nat
    decreases e,
{
    if e == 0 {
        1
    } else {
        10 * pow10((e - 1) as nat)
    }
}

pub proof fn lemma_pow10_bound(e: nat)
    requires
        e <= 18,
    ensures
        pow10(e) <= 1_000_000_000_000_000_000,
        pow10(e) >= 1,
{
    reveal_with_fuel(pow10, 20);
    lemma_pow10_mono(e, 18);
    lemma_pow10_pos(e);
    assert(pow10(18) == 1_000_000_000_000_000_000);
}

pub proof fn lemma_pow10_pos(e: nat)
    ensures
        pow10(e) >= 1,
    decreases e,
{
    if e > 0 {
        lemma_pow10_pos((e - 1) as nat);
    }
}

/// Computes 10^e for the scales a well-formed decimal can carry.
pub fn pow10_u64(e: u8) -> (r: u64)
    requires
        e <= 18,
    ensures
        r == pow10(e as nat),
        r >= 1,
{
    let mut r: u64 = 1;
    let mut i: u8 = 0;
    proof {
        lemma_pow10_bound(e as nat);
    }
    while i < e
        invariant
            i <= e,
            e <= 18,
            r == pow10(i as nat),
            r >= 1,
        decreases e - i,
    {
        proof {
            lemma_pow10_bound(e as nat);
            lemma_pow10_mono(i as nat, (e - 1) as nat);
            lemma_pow10_bound((e - 1) as nat);
        }
        r = r * 10;
        i = i + 1;
    }
    r
}

pub proof fn lemma_pow10_mono(a: nat, b: nat)
    requires
        a <= b,
    ensures
        pow10(a) <= pow10(b),
    decreases b,
{
    if a < b {
        lemma_pow10_mono(a, (b - 1) as nat);
        lemma_pow10_pos((b - 1) as nat);
    }
}

impl Decimal {
    /// Well-formedness: mantissa and scale bounded so that cross
    /// multiplication fits in 128 bits, no trailing fractional zeros, and a
    /// unique representation of zero.
    pub open spec fn wf(self) -> bool {
        &&& self.mantissa < MANTISSA_LIMIT
        &&& self.scale <= SCALE_LIMIT
        &&& (self.scale > 0 ==> self.mantissa % 10 != 0)
        &&& (self.mantissa == 0 ==> self.scale == 0 && !self.negative)
    }

    /// The signed numerator `±mantissa`; the represented number is
    /// `numerator / 10^scale`.
    pub open spec fn numerator(self) -> int {
        if self.negative {
            -(self.mantissa as int)
        } else {
            self.mantissa as int
        }
    }

    /// Sign of `self - other` as an integer in {-1, 0, 1}, comparing the
    /// exact represented numbers.
    pub open spec fn cmp_spec(self, other: Decimal) -> int {
        let lhs = self.numerator() * pow10(other.scale as nat);
        let rhs = other.numerator() * pow10(self.scale as nat);
        if lhs < rhs {
            -1
        } else if lhs == rhs {
            0
        } else {
            1
        }
    }

    pub open spec fn eq_spec(self, other: Decimal) -> bool {
        self.cmp_spec(other) == 0
    }

    /// Compares two decimals exactly; returns -1, 0 or 1 as `self` is
    /// below, equal to, or above `other`.
    pub fn compare(&self, other: &Decimal) -> (c: i8)
        requires
            self.wf(),
            other.wf(),
        ensures
            c as int == self.cmp_spec(*other),
    {
        let pa = pow10_u64(other.scale) as u128;
        let pb = pow10_u64(self.scale) as u128;
        proof {
            lemma_pow10_bound(other.scale as nat);
            lemma_pow10_bound(self.scale as nat);
            lemma_mul_bound(self.mantissa as nat, pow10(other.scale as nat));
            lemma_mul_bound(other.mantissa as nat, pow10(self.scale as nat));
        }
        let ma = (self.mantissa as u128) * pa;
        let mb = (other.mantissa as u128) * pb;
        let sa: i8 = if self.mantissa == 0 {
            0
        } else if self.negative {
            -1
        } else {
            1
        };
        let sb: i8 = if other.mantissa == 0 {
            0
        } else if other.negative {
            -1
        } else {
            1
        };
        proof {
            lemma_pow10_pos(other.scale as nat);
            lemma_pow10_pos(self.scale as nat);
            lemma_signed_product(self.numerator(), pow10(other.scale as nat));
            lemma_signed_product(other.numerator(), pow10(self.scale as nat));
        }
        if sa != sb {
            if sa < sb {
                -1
            } else {
                1
            }
        } else if sa == 0 {
            0
        } else if sa > 0 {
            if ma < mb {
                -1
            } else if ma == mb {
                0
            } else {
                1
            }
        } else {
            if ma < mb {
                1
            } else if ma == mb {
                0
            } else {
                -1
            }
        }
    }
}

/// Canonical form of `±m / 10^s`: trailing fractional zeros stripped and
/// zero represented uniquely.
pub open spec fn dec_norm(neg: bool, m: nat, s: nat) -> Decimal
    decreases s,
{
    if s > 0 && m % 10 == 0 {
        dec_norm(neg, m / 10, (s - 1) as nat)
    } else {
        Decimal { negative: neg && m != 0, mantissa: m as u64, scale: s as u8 }
    }
}

pub proof fn lemma_dec_norm_wf(neg: bool, m: nat, s: nat)
    requires
        m < MANTISSA_LIMIT,
        s <= SCALE_LIMIT,
    ensures
        dec_norm(neg, m, s).wf(),
    decreases s,
{
    if s > 0 && m % 10 == 0 {
        lemma_dec_norm_wf(neg, m / 10, (s - 1) as nat);
    }
}

/// Brings a sign, mantissa and scale into canonical form.
pub fn dec_normalize(neg: bool, m: u64, s: u8) -> (d: Decimal)
    requires
        m < MANTISSA_LIMIT,
        s <= SCALE_LIMIT,
    ensures
        d == dec_norm(neg, m as nat, s as nat),
        d.wf(),
{
    let mut mm: u64 = m;
    let mut sc: u8 = s;
    while sc > 0 && mm % 10 == 0
        invariant
            mm < MANTISSA_LIMIT,
            sc <= SCALE_LIMIT,
            dec_norm(neg, m as nat, s as nat) == dec_norm(neg, mm as nat, sc as nat),
        decreases sc,
    {
        mm = mm / 10;
        sc = sc - 1;
    }
    proof {
        lemma_dec_norm_wf(neg, m as nat, s as nat);
    }
    Decimal { negative: neg && mm != 0, mantissa: mm, scale: sc }
}

impl Decimal {
    /// Builds the canonical decimal `±mantissa / 10^scale`, or nothing if
    /// the parts exceed the representable bounds.
    pub fn from_parts(negative: bool, mantissa: u64, scale: u8) -> (r: Option<Decimal>)
        ensures
            mantissa < MANTISSA_LIMIT && scale <= SCALE_LIMIT <==> r is Some,
            r is Some ==> r->0 == dec_norm(negative, mantissa as nat, scale as nat) && r->0.wf(),
    {
        if mantissa < MANTISSA_LIMIT && scale <= SCALE_LIMIT {
            Some(dec_normalize(negative, mantissa, scale))
        } else {
            None
        }
    }
}

/// `m * p` stays within u128 for a bounded mantissa and scale power.
proof fn lemma_mul_bound(m: nat, p: nat)
    by (nonlinear_arith)
    requires
        m < 10_000_000_000_000_000_000,
        p <= 1_000_000_000_000_000_000,
    ensures
        m * p < 0x1_0000_0000_0000_0000_0000_0000_0000_0000,
{
}

/// The sign of `n * p` for positive `p` is the sign of `n`, and the product's
/// magnitude is the magnitude's product.
proof fn lemma_signed_product(n: int, p: nat)
    by (nonlinear_arith)
    requires
        p >= 1,
    ensures
        n > 0 ==> n * p > 0,
        n < 0 ==> n * p < 0,
        n == 0 ==> n * p == 0,
        n < 0 ==> n * p == -((-n) * p),
{
}

/// One cell of a row: a tagged value. Ordering and equality are defined
/// only between values of the same tag.
#[derive(Debug, Clone, PartialEq)]
pub enum Value {
    Integer(i64),
    Float(Decimal),
    Text(String),
    Boolean(bool),
    Null,
}

/// The mathematical model of a cell value: text is a character sequence,
/// the other payloads carry over unchanged.
pub enum ValueS {
    Integer(i64),
    Float(Decimal),
    Text(Seq<char>),
    Boolean(bool),
    Null,
}

impl View for Value {
    type V = ValueS;

    open spec fn view(&self) -> ValueS {
        match self {
            Value::Integer(i) => ValueS::Integer(*i),
            Value::Float(d) => ValueS::Float(*d),
            Value::Text(s) => ValueS::Text(s@),
            Value::Boolean(b) => ValueS::Boolean(*b),
            Value::Null => ValueS::Null,
        }
    }
}

impl ValueS {
    /// Every decimal payload carried by a value is well-formed.
    pub open spec fn wf(self) -> bool {
        match self {
            ValueS::Float(d) => d.wf(),
            _ => true,
        }
    }

    /// The declared type a value's tag corresponds to.
    pub open spec fn tag(self) -> DataType {
        match self {
            ValueS::Integer(_) => DataType::Integer,
            ValueS::Float(_) => DataType::Float,
            ValueS::Text(_) => DataType::Text,
            ValueS::Boolean(_) => DataType::Boolean,
            ValueS::Null => DataType::Null,
        }
    }
}

/// The model of a row's cell vector.
pub open spec fn row_view(vs: Seq<Value>) -> Seq<ValueS> {
    vs.map(|i: int, v: Value| v@)
}

/// Every value of a modelled row is well-formed.
pub open spec fn row_wf(r: Seq<ValueS>) -> bool {
    forall|i: int| 0 <= i < r.len() ==> (#[trigger] r[i]).wf()
}

} // verus!
