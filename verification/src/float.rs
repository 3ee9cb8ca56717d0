//! Floating-point numbers, held as the bit pattern of an IEEE 754 binary64
//! value together with the text that stands for it in output.
//!
//! The library never computes with such a number. It orders two of them by
//! their bit patterns, and it tells whether one denotes a whole number that a
//! 64-bit signed integer can hold.

use crate::order::{compare_text, lemma_text_order, text_below, Rank};
use crate::scalar::Scalar;
use vstd::arithmetic::div_mod::{lemma_fundamental_div_mod, lemma_small_mod};
use vstd::arithmetic::power2::{
    lemma2_to64, lemma2_to64_rest, lemma_pow2_adds, lemma_pow2_pos,
    lemma_pow2_strictly_increases, lemma_pow2_unfold, pow2,
};
use vstd::prelude::*;
use vstd::string::StringExecFns;

verus! {

/// The sign bit of a binary64 pattern.
pub const SIGN_BIT: u64 = 0x8000_0000_0000_0000;

/// Two to the power 52: the weight of the hidden bit of the significand.
pub const HIDDEN_BIT: u64 = 0x10_0000_0000_0000;

/// A floating-point number: its binary64 bit pattern and its text.
#[derive(Clone, Debug)]
pub struct FloatNumber {
    pub bits: u64,
    pub text: String,
}

/// The model of a [`FloatNumber`].
pub struct FloatModel {
    pub bits: u64,
    pub text: Seq<char>,
}

impl View for FloatNumber {
    type V = FloatModel;

    open spec fn view(&self) -> FloatModel {
        FloatModel { bits: self.bits, text: self.text@ }
    }
}

/// The place of a bit pattern in the total order of binary64: patterns with
/// the sign bit clear rank as themselves, those with it set rank below them in
/// the reverse order of their magnitudes. Negative zero ranks just below
/// positive zero. Finite numbers rank as their values do, see
/// [`lemma_rank_is_value_order`].
pub open spec fn float_rank(bits: u64) -> int {
    if bits < SIGN_BIT {
        bits as int
    } else {
        SIGN_BIT - 1 - bits
    }
}

/// The order of floating-point numbers: by rank, and by text where the bit
/// patterns are the same.
pub open spec fn float_below(a: FloatModel, b: FloatModel) -> bool {
    float_rank(a.bits) < float_rank(b.bits) || (a.bits == b.bits && text_below(a.text, b.text))
}

/// The biased exponent of a bit pattern.
pub open spec fn exponent_field(bits: u64) -> int {
    (bits as int / HIDDEN_BIT as int) % 2048
}

/// The fraction bits of a bit pattern.
pub open spec fn fraction_field(bits: u64) -> int {
    bits as int % HIDDEN_BIT as int
}

/// Neither an infinity nor a NaN.
pub open spec fn is_finite(bits: u64) -> bool {
    exponent_field(bits) != 2047
}

/// The integer `m` such that the number's magnitude is `m` times two to the
/// power `scale`.
pub open spec fn significand(bits: u64) -> int {
    if exponent_field(bits) == 0 {
        fraction_field(bits)
    } else {
        HIDDEN_BIT + fraction_field(bits)
    }
}

/// The power of two by which the significand is scaled.
pub open spec fn scale(bits: u64) -> int {
    if exponent_field(bits) == 0 {
        -1074
    } else {
        exponent_field(bits) - 1075
    }
}

/// The magnitude of the number, where the number is finite and whole.
pub open spec fn whole_magnitude(bits: u64) -> Option<int> {
    let m = significand(bits);
    let e = scale(bits);
    if !is_finite(bits) {
        None
    } else if m == 0 {
        Some(0)
    } else if e >= 0 {
        Some(m * pow2(e as nat))
    } else if m % (pow2((-e) as nat) as int) == 0 {
        Some(m / (pow2((-e) as nat) as int))
    } else {
        None
    }
}

/// The value of the number, where the number is finite and whole.
pub open spec fn whole_value(bits: u64) -> Option<int> {
    match whole_magnitude(bits) {
        Some(m) => Some(
            if bits >= SIGN_BIT {
                -m
            } else {
                m
            },
        ),
        None => None,
    }
}

/// The value of the number, where it is whole and a 64-bit signed integer can
/// hold it.
pub open spec fn float_integer(bits: u64) -> Option<i64> {
    match whole_value(bits) {
        Some(v) => if i64::MIN <= v <= i64::MAX {
            Some(v as i64)
        } else {
            None
        },
        None => None,
    }
}

/// The value of a finite number, times two to the power 1074: a whole number,
/// since no finite number has a smaller unit.
pub open spec fn scaled_value(bits: u64) -> int {
    let m = significand(bits) * pow2((scale(bits) + 1074) as nat);
    if bits >= SIGN_BIT {
        -m
    } else {
        m
    }
}

/// The magnitude of a finite number, times two to the power 1074, grows with
/// the bit pattern without its sign.
proof fn lemma_magnitude_grows(x: u64, y: u64)
    requires
        x < y < SIGN_BIT,
        is_finite(x),
        is_finite(y),
    ensures
        0 <= scaled_value(x) < scaled_value(y),
{
    let ex = exponent_field(x);
    let ey = exponent_field(y);
    let sx = significand(x);
    let sy = significand(y);
    let kx = (scale(x) + 1074) as nat;
    let ky = (scale(y) + 1074) as nat;
    let px = pow2(kx) as int;
    let py = pow2(ky) as int;
    lemma_pow2_pos(kx);
    lemma_pow2_pos(ky);
    lemma2_to64();
    assert(x == ex * HIDDEN_BIT + fraction_field(x));
    assert(y == ey * HIDDEN_BIT + fraction_field(y));
    assert(0 <= sx * px) by (nonlinear_arith)
        requires
            0 <= sx,
            0 < px,
    ;
    if ex == ey {
        assert(sx * px < sy * py) by (nonlinear_arith)
            requires
                sx < sy,
                px == py,
                0 < px,
        ;
    } else {
        assert(ex < ey);
        if ex == 0 {
            assert(px == 1);
            assert(sx * px < sy * py) by (nonlinear_arith)
                requires
                    0 <= sx < HIDDEN_BIT,
                    px == 1,
                    sy >= HIDDEN_BIT,
                    py >= 1,
            ;
        } else {
            // sx < 2 * 2^52, and 2 * 2^(ex - 1) <= 2^(ey - 1).
            assert(kx + 1 <= ky);
            lemma_pow2_unfold(kx + 1);
            if kx + 1 < ky {
                lemma_pow2_strictly_increases(kx + 1, ky);
            }
            assert(2 * px <= py);
            assert(sx * px < sy * py) by (nonlinear_arith)
                requires
                    0 <= sx < 2 * HIDDEN_BIT,
                    sy >= HIDDEN_BIT,
                    0 < px,
                    2 * px <= py,
            ;
        }
    }
}

/// A bit pattern without its sign has the same fields, and the same scaled
/// value but for the sign.
proof fn lemma_without_sign(a: u64)
    ensures
        ({
            let m = (a % SIGN_BIT) as u64;
            &&& m < SIGN_BIT
            &&& is_finite(m) == is_finite(a)
            &&& scaled_value(m) == if a >= SIGN_BIT {
                -scaled_value(a)
            } else {
                scaled_value(a)
            }
            &&& float_rank(a) == if a >= SIGN_BIT {
                -1 - m
            } else {
                m as int
            }
        }),
{
    let m = (a % SIGN_BIT) as u64;
    assert(exponent_field(m) == exponent_field(a));
    assert(fraction_field(m) == fraction_field(a));
}

/// The scaled value of positive zero is zero.
proof fn lemma_zero_value()
    ensures
        scaled_value(0) == 0,
        is_finite(0),
{
    assert(significand(0) == 0);
    assert(significand(0) * pow2((scale(0) + 1074) as nat) == 0) by (nonlinear_arith)
        requires
            significand(0) == 0,
    ;
}

/// The rank orders finite numbers as their values do: a smaller value has a
/// smaller rank, and a smaller rank never goes with a greater value. Two
/// finite numbers have the same value only if they are the same number or
/// both are zero.
pub proof fn lemma_rank_is_value_order(a: u64, b: u64)
    requires
        is_finite(a),
        is_finite(b),
    ensures
        scaled_value(a) < scaled_value(b) ==> float_rank(a) < float_rank(b),
        float_rank(a) < float_rank(b) ==> scaled_value(a) <= scaled_value(b),
        scaled_value(a) == scaled_value(b) ==> a == b || scaled_value(a) == 0,
{
    let ma = (a % SIGN_BIT) as u64;
    let mb = (b % SIGN_BIT) as u64;
    lemma_without_sign(a);
    lemma_without_sign(b);
    lemma_zero_value();
    if ma < mb {
        lemma_magnitude_grows(ma, mb);
    } else if mb < ma {
        lemma_magnitude_grows(mb, ma);
    }
    if 0 < ma {
        lemma_magnitude_grows(0, ma);
    }
    if 0 < mb {
        lemma_magnitude_grows(0, mb);
    }
}

/// Where the number is whole, its scaled value is that whole number times
/// two to the power 1074.
pub proof fn lemma_whole_value(bits: u64)
    requires
        whole_value(bits) is Some,
    ensures
        scaled_value(bits) == whole_value(bits)->0 * pow2(1074),
{
    let m = significand(bits);
    let e = scale(bits);
    let k = (e + 1074) as nat;
    let w = whole_magnitude(bits)->0;
    let unit = pow2(1074) as int;
    lemma_pow2_pos(k);
    lemma_pow2_pos(1074);
    assert(m * pow2(k) == w * unit) by {
        if m == 0 {
            assert(m * pow2(k) == 0 && w * unit == 0) by (nonlinear_arith)
                requires
                    m == 0,
                    w == 0,
            ;
        } else if e >= 0 {
            lemma_pow2_adds(e as nat, 1074);
            assert(m * pow2(k) == (m * pow2(e as nat)) * unit) by (nonlinear_arith)
                requires
                    pow2(k) == pow2(e as nat) * unit,
            ;
        } else {
            let d = pow2((-e) as nat) as int;
            lemma_pow2_pos((-e) as nat);
            lemma_pow2_adds((-e) as nat, k);
            lemma_fundamental_div_mod(m, d);
            assert(m * pow2(k) == (m / d) * unit) by (nonlinear_arith)
                requires
                    m == d * (m / d) + m % d,
                    m % d == 0,
                    unit == d * pow2(k),
            ;
        }
    }
    assert((-w) * unit == -(w * unit)) by (nonlinear_arith);
}

/// Two to the power `k`.
fn power_of_two(k: u64) -> (r: u64)
    requires
        k <= 52,
    ensures
        r == pow2(k as nat),
        1 <= r <= HIDDEN_BIT,
{
    let mut r: u64 = 1;
    let mut i: u64 = 0;
    proof {
        lemma2_to64();
        lemma2_to64_rest();
    }
    while i < k
        invariant
            i <= k <= 52,
            r == pow2(i as nat),
            1 <= r,
            pow2(52) == HIDDEN_BIT,
        decreases k - i,
    {
        proof {
            lemma_pow2_unfold((i + 1) as nat);
            if i + 1 < 52 {
                lemma_pow2_strictly_increases((i + 1) as nat, 52);
            }
        }
        r = r * 2;
        i = i + 1;
    }
    proof {
        if k < 52 {
            lemma_pow2_strictly_increases(k as nat, 52);
        }
    }
    r
}

/// Gives a sign to a magnitude.
fn signed(negative: bool, magnitude: u64) -> (r: i64)
    requires
        magnitude <= i64::MAX,
    ensures
        r == if negative {
            -(magnitude as int)
        } else {
            magnitude as int
        },
{
    if negative {
        -(magnitude as i64)
    } else {
        magnitude as i64
    }
}

/// The value of the number with the bit pattern `bits`, if it is a whole
/// number that fits a 64-bit signed integer.
pub fn float_as_integer(bits: u64) -> (r: Option<i64>)
    ensures
        r == float_integer(bits),
{
    let negative = bits >= SIGN_BIT;
    let magnitude_bits = bits % SIGN_BIT;
    let exponent = magnitude_bits / HIDDEN_BIT;
    let fraction = magnitude_bits % HIDDEN_BIT;
    assert(exponent == exponent_field(bits));
    assert(fraction == fraction_field(bits));
    if exponent == 2047 {
        return None;
    }
    let m: u64 = if exponent == 0 {
        fraction
    } else {
        HIDDEN_BIT + fraction
    };
    assert(m == significand(bits));
    if m == 0 {
        return Some(0);
    }
    proof {
        lemma2_to64();
        lemma2_to64_rest();
    }
    if exponent >= 1075 {
        let up: u64 = exponent - 1075;
        assert(up == scale(bits));
        if up <= 10 {
            let p = power_of_two(up);
            proof {
                if up < 10 {
                    lemma_pow2_strictly_increases(up as nat, 10);
                }
                assert(m * p <= 0x1F_FFFF_FFFF_FFFF * 1024) by (nonlinear_arith)
                    requires
                        0 <= m <= 0x1F_FFFF_FFFF_FFFF,
                        0 <= p <= 1024,
                ;
            }
            Some(signed(negative, m * p))
        } else if up == 11 && negative && m == HIDDEN_BIT {
            Some(i64::MIN)
        } else {
            proof {
                // From two to the power 11 on, the magnitude is beyond the
                // range, but for the least significand at that power.
                let p = pow2(up as nat) as int;
                if up > 11 {
                    lemma_pow2_strictly_increases(11, up as nat);
                }
                if up > 12 {
                    lemma_pow2_strictly_increases(12, up as nat);
                }
                assert(m * p >= m * 2048 && (p >= 4096 ==> m * p >= m * 4096)) by (nonlinear_arith)
                    requires
                        m >= 0,
                        p >= 2048,
                ;
            }
            None
        }
    } else {
        let down: u64 = if exponent == 0 {
            1074
        } else {
            1075 - exponent
        };
        assert(down == -scale(bits));
        if down > 52 {
            proof {
                if down > 53 {
                    lemma_pow2_strictly_increases(53, down as nat);
                }
                lemma_small_mod(m as nat, pow2(down as nat));
            }
            None
        } else {
            let d = power_of_two(down);
            if m % d == 0 {
                Some(signed(negative, m / d))
            } else {
                None
            }
        }
    }
}

impl FloatNumber {
    /// The number with the given bit pattern and text.
    pub fn new(bits: u64, text: &str) -> (r: Self)
        ensures
            r@ == (FloatModel { bits, text: text@ }),
    {
        FloatNumber { bits, text: String::from_str(text) }
    }

    /// The number's place in the total order, see [`float_rank`].
    pub fn rank(&self) -> (r: i64)
        ensures
            r == float_rank(self.bits),
    {
        if self.bits < SIGN_BIT {
            self.bits as i64
        } else {
            -((self.bits - SIGN_BIT) as i64) - 1
        }
    }
}

impl Scalar for FloatNumber {
    open spec fn below(a: FloatModel, b: FloatModel) -> bool {
        float_below(a, b)
    }

    open spec fn zero_model() -> FloatModel {
        FloatModel { bits: 0, text: "0.0"@ }
    }

    proof fn lemma_order(a: FloatModel, b: FloatModel, c: FloatModel) {
        lemma_text_order(a.text, b.text, c.text);
    }

    fn zero() -> (r: FloatNumber) {
        FloatNumber::new(0, "0.0")
    }

    fn less(&self, other: &FloatNumber) -> (r: bool) {
        let a = self.rank();
        let b = other.rank();
        if a != b {
            a < b
        } else {
            compare_text(self.text.as_str(), other.text.as_str()) == Rank::Below
        }
    }

    fn duplicate(&self) -> (r: FloatNumber) {
        FloatNumber { bits: self.bits, text: self.text.clone() }
    }

    open spec fn text(v: FloatModel) -> Seq<char> {
        v.text
    }

    fn write(&self, out: &mut String) {
        out.append(self.text.as_str());
    }
}

} // verus!
