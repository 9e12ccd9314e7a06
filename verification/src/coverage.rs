//! The coverage figure of a tileset over a cell, and the order in which a
//! catalog lists its files.
//!
//! A coverage is a double-precision number.  The library holds it as its
//! IEEE-754 bit pattern, which orders and compares it, together with the text
//! that `Display` gives for that number, which is what the catalog file holds.
use vstd::prelude::*;
use vstd::arithmetic::power::lemma_pow0;
use vstd::arithmetic::power2::{lemma_pow2, lemma_pow2_adds, lemma_pow2_pos, lemma_pow2_strictly_increases, pow2};
use vstd::arithmetic::mul::lemma_mul_strict_inequality;

verus! {

/// The sign bit of an IEEE-754 double.
pub const SIGN_BIT: u64 = 0x8000_0000_0000_0000;

/// The bit pattern of positive infinity; a magnitude above it is a NaN.
pub const INFINITY_BITS: u64 = 0x7ff0_0000_0000_0000;

/// Whether the bit pattern is a NaN, which no comparison orders.
pub open spec fn float_is_nan(bits: u64) -> bool {
    bits % SIGN_BIT > INFINITY_BITS
}

/// The position of a (non-NaN) double on the number line, as an integer:
/// two doubles compare as their keys do, and `+0` and `-0` share key 0.
pub open spec fn float_key(bits: u64) -> int {
    if bits >= SIGN_BIT {
        -((bits - SIGN_BIT) as int)
    } else {
        bits as int
    }
}

/// A coverage figure: the bit pattern of the number, and its text.
pub struct Coverage {
    pub bits: u64,
    pub text: String,
}

/// What a coverage figure stands for.
pub struct CoverageView {
    pub bits: u64,
    pub text: Seq<char>,
}

impl View for Coverage {
    type V = CoverageView;

    open spec fn view(&self) -> CoverageView {
        CoverageView { bits: self.bits, text: self.text@ }
    }
}

impl Coverage {
    /// A coverage figure from a bit pattern and the text of that number.
    pub fn new(bits: u64, text: String) -> (res: Coverage)
        ensures
            res@ == (CoverageView { bits, text: text@ }),
    {
        Coverage { bits, text }
    }

    /// Whether the figure is a NaN.
    pub fn is_nan(&self) -> (res: bool)
        ensures
            res == float_is_nan(self.bits),
    {
        self.bits % SIGN_BIT > INFINITY_BITS
    }
}

/// The key of a bit pattern, computed.
fn key_of(bits: u64) -> (res: i64)
    ensures
        res as int == float_key(bits),
{
    if bits >= SIGN_BIT {
        -((bits - SIGN_BIT) as i64)
    } else {
        bits as i64
    }
}

/// Whether the double `a` is greater than the double `b`, as `partial_cmp`
/// orders two doubles that are not NaN.
pub fn float_greater(a: u64, b: u64) -> (res: bool)
    ensures
        res == (float_key(a) > float_key(b)),
{
    key_of(a) > key_of(b)
}

/// The weight of the lowest bit of a double's fraction at the smallest
/// exponents: 2 to the 52nd.
pub open spec fn fraction_unit() -> int {
    4503599627370496
}

/// The biased exponent of a double: bits 52 to 62.
pub open spec fn double_exponent(bits: u64) -> nat {
    ((bits % SIGN_BIT) as int / fraction_unit()) as nat
}

/// The fraction of a double: its lowest 52 bits.
pub open spec fn double_fraction(bits: u64) -> nat {
    (bits as int % fraction_unit()) as nat
}

/// The size of the number that a double stands for, times 2 to the 1074th
/// (so that every double is a whole number of its smallest step): the
/// fraction alone below the smallest normal exponent, otherwise the fraction
/// with its leading one, times 2 to the exponent less one.  Infinity comes
/// out as a size above every finite double.
pub open spec fn double_magnitude(bits: u64) -> nat {
    let e = double_exponent(bits);
    let m = double_fraction(bits);
    if e == 0 {
        m
    } else {
        ((m + fraction_unit()) * pow2((e - 1) as nat)) as nat
    }
}

/// The number that a double stands for, times 2 to the 1074th, with its sign.
pub open spec fn double_value(bits: u64) -> int {
    if bits >= SIGN_BIT {
        -(double_magnitude(bits) as int)
    } else {
        double_magnitude(bits) as int
    }
}

/// Below the exponent `e`, a magnitude stays under 2 to the 52nd times 2 to
/// the `e`; at or above it, it reaches that.
proof fn lemma_magnitude_bounds(bits: u64)
    ensures
        double_magnitude(bits) < fraction_unit() * pow2(double_exponent(bits)),
        double_exponent(bits) > 0 ==> double_magnitude(bits) >= fraction_unit() * pow2((double_exponent(bits) - 1) as nat),
{
    let e = double_exponent(bits);
    let m = double_fraction(bits);
    let k = fraction_unit();
    if e == 0 {
        assert(pow2(0) == 1) by {
            lemma_pow2(0);
            lemma_pow0(2);
        }
    } else {
        let p = pow2((e - 1) as nat);
        lemma_pow2_pos((e - 1) as nat);
        lemma_pow2_adds((e - 1) as nat, 1);
        assert(pow2(1) == 2) by {
            lemma_pow2(1);
            vstd::arithmetic::power::lemma_pow1(2);
        }
        assert(pow2(e) == p * 2);
        lemma_mul_strict_inequality(m + k, 2 * k, p as int);
        assert((2 * k) * p == k * (p * 2)) by (nonlinear_arith);
        assert(k * p <= (m + k) * p) by (nonlinear_arith)
            requires
                m >= 0,
                p > 0,
        ;
    }
}

/// Among non-negative doubles that are not NaN, a larger bit pattern is a
/// larger number.
proof fn lemma_magnitude_grows(u: u64, v: u64)
    requires
        u < v <= INFINITY_BITS,
    ensures
        double_magnitude(u) < double_magnitude(v),
{
    let k = fraction_unit();
    let eu = double_exponent(u);
    let ev = double_exponent(v);
    let mu = double_fraction(u);
    let mv = double_fraction(v);
    assert(u % SIGN_BIT == u && v % SIGN_BIT == v);
    assert(u as int == eu * k + mu);
    assert(v as int == ev * k + mv);
    assert(eu <= ev) by (nonlinear_arith)
        requires
            u < v,
            u as int == eu * k + mu,
            v as int == ev * k + mv,
            0 <= mu < k,
            0 <= mv < k,
            k > 0,
    ;
    if eu == ev {
        assert(mu < mv);
        if eu > 0 {
            lemma_pow2_pos((eu - 1) as nat);
            lemma_mul_strict_inequality(mu + k, mv + k, pow2((eu - 1) as nat) as int);
        }
    } else {
        lemma_magnitude_bounds(u);
        lemma_magnitude_bounds(v);
        if eu < (ev - 1) as nat {
            lemma_pow2_strictly_increases(eu, (ev - 1) as nat);
        }
        assert(pow2(eu) <= pow2((ev - 1) as nat));
        assert(k * pow2(eu) <= k * pow2((ev - 1) as nat)) by (nonlinear_arith)
            requires
                pow2(eu) <= pow2((ev - 1) as nat),
                k > 0,
        ;
    }
}

/// Doubles that are not NaN are ordered by the coverage key exactly as the
/// numbers they stand for are ordered: a key is greater exactly where the
/// number is greater, and keys are equal exactly where the numbers are
/// (`+0` and `-0` both being zero).  So a list sorted by the key, largest
/// first, lists the coverages from the largest number down.
pub proof fn lemma_key_orders_numbers(a: u64, b: u64)
    requires
        !float_is_nan(a),
        !float_is_nan(b),
    ensures
        float_key(a) > float_key(b) <==> double_value(a) > double_value(b),
        float_key(a) == float_key(b) <==> double_value(a) == double_value(b),
{
    let ma = (a % SIGN_BIT) as u64;
    let mb = (b % SIGN_BIT) as u64;
    assert(double_magnitude(a) == double_magnitude(ma)) by {
        assert(ma % SIGN_BIT == ma);
        assert(a as int % fraction_unit() == ma as int % fraction_unit());
    }
    assert(double_magnitude(b) == double_magnitude(mb)) by {
        assert(mb % SIGN_BIT == mb);
        assert(b as int % fraction_unit() == mb as int % fraction_unit());
    }
    assert(double_magnitude(0) == 0) by {
        assert(double_exponent(0) == 0);
    }
    if ma < mb {
        lemma_magnitude_grows(ma, mb);
        if ma > 0 {
            lemma_magnitude_grows(0, ma);
        }
    } else if mb < ma {
        lemma_magnitude_grows(mb, ma);
        if mb > 0 {
            lemma_magnitude_grows(0, mb);
        }
    } else if ma > 0 {
        lemma_magnitude_grows(0, ma);
    }
}

} // verus!
