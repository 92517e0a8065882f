//! Decimal numbers as the `rust_decimal` crate represents them: an
//! integer mantissa of at most 96 bits and a scale between 0 and 28,
//! standing for `mantissa / 10^scale`.
//!
//! The arithmetic is `rust_decimal`'s own: each operation converts to
//! `rust_decimal::Decimal`, calls it, and converts the result back.

use vstd::prelude::*;

use rust_decimal::Decimal;

verus! {

/// Largest mantissa magnitude, `2^96 - 1`.
pub const MAX_MANTISSA: i128 = 0xFFFF_FFFF_FFFF_FFFF_FFFF_FFFFi128;

/// Largest scale, 28.
pub const MAX_SCALE: u32 = 28u32;

/// A decimal number `m / 10^s`.
#[derive(Clone, Copy, Debug)]
pub struct Dec {
    m: i128,
    s: u32,
}

/// `10^n`.
pub open spec fn pow10(n: nat) -> int
    decreases n,
{
    if n == 0 {
        1
    } else {
        10 * pow10((n - 1) as nat)
    }
}

pub proof fn lemma_pow10_pos(n: nat)
    ensures
        pow10(n) >= 1,
    decreases n,
{
    if n > 0 {
        lemma_pow10_pos((n - 1) as nat);
    }
}

impl Dec {
    /// The mantissa.
    pub closed spec fn mant(self) -> int {
        self.m as int
    }

    /// The scale: the number of decimal digits after the point.
    pub closed spec fn scale(self) -> nat {
        self.s as nat
    }

    /// Within the range of `rust_decimal::Decimal`.
    pub open spec fn wf(self) -> bool {
        &&& -MAX_MANTISSA <= self.mant() <= MAX_MANTISSA
        &&& self.scale() <= MAX_SCALE
    }

    #[verifier::type_invariant]
    closed spec fn inv(self) -> bool {
        self.wf()
    }

    /// `self` and `o` stand for the same number.
    pub open spec fn value_eq(self, o: Dec) -> bool {
        self.mant() * pow10(o.scale()) == o.mant() * pow10(self.scale())
    }

    /// `self` stands for a smaller number than `o`.
    pub open spec fn value_lt(self, o: Dec) -> bool {
        self.mant() * pow10(o.scale()) < o.mant() * pow10(self.scale())
    }

    /// `self` stands for zero.
    pub open spec fn is_zero_spec(self) -> bool {
        self.mant() == 0
    }

    /// Zero, at scale 0.
    pub closed spec fn zero_spec() -> Dec {
        Dec { m: 0, s: 0 }
    }

    /// One, at scale 0.
    pub closed spec fn one_spec() -> Dec {
        Dec { m: 1, s: 0 }
    }

    /// The opposite number, at the same scale.
    pub closed spec fn neg_spec(self) -> Dec {
        Dec { m: (-self.m) as i128, s: self.s }
    }

    /// The absolute value, at the same scale.
    pub closed spec fn abs_spec(self) -> Dec {
        if self.m < 0 {
            Dec { m: (-self.m) as i128, s: self.s }
        } else {
            self
        }
    }

    pub proof fn lemma_consts()
        ensures
            Dec::zero_spec().mant() == 0 && Dec::zero_spec().scale() == 0,
            Dec::one_spec().mant() == 1 && Dec::one_spec().scale() == 0,
            forall|d: Dec| d.mant() == 0 && d.scale() == 0 ==> d == Dec::zero_spec(),
    {
    }

    pub proof fn lemma_neg_abs(d: Dec)
        requires
            d.wf(),
        ensures
            d.neg_spec().mant() == -d.mant(),
            d.neg_spec().scale() == d.scale(),
            d.neg_spec().wf(),
            d.abs_spec().mant() == (if d.mant() < 0 { -d.mant() } else { d.mant() }),
            d.abs_spec().scale() == d.scale(),
            d.abs_spec().wf(),
    {
    }

    /// Negating twice gives the number back, and the absolute value of
    /// an absolute value is itself.
    pub proof fn lemma_neg_involutive(d: Dec)
        requires
            d.wf(),
        ensures
            d.neg_spec().neg_spec() == d,
            d.abs_spec().abs_spec() == d.abs_spec(),
            d.neg_spec().abs_spec() == d.abs_spec() || d.mant() == 0,
    {
    }

    /// The integer `n`, at scale 0.
    pub closed spec fn int_spec(n: int) -> Dec {
        Dec { m: n as i128, s: 0 }
    }

    /// A decimal of mantissa `n` at scale 0 is the integer `n`.
    pub proof fn lemma_int(d: Dec, n: int)
        requires
            d.mant() == n,
            d.scale() == 0,
        ensures
            d == Dec::int_spec(n),
    {
    }

    /// The decimal `m / 10^s`.
    pub fn new(m: i128, s: u32) -> (r: Dec)
        requires
            -MAX_MANTISSA <= m <= MAX_MANTISSA,
            s <= MAX_SCALE,
        ensures
            r.mant() == m,
            r.scale() == s,
            r.wf(),
    {
        Dec { m, s }
    }

    /// The mantissa.
    pub fn mantissa(&self) -> (r: i128)
        ensures
            r == self.mant(),
    {
        self.m
    }

    /// The scale.
    pub fn get_scale(&self) -> (r: u32)
        ensures
            r == self.scale(),
    {
        self.s
    }

    /// Zero.
    pub fn zero() -> (r: Dec)
        ensures
            r == Dec::zero_spec(),
            r.mant() == 0,
            r.scale() == 0,
            r.wf(),
    {
        Dec { m: 0, s: 0 }
    }

    /// One.
    pub fn one() -> (r: Dec)
        ensures
            r == Dec::one_spec(),
            r.mant() == 1,
            r.scale() == 0,
            r.wf(),
    {
        Dec { m: 1, s: 0 }
    }

    /// Whether the number is zero.
    pub fn is_zero(&self) -> (r: bool)
        ensures
            r == self.is_zero_spec(),
    {
        self.m == 0
    }

    /// Whether the number is below zero.
    pub fn is_negative(&self) -> (r: bool)
        ensures
            r == (self.mant() < 0),
    {
        self.m < 0
    }

    /// Whether the number is above zero.
    pub fn is_positive(&self) -> (r: bool)
        ensures
            r == (self.mant() > 0),
    {
        self.m > 0
    }

    /// The opposite number, at the same scale.
    pub fn neg(&self) -> (r: Dec)
        ensures
            r == self.neg_spec(),
            r.mant() == -self.mant(),
            r.scale() == self.scale(),
            r.wf(),
    {
        proof {
            use_type_invariant(self);
        }
        Dec { m: -self.m, s: self.s }
    }

    /// The absolute value, at the same scale.
    pub fn abs(&self) -> (r: Dec)
        ensures
            r == self.abs_spec(),
            r.mant() == if self.mant() < 0 {
                -self.mant()
            } else {
                self.mant()
            },
            r.scale() == self.scale(),
            r.wf(),
    {
        proof {
            use_type_invariant(self);
        }
        if self.m < 0 {
            Dec { m: -self.m, s: self.s }
        } else {
            Dec { m: self.m, s: self.s }
        }
    }

    /// `self + o`, or `None` where `rust_decimal` reports an overflow.
    pub fn checked_add(&self, o: &Dec) -> (r: Option<Dec>)
        ensures
            r == decimal_add(*self, *o),
            r matches Some(x) ==> x.wf(),
    {
        proof {
            use_type_invariant(self);
            use_type_invariant(o);
        }
        rd_checked_add(*self, *o)
    }

    /// `self - o`, or `None` where `rust_decimal` reports an overflow.
    pub fn checked_sub(&self, o: &Dec) -> (r: Option<Dec>)
        ensures
            r == decimal_sub(*self, *o),
            r matches Some(x) ==> x.wf(),
    {
        proof {
            use_type_invariant(self);
            use_type_invariant(o);
        }
        rd_checked_sub(*self, *o)
    }

    /// `self * o`, or `None` where `rust_decimal` reports an overflow.
    pub fn checked_mul(&self, o: &Dec) -> (r: Option<Dec>)
        ensures
            r == decimal_mul(*self, *o),
            r matches Some(x) ==> x.wf(),
    {
        proof {
            use_type_invariant(self);
            use_type_invariant(o);
        }
        rd_checked_mul(*self, *o)
    }

    /// `self / o`, or `None` for a zero divisor or an overflow.
    pub fn checked_div(&self, o: &Dec) -> (r: Option<Dec>)
        ensures
            r == decimal_div(*self, *o),
            o.is_zero_spec() ==> r is None,
            r matches Some(x) ==> x.wf(),
    {
        proof {
            use_type_invariant(self);
            use_type_invariant(o);
        }
        rd_checked_div(*self, *o)
    }

    /// Whether both stand for the same number (`1.0` equals `1.00`).
    pub fn eq_value(&self, o: &Dec) -> (r: bool)
        ensures
            r == self.value_eq(*o),
    {
        proof {
            use_type_invariant(self);
            use_type_invariant(o);
        }
        rd_eq(*self, *o)
    }

    /// Whether `self` stands for a smaller number than `o`.
    pub fn lt_value(&self, o: &Dec) -> (r: bool)
        ensures
            r == self.value_lt(*o),
    {
        proof {
            use_type_invariant(self);
            use_type_invariant(o);
        }
        rd_lt(*self, *o)
    }
}

impl PartialEq for Dec {
    /// Equality of the numbers the two decimals stand for.
    fn eq(&self, other: &Dec) -> (r: bool) {
        proof {
            use_type_invariant(self);
            use_type_invariant(other);
        }
        rd_eq(*self, *other)
    }
}

impl vstd::std_specs::cmp::PartialEqSpecImpl for Dec {
    open spec fn obeys_eq_spec() -> bool {
        true
    }

    open spec fn eq_spec(&self, other: &Dec) -> bool {
        self.value_eq(*other)
    }
}

/// What `rust_decimal` computes for `a + b` (`None` on overflow), where
/// `b` is not the opposite of `a`.
pub uninterp spec fn rd_sum(a: Dec, b: Dec) -> Option<Dec>;

/// What `rust_decimal` computes for `a + b`: a number plus its opposite
/// is zero at the scale of the number; any other sum is the named one.
pub closed spec fn decimal_add(a: Dec, b: Dec) -> Option<Dec> {
    if b == a.neg_spec() {
        Some(Dec { m: 0, s: a.s })
    } else {
        rd_sum(a, b)
    }
}

/// A number plus its opposite is zero.
pub proof fn lemma_add_opposite(a: Dec)
    ensures
        decimal_add(a, a.neg_spec()) matches Some(z) && z.is_zero_spec(),
{
}

/// What `rust_decimal` computes for `a - b` (`None` on overflow).
pub uninterp spec fn decimal_sub(a: Dec, b: Dec) -> Option<Dec>;

/// What `rust_decimal` computes for `a * b` (`None` on overflow), where
/// `a` is not one or `b` is zero.
pub uninterp spec fn rd_product(a: Dec, b: Dec) -> Option<Dec>;

/// What `rust_decimal` computes for `a * b`: one (at scale 0) times a
/// number other than zero is that number, at its own scale; any other
/// product is the named one.
pub closed spec fn decimal_mul(a: Dec, b: Dec) -> Option<Dec> {
    if a == Dec::one_spec() && !b.is_zero_spec() {
        Some(b)
    } else {
        rd_product(a, b)
    }
}

/// The opposite of a number other than zero is not zero.
pub proof fn lemma_neg_nonzero(d: Dec)
    ensures
        !d.is_zero_spec() ==> !d.neg_spec().is_zero_spec(),
{
    let m: i128 = d.m;
    if m != 0 {
        assert((-m) as i128 != 0) by (bit_vector)
            requires
                m != 0,
        ;
    }
}

/// One times a number other than zero is that number.
pub proof fn lemma_mul_one(b: Dec)
    ensures
        !b.is_zero_spec() ==> decimal_mul(Dec::one_spec(), b) == Some(b),
{
}

/// What `rust_decimal` computes for `a / b` (`None` on a zero divisor or
/// overflow).
pub uninterp spec fn decimal_div(a: Dec, b: Dec) -> Option<Dec>;

/// What `Decimal::from_str` makes of a string (`None` when it is refused).
pub uninterp spec fn decimal_from_str(s: Seq<char>) -> Option<Dec>;

/// What `Decimal::from_str_exact` makes of a string (`None` when it is
/// refused).
pub uninterp spec fn decimal_from_str_exact(s: Seq<char>) -> Option<Dec>;

/// `rust_decimal::Decimal::checked_add`. Claims: the result is the sum
/// `decimal_add`: for `b` the opposite of `a` (same mantissa negated,
/// same scale) a zero at the scale of `a`, as the source's aligned
/// subtraction of two equal magnitudes gives on each of its paths;
/// otherwise the named sum. Any decimal it gives back is within
/// `Decimal`'s range (every `Decimal` has a mantissa of at most 96 bits
/// and a scale of at most 28).
#[verifier::external_body]
fn rd_checked_add(a: Dec, b: Dec) -> (r: Option<Dec>)
    requires
        a.wf(),
        b.wf(),
    ensures
        r == decimal_add(a, b),
        b != a.neg_spec() ==> r == rd_sum(a, b),
        r matches Some(x) ==> x.wf(),
{
    let x = Decimal::from_i128_with_scale(a.m, a.s);
    let y = Decimal::from_i128_with_scale(b.m, b.s);
    x.checked_add(y).map(|z| Dec { m: z.mantissa(), s: z.scale() })
}

/// `rust_decimal::Decimal::checked_sub`. Claims: the result is the named
/// difference and lies within `Decimal`'s range.
#[verifier::external_body]
fn rd_checked_sub(a: Dec, b: Dec) -> (r: Option<Dec>)
    requires
        a.wf(),
        b.wf(),
    ensures
        r == decimal_sub(a, b),
        r matches Some(x) ==> x.wf(),
{
    let x = Decimal::from_i128_with_scale(a.m, a.s);
    let y = Decimal::from_i128_with_scale(b.m, b.s);
    x.checked_sub(y).map(|z| Dec { m: z.mantissa(), s: z.scale() })
}

/// `rust_decimal::Decimal::checked_mul`. Claims: the result is the
/// product `decimal_mul`: for `a` one at scale 0 and `b` not zero, `b`
/// itself (the source multiplies the mantissas and adds the scales, and
/// a product that fits needs no rescaling); otherwise the named product.
/// It lies within `Decimal`'s range.
#[verifier::external_body]
fn rd_checked_mul(a: Dec, b: Dec) -> (r: Option<Dec>)
    requires
        a.wf(),
        b.wf(),
    ensures
        r == decimal_mul(a, b),
        !(a == Dec::one_spec() && !b.is_zero_spec()) ==> r == rd_product(a, b),
        r matches Some(x) ==> x.wf(),
{
    let x = Decimal::from_i128_with_scale(a.m, a.s);
    let y = Decimal::from_i128_with_scale(b.m, b.s);
    x.checked_mul(y).map(|z| Dec { m: z.mantissa(), s: z.scale() })
}

/// `rust_decimal::Decimal::checked_div`. Claims: the result is the named
/// quotient, it is `None` for a zero divisor (as the documentation says),
/// and it lies within `Decimal`'s range.
#[verifier::external_body]
fn rd_checked_div(a: Dec, b: Dec) -> (r: Option<Dec>)
    requires
        a.wf(),
        b.wf(),
    ensures
        r == decimal_div(a, b),
        b.is_zero_spec() ==> r is None,
        r matches Some(x) ==> x.wf(),
{
    let x = Decimal::from_i128_with_scale(a.m, a.s);
    let y = Decimal::from_i128_with_scale(b.m, b.s);
    x.checked_div(y).map(|z| Dec { m: z.mantissa(), s: z.scale() })
}

/// `==` on `rust_decimal::Decimal`, which compares the numbers the two
/// decimals stand for, whatever their scales.
#[verifier::external_body]
fn rd_eq(a: Dec, b: Dec) -> (r: bool)
    requires
        a.wf(),
        b.wf(),
    ensures
        r == a.value_eq(b),
{
    Decimal::from_i128_with_scale(a.m, a.s) == Decimal::from_i128_with_scale(b.m, b.s)
}

/// `<` on `rust_decimal::Decimal`, which orders the numbers the two
/// decimals stand for.
#[verifier::external_body]
fn rd_lt(a: Dec, b: Dec) -> (r: bool)
    requires
        a.wf(),
        b.wf(),
    ensures
        r == a.value_lt(b),
{
    Decimal::from_i128_with_scale(a.m, a.s) < Decimal::from_i128_with_scale(b.m, b.s)
}

/// `Decimal::from_str`. Claims: the result is the named parse of the
/// string, within `Decimal`'s range.
#[verifier::external_body]
pub(crate) fn rd_from_str(s: &str) -> (r: Option<Dec>)
    ensures
        r == decimal_from_str(s@),
        r matches Some(x) ==> x.wf(),
{
    <Decimal as std::str::FromStr>::from_str(s).ok().map(|z| Dec { m: z.mantissa(), s: z.scale() })
}

/// `Decimal::from_str_exact`. Claims: the result is the named parse of the
/// string, within `Decimal`'s range.
#[verifier::external_body]
pub(crate) fn rd_from_str_exact(s: &str) -> (r: Option<Dec>)
    ensures
        r == decimal_from_str_exact(s@),
        r matches Some(x) ==> x.wf(),
{
    Decimal::from_str_exact(s).ok().map(|z| Dec { m: z.mantissa(), s: z.scale() })
}

/// The decimal digits of `n`, most significant first; none for zero.
pub open spec fn digits_of(n: nat) -> Seq<char>
    decreases n,
{
    if n == 0 {
        Seq::empty()
    } else {
        digits_of(n / 10).push(((48 + n % 10) as u32) as char)
    }
}

/// `n` zeros.
pub open spec fn zeros(n: int) -> Seq<char> {
    Seq::new(if n > 0 { n as nat } else { 0 }, |i: int| '0')
}

/// What `format!("{:.p$}", d)` writes for a `rust_decimal::Decimal` `d`
/// and precision `p`: the digits of the mantissa, with zeros in front up
/// to the scale; those before the point (or `0` when there are none and
/// `p` is above zero); then, for `p` above zero, the point and the first
/// `min(p, 28)` digits after it (zeros past the last one), the rest
/// dropped; a lone `0` for an empty text; zeros for the precision beyond
/// 28; and `-` in front of a negative number.
pub open spec fn decimal_format(d: Dec, precision: nat) -> Seq<char> {
    let a = if d.mant() < 0 {
        -d.mant()
    } else {
        d.mant()
    };
    let ds = zeros(d.scale() - digit_count(a as nat)) + digits_of(a as nat);
    let w = ds.len() - d.scale();
    let p: int = if precision > 28 {
        28
    } else {
        precision as int
    };
    let frac = Seq::new(p as nat, |i: int| if w + i < ds.len() { ds[w + i] } else { '0' });
    let body = if p == 0 {
        ds.take(w)
    } else if w == 0 {
        seq!['0', '.'] + frac
    } else {
        ds.take(w) + seq!['.'] + frac
    };
    let rep = if body.len() == 0 {
        seq!['0']
    } else {
        body
    };
    (if d.mant() < 0 {
        seq!['-']
    } else {
        Seq::empty()
    }) + rep + zeros(precision - p)
}

/// Number of decimal digits of `n` (none for zero).
pub open spec fn digit_count(n: nat) -> nat
    decreases n,
{
    if n == 0 {
        0
    } else {
        1 + digit_count(n / 10)
    }
}

/// Length of the text `rust_decimal` builds for `d` at `precision`
/// before padding: the digits before the point (none when the number is
/// below one), then, for a precision above zero, a `0` when there are no
/// digits before the point, the point and `min(precision, 28)` digits.
/// `rust_decimal` builds this text in a buffer of 32 characters and
/// stops the program where it would be longer.
pub open spec fn format_len(d: Dec, precision: nat) -> nat {
    let a = if d.mant() < 0 {
        -d.mant()
    } else {
        d.mant()
    };
    let nd = digit_count(a as nat);
    let w: nat = if nd > d.scale() {
        (nd - d.scale()) as nat
    } else {
        0
    };
    let p: nat = if precision > 28 {
        28
    } else {
        precision
    };
    w + p + (if p > 0 {
        1nat
    } else {
        0nat
    }) + (if w == 0 && p > 0 {
        1nat
    } else {
        0nat
    })
}

/// `Display` of `rust_decimal::Decimal` with a precision. Claims: the
/// text is `decimal_format` of the number at that precision (as the
/// crate's `to_str_internal` lays it out and `pad_integral` puts the
/// sign in front), where the text fits the 32-character buffer that
/// `rust_decimal` writes it into (see `format_len`).
#[verifier::external_body]
fn rd_format(d: Dec, precision: usize) -> (r: String)
    requires
        d.wf(),
        format_len(d, precision as nat) <= 32,
    ensures
        r@ == decimal_format(d, precision as nat),
{
    let x = Decimal::from_i128_with_scale(d.m, d.s);
    format!("{:.prec$}", x, prec = precision)
}

impl Dec {
    /// The number written with `precision` digits after the point, as
    /// `rust_decimal` writes it.
    pub fn to_string_prec(&self, precision: usize) -> (r: String)
        requires
            format_len(*self, precision as nat) <= 32,
        ensures
            r@ == decimal_format(*self, precision as nat),
    {
        proof {
            use_type_invariant(self);
        }
        rd_format(*self, precision)
    }

    /// Whether the number can be written at `precision` (see
    /// `format_len`).
    pub fn fits_format(&self, precision: usize) -> (r: bool)
        ensures
            r == (format_len(*self, precision as nat) <= 32),
    {
        proof {
            use_type_invariant(self);
        }
        let mut n: u128 = if self.m < 0 {
            (0 - self.m) as u128
        } else {
            self.m as u128
        };
        let ghost a: nat = n as nat;
        let mut nd: u128 = 0;
        while n > 0
            invariant
                nd + digit_count(n as nat) == digit_count(a),
                nd + n <= a,
                a <= MAX_MANTISSA,
            decreases n,
        {
            n = n / 10;
            nd = nd + 1;
        }
        let w: u128 = if nd > self.s as u128 {
            nd - self.s as u128
        } else {
            0
        };
        let p: u128 = if precision > 28 {
            28
        } else {
            precision as u128
        };
        let extra: u128 = if p > 0 {
            if w == 0 {
                2
            } else {
                1
            }
        } else {
            0
        };
        w + p + extra <= 32
    }

    /// Parses a decimal number written as `Decimal::from_str` accepts it.
    pub fn parse(s: &str) -> (r: Option<Dec>)
        ensures
            r == decimal_from_str(s@),
            r matches Some(x) ==> x.wf(),
    {
        rd_from_str(s)
    }
}

} // verus!
