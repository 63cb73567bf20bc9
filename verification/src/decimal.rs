//! Exact decimal amounts.
//!
//! An [`Amount`] is an integer of arbitrary size together with a scale: the
//! number it stands for is `unscaled * 10^(-scale)`. The integer is kept as
//! two's complement big-endian bytes, so that an amount is made of plain
//! values only. Arithmetic is done by the `bigdecimal` crate, which brings two
//! numbers to one scale by the difference of their scales: the scale of an
//! amount is kept within [`MAX_SCALE`] of zero, so that this difference always
//! fits in 64 bits.

use bigdecimal::num_bigint::BigInt;
use bigdecimal::BigDecimal;
use bigdecimal::ParseBigDecimalError;
use bigdecimal::RoundingMode;
use std::str::FromStr;
use vstd::arithmetic::power::lemma_pow_adds;
use vstd::arithmetic::power::lemma_pow_positive;
use vstd::arithmetic::power::pow;
use vstd::prelude::*;

verus! {

/// The largest scale of an amount, and the negative of the smallest: half of
/// what 64 bits hold.
pub const MAX_SCALE: i64 = 4611686018427387903;

/// The mathematical value of an amount: `unscaled * 10^(-scale)`.
pub struct Decimal {
    pub unscaled: int,
    pub scale: int,
}

/// The natural number written by `bytes` in base 256, most significant byte first.
pub open spec fn unsigned_be(bytes: Seq<u8>) -> nat
    decreases bytes.len(),
{
    if bytes.len() == 0 {
        0
    } else {
        unsigned_be(bytes.drop_last()) * 256 + bytes.last() as nat
    }
}

/// The integer written by `bytes` in two's complement, most significant byte first.
/// No bytes at all stand for zero.
pub open spec fn signed_be(bytes: Seq<u8>) -> int {
    if bytes.len() == 0 {
        0
    } else if bytes[0] < 128 {
        unsigned_be(bytes) as int
    } else {
        unsigned_be(bytes) - pow(256, bytes.len())
    }
}

/// The larger of two integers.
pub open spec fn max_int(a: int, b: int) -> int {
    if a >= b {
        a
    } else {
        b
    }
}

/// `d.unscaled` brought to the scale `scale`, which is at least `d.scale`.
pub open spec fn aligned(d: Decimal, scale: int) -> int {
    d.unscaled * pow(10, (scale - d.scale) as nat)
}

/// `a <= b` as numbers.
pub open spec fn decimal_le(a: Decimal, b: Decimal) -> bool {
    let scale = max_int(a.scale, b.scale);
    aligned(a, scale) <= aligned(b, scale)
}

/// `a` and `b` are the same number, whatever their scales.
pub open spec fn same_number(a: Decimal, b: Decimal) -> bool {
    let scale = max_int(a.scale, b.scale);
    aligned(a, scale) == aligned(b, scale)
}

/// What adding `b` to an accumulator `a` leaves in the accumulator: a zero on
/// either side leaves the other operand as it is, scale included; otherwise both
/// are brought to the larger scale and their integers are added.
pub open spec fn decimal_sum(a: Decimal, b: Decimal) -> Decimal {
    if b.unscaled == 0 {
        a
    } else if a.unscaled == 0 {
        b
    } else {
        let scale = max_int(a.scale, b.scale);
        Decimal { unscaled: aligned(a, scale) + aligned(b, scale), scale }
    }
}

/// What taking `b` from an accumulator `a` leaves in the accumulator: a zero
/// `b` leaves `a` as it is, scale included; from a zero `a` comes the negative
/// of `b` at the scale of `b`; otherwise both are brought to the larger scale
/// and their integers are subtracted.
pub open spec fn decimal_difference(a: Decimal, b: Decimal) -> Decimal {
    if b.unscaled == 0 {
        a
    } else if a.unscaled == 0 {
        Decimal { unscaled: -b.unscaled, scale: b.scale }
    } else {
        let scale = max_int(a.scale, b.scale);
        Decimal { unscaled: aligned(a, scale) - aligned(b, scale), scale }
    }
}

/// Rounding to `places` digits after the decimal point, ties going to the even
/// neighbour. The result always has the scale `places`.
pub open spec fn decimal_round(a: Decimal, places: int) -> Decimal {
    if a.unscaled == 0 {
        Decimal { unscaled: 0, scale: places }
    } else if places >= a.scale {
        Decimal { unscaled: aligned(a, places), scale: places }
    } else {
        let magnitude = if a.unscaled < 0 { -a.unscaled } else { a.unscaled };
        let unit = pow(10, (a.scale - places) as nat);
        let kept = magnitude / unit;
        let dropped = magnitude % unit;
        let up = 2 * dropped > unit || (2 * dropped == unit && kept % 2 == 1);
        let rounded = if up { kept + 1 } else { kept };
        Decimal { unscaled: if a.unscaled < 0 { -rounded } else { rounded }, scale: places }
    }
}

/// The absolute value, at the same scale.
pub open spec fn decimal_abs(a: Decimal) -> Decimal {
    Decimal { unscaled: if a.unscaled < 0 { -a.unscaled } else { a.unscaled }, scale: a.scale }
}

/// What `bigdecimal` makes of a decimal text: the integer and the scale it
/// reads, or `None` where it reports an error.
pub uninterp spec fn parsed_decimal(text: Seq<char>) -> Option<(int, int)>;

/// The text that `bigdecimal` writes for the number `unscaled * 10^(-scale)`.
pub uninterp spec fn decimal_text(unscaled: int, scale: int) -> Seq<char>;

/// The number that parsing `text` gives: what `bigdecimal` reads, where its
/// scale fits an [`Amount`].
pub open spec fn parse_outcome(text: Seq<char>) -> Option<Decimal> {
    match parsed_decimal(text) {
        Some((unscaled, scale)) => if -MAX_SCALE <= scale <= MAX_SCALE {
            Some(Decimal { unscaled, scale })
        } else {
            None
        },
        None => None,
    }
}

#[verifier::external_type_specification]
#[verifier::external_body]
pub struct ExParseBigDecimalError(ParseBigDecimalError);

/// Why a text is no amount.
#[derive(Debug)]
pub enum ParseAmountError {
    /// The text is not a decimal number.
    Syntax(ParseBigDecimalError),
    /// The number's scale, given here, is further from zero than [`MAX_SCALE`].
    Scale(i64),
}

/// An exact decimal number.
#[derive(Debug)]
pub struct Amount {
    unscaled: Vec<u8>,
    scale: i64,
}

impl Amount {
    /// The scale is within [`MAX_SCALE`] of zero.
    #[verifier::type_invariant]
    spec fn within_reach(self) -> bool {
        -MAX_SCALE <= self.scale <= MAX_SCALE
    }
}

impl View for Amount {
    type V = Decimal;

    closed spec fn view(&self) -> Decimal {
        Decimal { unscaled: signed_be(self.unscaled@), scale: self.scale as int }
    }
}

/// `BigDecimal::from_str`, taken apart by `BigDecimal::into_bigint_and_exponent`
/// and `BigInt::to_signed_bytes_be`: the digits of the parsed number as two's
/// complement bytes and its scale are what [`parsed_decimal`] names for the
/// text, and an error comes exactly where it names nothing.
#[verifier::external_body]
fn parse_parts(text: &str) -> (r: Result<(Vec<u8>, i64), ParseBigDecimalError>)
    ensures
        match r {
            Ok((bytes, scale)) => parsed_decimal(text@) == Some((signed_be(bytes@), scale as int)),
            Err(_) => parsed_decimal(text@) is None,
        },
{
    let (digits, scale) = BigDecimal::from_str(text)?.into_bigint_and_exponent();
    Ok((digits.to_signed_bytes_be(), scale))
}

/// `AddAssign<BigDecimal>` of `BigDecimal`, on two numbers built by
/// `BigInt::from_signed_bytes_be` and `BigDecimal::new`: the accumulator keeps
/// its value when the addend is zero, takes the addend when it is zero itself,
/// and otherwise holds the sum at the larger of the two scales. The scales of
/// two amounts differ by less than `2^63`, which the subtraction in
/// `BigDecimal::with_scale` needs.
#[verifier::external_body]
pub(crate) fn amount_sum(a: &Amount, b: &Amount) -> (r: Amount)
    ensures
        r@ == decimal_sum(a@, b@),
{
    let mut total = BigDecimal::new(BigInt::from_signed_bytes_be(&a.unscaled), a.scale);
    total += BigDecimal::new(BigInt::from_signed_bytes_be(&b.unscaled), b.scale);
    let (digits, scale) = total.into_bigint_and_exponent();
    Amount { unscaled: digits.to_signed_bytes_be(), scale }
}

/// `BigDecimal::abs`: the absolute value of the integer, the scale unchanged.
#[verifier::external_body]
pub(crate) fn amount_abs(a: &Amount) -> (r: Amount)
    ensures
        r@ == decimal_abs(a@),
{
    let value = BigDecimal::new(BigInt::from_signed_bytes_be(&a.unscaled), a.scale);
    let (digits, scale) = value.abs().into_bigint_and_exponent();
    Amount { unscaled: digits.to_signed_bytes_be(), scale }
}

/// `SubAssign<BigDecimal>` of `BigDecimal`, on two numbers built by
/// `BigInt::from_signed_bytes_be` and `BigDecimal::new`: the accumulator keeps
/// its value when what is taken from it is zero, takes the negative of it
/// when it is zero itself, and otherwise holds the difference at the larger
/// of the two scales. The scales of two amounts differ by less than `2^63`,
/// which the subtraction of the scales needs.
#[verifier::external_body]
fn amount_difference(a: &Amount, b: &Amount) -> (r: Amount)
    ensures
        r@ == decimal_difference(a@, b@),
{
    let mut left = BigDecimal::new(BigInt::from_signed_bytes_be(&a.unscaled), a.scale);
    left -= BigDecimal::new(BigInt::from_signed_bytes_be(&b.unscaled), b.scale);
    let (digits, scale) = left.into_bigint_and_exponent();
    Amount { unscaled: digits.to_signed_bytes_be(), scale }
}

/// `BigDecimal::with_scale_round` with `RoundingMode::HalfEven`: the number
/// at the scale `places`, padded with zeros or rounded to the nearest
/// neighbour, a tie going to the even one.
#[verifier::external_body]
pub(crate) fn amount_round(a: &Amount, places: i32) -> (r: Amount)
    ensures
        r@ == decimal_round(a@, places as int),
{
    let value = BigDecimal::new(BigInt::from_signed_bytes_be(&a.unscaled), a.scale);
    let rounded = value.with_scale_round(places as i64, RoundingMode::HalfEven);
    let (digits, scale) = rounded.into_bigint_and_exponent();
    Amount { unscaled: digits.to_signed_bytes_be(), scale }
}

/// `Display` of `BigDecimal`: the text is what [`decimal_text`] names for the
/// number's integer and scale.
#[verifier::external_body]
fn amount_text(a: &Amount) -> (r: String)
    ensures
        r@ == decimal_text(a@.unscaled, a@.scale),
{
    BigDecimal::new(BigInt::from_signed_bytes_be(&a.unscaled), a.scale).to_string()
}

/// Bringing a number to a larger scale in two steps is bringing it there in one.
pub proof fn lemma_aligned_twice(d: Decimal, middle: int, scale: int)
    requires
        d.scale <= middle <= scale,
    ensures
        aligned(d, scale) == aligned(d, middle) * pow(10, (scale - middle) as nat),
        pow(10, (scale - middle) as nat) > 0,
{
    let low = (middle - d.scale) as nat;
    let high = (scale - middle) as nat;
    lemma_pow_adds(10, low, high);
    lemma_pow_positive(10, high);
    assert(d.unscaled * (pow(10, low) * pow(10, high)) == (d.unscaled * pow(10, low)) * pow(
        10,
        high,
    )) by (nonlinear_arith);
}

/// Two numbers compare as their integers do at any scale that both reach.
pub proof fn lemma_decimal_le_at(a: Decimal, b: Decimal, scale: int)
    requires
        a.scale <= scale,
        b.scale <= scale,
    ensures
        decimal_le(a, b) == (aligned(a, scale) <= aligned(b, scale)),
{
    let middle = max_int(a.scale, b.scale);
    lemma_aligned_twice(a, middle, scale);
    lemma_aligned_twice(b, middle, scale);
    let factor = pow(10, (scale - middle) as nat);
    let x = aligned(a, middle);
    let y = aligned(b, middle);
    assert((x <= y) == (x * factor <= y * factor)) by (nonlinear_arith)
        requires
            factor > 0,
    ;
}

/// Two numbers are the same where their integers are, at any scale that both
/// reach.
pub proof fn lemma_same_number_at(a: Decimal, b: Decimal, scale: int)
    requires
        a.scale <= scale,
        b.scale <= scale,
    ensures
        same_number(a, b) == (aligned(a, scale) == aligned(b, scale)),
{
    let middle = max_int(a.scale, b.scale);
    lemma_aligned_twice(a, middle, scale);
    lemma_aligned_twice(b, middle, scale);
    let factor = pow(10, (scale - middle) as nat);
    let x = aligned(a, middle);
    let y = aligned(b, middle);
    assert((x == y) == (x * factor == y * factor)) by (nonlinear_arith)
        requires
            factor > 0,
    ;
}

/// Two numbers that are the same as a third are the same.
pub proof fn lemma_same_number_transitive(a: Decimal, b: Decimal, c: Decimal)
    requires
        same_number(a, b),
        same_number(b, c),
    ensures
        same_number(a, c),
{
    let scale = max_int(a.scale, max_int(b.scale, c.scale));
    lemma_same_number_at(a, b, scale);
    lemma_same_number_at(b, c, scale);
    lemma_same_number_at(a, c, scale);
}

/// A sum reaches no further than its operands, and at any scale that both
/// reach its integer is the sum of theirs.
pub proof fn lemma_decimal_sum_at(a: Decimal, b: Decimal, scale: int)
    requires
        a.scale <= scale,
        b.scale <= scale,
    ensures
        decimal_sum(a, b).scale <= scale,
        aligned(decimal_sum(a, b), scale) == aligned(a, scale) + aligned(b, scale),
{
    if b.unscaled == 0 {
        assert(aligned(b, scale) == 0) by (nonlinear_arith)
            requires
                b.unscaled == 0,
                aligned(b, scale) == b.unscaled * pow(10, (scale - b.scale) as nat),
        ;
    } else if a.unscaled == 0 {
        assert(aligned(a, scale) == 0) by (nonlinear_arith)
            requires
                a.unscaled == 0,
                aligned(a, scale) == a.unscaled * pow(10, (scale - a.scale) as nat),
        ;
    } else {
        let middle = max_int(a.scale, b.scale);
        let sum = decimal_sum(a, b);
        lemma_aligned_twice(a, middle, scale);
        lemma_aligned_twice(b, middle, scale);
        let factor = pow(10, (scale - middle) as nat);
        let x = aligned(a, middle);
        let y = aligned(b, middle);
        assert(sum.unscaled == x + y);
        assert(aligned(sum, scale) == (x + y) * factor);
        assert((x + y) * factor == x * factor + y * factor) by (nonlinear_arith);
    }
}

/// At a scale that a number reaches, the integer of its absolute value is
/// the absolute value of its integer.
pub proof fn lemma_decimal_abs_at(a: Decimal, scale: int)
    requires
        a.scale <= scale,
    ensures
        aligned(decimal_abs(a), scale) == if aligned(a, scale) < 0 {
            -aligned(a, scale)
        } else {
            aligned(a, scale)
        },
{
    let factor = pow(10, (scale - a.scale) as nat);
    let x = a.unscaled;
    lemma_pow_positive(10, (scale - a.scale) as nat);
    assert((-x) * factor == -(x * factor)) by (nonlinear_arith);
    assert(x < 0 ==> x * factor < 0) by (nonlinear_arith)
        requires
            factor > 0,
    ;
    assert(x >= 0 ==> x * factor >= 0) by (nonlinear_arith)
        requires
            factor > 0,
    ;
}

/// A number that is the same as one that is not negative is not negative.
pub proof fn lemma_same_number_sign(a: Decimal, b: Decimal)
    requires
        same_number(a, b),
        b.unscaled >= 0,
    ensures
        a.unscaled >= 0,
{
    let scale = max_int(a.scale, b.scale);
    lemma_pow_positive(10, (scale - a.scale) as nat);
    lemma_pow_positive(10, (scale - b.scale) as nat);
    let p = pow(10, (scale - a.scale) as nat);
    let q = pow(10, (scale - b.scale) as nat);
    assert(a.unscaled >= 0) by (nonlinear_arith)
        requires
            a.unscaled * p == b.unscaled * q,
            b.unscaled >= 0,
            p > 0,
            q > 0,
    ;
}

/// Of two numbers one is at most the other.
pub proof fn lemma_decimal_le_total(a: Decimal, b: Decimal)
    ensures
        decimal_le(a, b) || decimal_le(b, a),
{
}

/// A number that is at most a second, which is at most a third, is at most
/// the third.
pub proof fn lemma_decimal_le_transitive(a: Decimal, b: Decimal, c: Decimal)
    requires
        decimal_le(a, b),
        decimal_le(b, c),
    ensures
        decimal_le(a, c),
{
    let scale = max_int(a.scale, max_int(b.scale, c.scale));
    lemma_decimal_le_at(a, b, scale);
    lemma_decimal_le_at(b, c, scale);
    lemma_decimal_le_at(a, c, scale);
}

/// Adding two numbers that are not negative gives a number that is not negative.
pub proof fn lemma_decimal_sum_nonnegative(a: Decimal, b: Decimal)
    requires
        a.unscaled >= 0,
        b.unscaled >= 0,
    ensures
        decimal_sum(a, b).unscaled >= 0,
{
    let scale = max_int(a.scale, b.scale);
    lemma_pow_positive(10, (scale - a.scale) as nat);
    lemma_pow_positive(10, (scale - b.scale) as nat);
    assert(aligned(a, scale) >= 0) by (nonlinear_arith)
        requires
            a.unscaled >= 0,
            pow(10, (scale - a.scale) as nat) > 0,
            aligned(a, scale) == a.unscaled * pow(10, (scale - a.scale) as nat),
    ;
    assert(aligned(b, scale) >= 0) by (nonlinear_arith)
        requires
            b.unscaled >= 0,
            pow(10, (scale - b.scale) as nat) > 0,
            aligned(b, scale) == b.unscaled * pow(10, (scale - b.scale) as nat),
    ;
}

/// A number is at most another where their difference is at most zero.
pub proof fn lemma_difference_sign(a: Decimal, b: Decimal)
    ensures
        decimal_le(a, b) == (decimal_difference(a, b).unscaled <= 0),
{
    let scale = max_int(a.scale, b.scale);
    let p = pow(10, (scale - a.scale) as nat);
    let q = pow(10, (scale - b.scale) as nat);
    lemma_pow_positive(10, (scale - a.scale) as nat);
    lemma_pow_positive(10, (scale - b.scale) as nat);
    let x = a.unscaled;
    let y = b.unscaled;
    if y == 0 {
        assert(y * q == 0) by (nonlinear_arith)
            requires
                y == 0,
        ;
        assert((x * p <= 0) == (x <= 0)) by (nonlinear_arith)
            requires
                p > 0,
        ;
    } else if x == 0 {
        assert(x * p == 0) by (nonlinear_arith)
            requires
                x == 0,
        ;
        assert((0 <= y * q) == (-y <= 0)) by (nonlinear_arith)
            requires
                q > 0,
        ;
    }
}

/// A number written in base 256 is zero where all of its bytes are.
proof fn lemma_unsigned_be_zero(bytes: Seq<u8>)
    ensures
        (unsigned_be(bytes) == 0) == (forall|i: int| 0 <= i < bytes.len() ==> bytes[i] == 0),
    decreases bytes.len(),
{
    if bytes.len() > 0 {
        let rest = bytes.drop_last();
        lemma_unsigned_be_zero(rest);
        if unsigned_be(bytes) == 0 {
            assert(unsigned_be(rest) == 0 && bytes.last() == 0);
            assert forall|i: int| 0 <= i < bytes.len() implies bytes[i] == 0 by {
                if i < rest.len() {
                    assert(rest[i] == bytes[i]);
                }
            }
        }
        if forall|i: int| 0 <= i < bytes.len() ==> bytes[i] == 0 {
            assert(bytes[bytes.len() - 1] == 0);
            assert forall|i: int| 0 <= i < rest.len() implies rest[i] == 0 by {
                assert(rest[i] == bytes[i]);
            }
        }
    }
}

/// Whether `a` is at most `b`, as numbers: whether taking `b` from `a`
/// leaves nothing above zero. The comparison of `bigdecimal` itself is not
/// used: it estimates the size of a scaled number in floating point, which
/// goes wrong where two scales lie far enough apart.
pub(crate) fn amount_le(a: &Amount, b: &Amount) -> (r: bool)
    ensures
        r == decimal_le(a@, b@),
{
    let difference = amount_difference(a, b);
    proof {
        lemma_difference_sign(a@, b@);
    }
    difference.is_negative() || difference.is_zero()
}

/// A number written with `bytes.len()` bytes is below `256^bytes.len()`.
proof fn lemma_unsigned_be_bound(bytes: Seq<u8>)
    ensures
        unsigned_be(bytes) < pow(256, bytes.len()),
    decreases bytes.len(),
{
    reveal(pow);
    if bytes.len() > 0 {
        lemma_unsigned_be_bound(bytes.drop_last());
        let n = bytes.drop_last().len();
        assert(pow(256, bytes.len()) == 256 * pow(256, n));
    }
}

impl Amount {
    /// Zero, at scale 0.
    pub fn zero() -> (r: Amount)
        ensures
            r@ == (Decimal { unscaled: 0, scale: 0 }),
    {
        Amount { unscaled: Vec::new(), scale: 0 }
    }

    /// Reads an amount from a decimal text such as `-12.50` or `1.5e3`.
    pub fn parse(text: &str) -> (r: Result<Amount, ParseAmountError>)
        ensures
            match r {
                Ok(amount) => parse_outcome(text@) == Some(amount@),
                Err(e) => parse_outcome(text@) is None && (e is Scale <==> parsed_decimal(
                    text@,
                ) is Some),
            },
    {
        match parse_parts(text) {
            Ok((unscaled, scale)) => {
                if scale < -MAX_SCALE || scale > MAX_SCALE {
                    Err(ParseAmountError::Scale(scale))
                } else {
                    Ok(Amount { unscaled, scale })
                }
            },
            Err(e) => Err(ParseAmountError::Syntax(e)),
        }
    }

    /// The amount as decimal text.
    pub fn to_text(&self) -> (r: String)
        ensures
            r@ == decimal_text(self@.unscaled, self@.scale),
    {
        amount_text(self)
    }

    /// Whether the amount is zero.
    pub fn is_zero(&self) -> (r: bool)
        ensures
            r == (self@.unscaled == 0),
    {
        let mut i: usize = 0;
        while i < self.unscaled.len()
            invariant
                i <= self.unscaled@.len(),
                forall|k: int| 0 <= k < i ==> self.unscaled@[k] == 0,
            decreases self.unscaled@.len() - i,
        {
            if self.unscaled[i] != 0 {
                proof {
                    lemma_unsigned_be_bound(self.unscaled@);
                    lemma_unsigned_be_zero(self.unscaled@);
                }
                return false;
            }
            i += 1;
        }
        proof {
            lemma_unsigned_be_zero(self.unscaled@);
        }
        true
    }

    /// Whether the amount is below zero.
    pub fn is_negative(&self) -> (r: bool)
        ensures
            r == (self@.unscaled < 0),
    {
        if self.unscaled.len() == 0 {
            false
        } else {
            proof {
                lemma_unsigned_be_bound(self.unscaled@);
            }
            self.unscaled[0] >= 128
        }
    }
}

impl Clone for Amount {
    fn clone(&self) -> (r: Amount)
        ensures
            r@ == self@,
    {
        proof {
            use_type_invariant(self);
        }
        let unscaled = self.unscaled.clone();
        assert(unscaled@ =~= self.unscaled@);
        Amount { unscaled, scale: self.scale }
    }
}

} // verus!
