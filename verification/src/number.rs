//! Arbitrary-precision integers and decimals as plain values.
//!
//! `BigNum` holds what a `num::bigint::BigInt` holds (a sign and base-2^32
//! magnitude limbs, least significant first) and `Decimal` what a
//! `bigdecimal::BigDecimal` holds (its integer digits and its scale).
//! The arithmetic itself is done by those crates, behind the trusted
//! wrappers of this module.
use vstd::prelude::*;
use vstd::arithmetic::power::pow;
use num::bigint::{BigInt, Sign};
use num::ToPrimitive;
use bigdecimal::BigDecimal;

verus! {

/// The natural number written by little-endian base-2^32 limbs.
pub open spec fn limbs_value(limbs: Seq<u32>) -> nat
    decreases limbs.len(),
{
    if limbs.len() == 0 {
        0
    } else {
        limbs[0] as nat + 0x1_0000_0000 * limbs_value(limbs.drop_first())
    }
}

/// A signed integer of any size: a sign and the magnitude's limbs.
#[derive(Debug)]
pub struct BigNum {
    pub negative: bool,
    pub magnitude: Vec<u32>,
}

impl View for BigNum {
    type V = int;

    open spec fn view(&self) -> int {
        if self.negative {
            -(limbs_value(self.magnitude@) as int)
        } else {
            limbs_value(self.magnitude@) as int
        }
    }
}

/// A decimal number `digits * 10^(-scale)`, viewed as the pair
/// (digits, scale). Two pairs may stand for the same number
/// (`(5, 0)` and `(50, 1)`); the pair is what is kept, as the printed
/// form depends on it.
#[derive(Debug)]
pub struct Decimal {
    pub digits: BigNum,
    pub scale: i64,
}

impl View for Decimal {
    type V = (int, int);

    open spec fn view(&self) -> (int, int) {
        (self.digits@, self.scale as int)
    }
}

pub open spec fn max_int(a: int, b: int) -> int {
    if a >= b { a } else { b }
}

/// The digits of the decimal `d` when written at scale `s` (for `s >= d.1`).
pub open spec fn rescaled(d: (int, int), s: int) -> int {
    d.0 * pow(10, (s - d.1) as nat)
}

/// The sum that `BigDecimal`'s `+` gives: both operands aligned to the
/// larger scale, digits added.
pub open spec fn decimal_sum(a: (int, int), b: (int, int)) -> (int, int) {
    let s = max_int(a.1, b.1);
    (rescaled(a, s) + rescaled(b, s), s)
}

/// The difference that `BigDecimal`'s `-` gives: a zero right operand gives
/// the left one unchanged, a zero left operand the negated right one;
/// otherwise both are aligned to the larger scale.
pub open spec fn decimal_difference(a: (int, int), b: (int, int)) -> (int, int) {
    if b.0 == 0 {
        a
    } else if a.0 == 0 {
        (-b.0, b.1)
    } else {
        let s = max_int(a.1, b.1);
        (rescaled(a, s) - rescaled(b, s), s)
    }
}

/// Ten to the power `n`.
pub open spec fn ten_to(n: nat) -> nat
    decreases n,
{
    if n == 0 {
        1
    } else {
        10 * ten_to((n - 1) as nat)
    }
}

/// The decimals that `BigDecimal::is_one_quickcheck` recognises as one:
/// digits `10^s` at a scale `s` from 0 to 38. Any other decimal, one at a
/// larger scale too, is not recognised.
pub open spec fn quick_one(d: (int, int)) -> bool {
    0 <= d.1 <= 38 && d.0 == ten_to(d.1 as nat)
}

/// The product that `BigDecimal`'s `*` gives: a factor recognised as one
/// (see `quick_one`) hands back the other factor unchanged; otherwise the
/// digits are multiplied and the scales added.
pub open spec fn decimal_product(a: (int, int), b: (int, int)) -> (int, int) {
    if quick_one(a) {
        b
    } else if quick_one(b) {
        a
    } else {
        (a.0 * b.0, a.1 + b.1)
    }
}

/// The quotient that `BigDecimal`'s `/` gives, as a (digits, scale) pair.
pub uninterp spec fn bigdecimal_quotient(a: (int, int), b: (int, int)) -> (int, int);

/// The (digits, scale) pair that `BigDecimal`'s `FromStr` reads from a text,
/// or `None` where it refuses the text.
pub uninterp spec fn bigdecimal_parse(text: Seq<char>) -> Option<(int, int)>;

/// The integer part of a non-negative decimal, rounded toward zero.
pub open spec fn integer_part(d: (int, int)) -> int {
    if d.1 >= 0 {
        d.0 / pow(10, d.1 as nat)
    } else {
        d.0 * pow(10, (-d.1) as nat)
    }
}

/// What `ToPrimitive::to_u64` gives for a decimal: nothing for a negative
/// number, else the integer part if it fits in a `u64`.
pub open spec fn decimal_to_u64_spec(d: (int, int)) -> Option<u64> {
    if d.0 < 0 || integer_part(d) > u64::MAX {
        None
    } else {
        Some(integer_part(d) as u64)
    }
}

/// `BigInt * BigInt` (num): the product of the two integers.
#[verifier::external_body]
pub(crate) fn bigint_mul(a: &BigNum, b: &BigNum) -> (r: BigNum)
    ensures
        r@ == a@ * b@,
{
    let x = BigInt::new(if a.negative { Sign::Minus } else { Sign::Plus }, a.magnitude.clone());
    let y = BigInt::new(if b.negative { Sign::Minus } else { Sign::Plus }, b.magnitude.clone());
    let (sign, magnitude) = (x * y).to_u32_digits();
    BigNum { negative: sign == Sign::Minus, magnitude }
}

/// `usize + BigInt` (num): the sum of the two integers.
#[verifier::external_body]
pub(crate) fn bigint_add_usize(a: usize, b: &BigNum) -> (r: BigNum)
    ensures
        r@ == a + b@,
{
    let y = BigInt::new(if b.negative { Sign::Minus } else { Sign::Plus }, b.magnitude.clone());
    let (sign, magnitude) = (a + y).to_u32_digits();
    BigNum { negative: sign == Sign::Minus, magnitude }
}

/// Two scales lie close enough for `BigDecimal` to bring one to the other:
/// their distance fits in an `i64`.
pub open spec fn scales_align(a: (int, int), b: (int, int)) -> bool {
    -(i64::MAX as int) <= a.1 - b.1 <= i64::MAX
}

/// `BigDecimal`'s `+` can run: a non-zero operand is brought to the scale
/// of the other one where that is larger, and the distance between the
/// two scales must fit in an `i64` (else the crate panics).
pub open spec fn sum_scale_ok(a: (int, int), b: (int, int)) -> bool {
    if a.0 != 0 && b.0 != 0 {
        scales_align(a, b)
    } else if a.0 != 0 {
        b.1 - a.1 <= i64::MAX
    } else if b.0 != 0 {
        a.1 - b.1 <= i64::MAX
    } else {
        true
    }
}

/// `BigDecimal`'s `-` can run: with a zero operand nothing is rescaled;
/// otherwise the two scales must be within an `i64` of each other.
pub open spec fn difference_scale_ok(a: (int, int), b: (int, int)) -> bool {
    a.0 == 0 || b.0 == 0 || scales_align(a, b)
}

/// `ToPrimitive::to_u64` on a `BigDecimal` can run: a positive number is
/// brought to scale 0, which overflows from the scale `i64::MIN`.
pub open spec fn u64_conversion_ok(d: (int, int)) -> bool {
    d.0 <= 0 || d.1 != i64::MIN
}

/// `BigDecimal + BigDecimal` (bigdecimal 0.4, `add_bigdecimals`): exact, at
/// the larger of the two scales. Bringing an operand to the other scale
/// panics where the distance between the scales overflows an `i64`.
#[verifier::external_body]
pub(crate) fn decimal_add(a: &Decimal, b: &Decimal) -> (r: Decimal)
    requires
        sum_scale_ok(a@, b@),
    ensures
        r@ == decimal_sum(a@, b@),
{
    let x = BigInt::new(if a.digits.negative { Sign::Minus } else { Sign::Plus }, a.digits.magnitude.clone());
    let y = BigInt::new(if b.digits.negative { Sign::Minus } else { Sign::Plus }, b.digits.magnitude.clone());
    let (i, scale) = (BigDecimal::new(x, a.scale) + BigDecimal::new(y, b.scale)).into_bigint_and_exponent();
    let (sign, magnitude) = i.to_u32_digits();
    Decimal { digits: BigNum { negative: sign == Sign::Minus, magnitude }, scale }
}

/// `BigDecimal - BigDecimal` (bigdecimal 0.4): exact; see `decimal_difference`
/// for the scale of the result. Two non-zero operands are brought to the
/// larger scale, which panics where their distance overflows an `i64`.
#[verifier::external_body]
pub(crate) fn decimal_sub(a: &Decimal, b: &Decimal) -> (r: Decimal)
    requires
        difference_scale_ok(a@, b@),
    ensures
        r@ == decimal_difference(a@, b@),
{
    let x = BigInt::new(if a.digits.negative { Sign::Minus } else { Sign::Plus }, a.digits.magnitude.clone());
    let y = BigInt::new(if b.digits.negative { Sign::Minus } else { Sign::Plus }, b.digits.magnitude.clone());
    let (i, scale) = (BigDecimal::new(x, a.scale) - BigDecimal::new(y, b.scale)).into_bigint_and_exponent();
    let (sign, magnitude) = i.to_u32_digits();
    Decimal { digits: BigNum { negative: sign == Sign::Minus, magnitude }, scale }
}

/// `BigDecimal`'s `*` can run: a factor recognised as one is handed back
/// as the other one; else the scales are added as `i64`.
pub open spec fn product_scale_ok(a: (int, int), b: (int, int)) -> bool {
    quick_one(a) || quick_one(b) || i64::MIN <= a.1 + b.1 <= i64::MAX
}

/// `BigDecimal`'s `/` can run on a non-zero divisor: a zero dividend, or a
/// divisor recognised as one (see `quick_one`), is handed back at once; else
/// the scales are subtracted as `i64`, and the scale then grows by one for
/// each decimal shift of the dividend (at most the divisor's digit count)
/// and for each further digit of precision (at most 99 with the crate's
/// default precision of 100).
pub open spec fn quotient_scale_ok(a: (int, int), b: (int, int)) -> bool {
    a.0 == 0 || quick_one(b) || (i64::MIN <= a.1 - b.1 && a.1 - b.1 + int_text(b.0).len() + 100
        <= i64::MAX)
}

/// `BigDecimal * BigDecimal` (bigdecimal 0.4, by value): the pair that
/// `decimal_product` gives. Unless a factor is recognised as one, the
/// scales are added as `i64`, so their sum must fit.
#[verifier::external_body]
pub(crate) fn decimal_mul(a: &Decimal, b: &Decimal) -> (r: Decimal)
    requires
        product_scale_ok(a@, b@),
    ensures
        r@ == decimal_product(a@, b@),
{
    let x = BigInt::new(if a.digits.negative { Sign::Minus } else { Sign::Plus }, a.digits.magnitude.clone());
    let y = BigInt::new(if b.digits.negative { Sign::Minus } else { Sign::Plus }, b.digits.magnitude.clone());
    let (i, scale) = (BigDecimal::new(x, a.scale) * BigDecimal::new(y, b.scale)).into_bigint_and_exponent();
    let (sign, magnitude) = i.to_u32_digits();
    Decimal { digits: BigNum { negative: sign == Sign::Minus, magnitude }, scale }
}

/// `BigDecimal / BigDecimal` (bigdecimal 0.4, `impl_division`): rounded to
/// the crate's default precision (100 digits, the value its build takes
/// when `RUST_BIGDECIMAL_DEFAULT_PRECISION` is not set); the result is left
/// to the name `bigdecimal_quotient`. It panics on a zero divisor, and its
/// `i64` scale arithmetic must not overflow (see `quotient_scale_ok`).
#[verifier::external_body]
pub(crate) fn decimal_div(a: &Decimal, b: &Decimal) -> (r: Decimal)
    requires
        b@.0 != 0,
        quotient_scale_ok(a@, b@),
    ensures
        r@ == bigdecimal_quotient(a@, b@),
{
    let x = BigInt::new(if a.digits.negative { Sign::Minus } else { Sign::Plus }, a.digits.magnitude.clone());
    let y = BigInt::new(if b.digits.negative { Sign::Minus } else { Sign::Plus }, b.digits.magnitude.clone());
    let (i, scale) = (BigDecimal::new(x, a.scale) / BigDecimal::new(y, b.scale)).into_bigint_and_exponent();
    let (sign, magnitude) = i.to_u32_digits();
    Decimal { digits: BigNum { negative: sign == Sign::Minus, magnitude }, scale }
}

/// `ToPrimitive::to_u64` on a `BigDecimal` (bigdecimal 0.4): `None` for a
/// negative number, else the integer part (digits after the point are
/// dropped) if it fits. Bringing a positive number to scale 0 panics at
/// the scale `i64::MIN`.
#[verifier::external_body]
pub(crate) fn decimal_to_u64(a: &Decimal) -> (r: Option<u64>)
    requires
        u64_conversion_ok(a@),
    ensures
        r == decimal_to_u64_spec(a@),
{
    let x = BigInt::new(if a.digits.negative { Sign::Minus } else { Sign::Plus }, a.digits.magnitude.clone());
    BigDecimal::new(x, a.scale).to_u64()
}

/// `<BigDecimal as FromStr>::from_str` (bigdecimal 0.4): the number the
/// text writes, or `None` where the crate refuses the text.
#[verifier::external_body]
pub(crate) fn decimal_from_str(text: &str) -> (r: Option<Decimal>)
    ensures
        match r {
            Some(d) => bigdecimal_parse(text@) == Some(d@),
            None => bigdecimal_parse(text@) is None,
        },
{
    match text.parse::<BigDecimal>() {
        Ok(d) => {
            let (i, scale) = d.into_bigint_and_exponent();
            let (sign, magnitude) = i.to_u32_digits();
            Some(Decimal { digits: BigNum { negative: sign == Sign::Minus, magnitude }, scale })
        },
        Err(_) => None,
    }
}

proof fn lemma_limbs_single(x: u32)
    ensures
        limbs_value(seq![x]) == x,
{
    reveal_with_fuel(limbs_value, 2);
    assert(seq![x].drop_first() =~= Seq::<u32>::empty());
}

proof fn lemma_limbs_pair(lo: u32, hi: u32)
    ensures
        limbs_value(seq![lo, hi]) == lo + 0x1_0000_0000 * hi,
{
    assert(seq![lo, hi].drop_first() =~= seq![hi]);
    lemma_limbs_single(hi);
}

/// Every limb of `limbs` is zero exactly when the value is zero.
proof fn lemma_limbs_zero(limbs: Seq<u32>)
    ensures
        (limbs_value(limbs) == 0) <==> (forall|i: int| 0 <= i < limbs.len() ==> limbs[i] == 0),
    decreases limbs.len(),
{
    if limbs.len() > 0 {
        lemma_limbs_zero(limbs.drop_first());
        if limbs_value(limbs) == 0 {
            assert forall|i: int| 0 <= i < limbs.len() implies limbs[i] == 0 by {
                if i > 0 {
                    assert(limbs[i] == limbs.drop_first()[i - 1]);
                }
            }
        }
        if forall|i: int| 0 <= i < limbs.len() ==> limbs[i] == 0 {
            assert forall|i: int| 0 <= i < limbs.drop_first().len() implies limbs.drop_first()[i]
                == 0 by {
                assert(limbs.drop_first()[i] == limbs[i + 1]);
            }
        }
    }
}

impl BigNum {
    /// The integer `n`.
    pub fn from_u64(n: u64) -> (r: BigNum)
        ensures
            r@ == n,
    {
        let mut magnitude: Vec<u32> = Vec::new();
        if n == 0 {
            proof {
                assert(magnitude@ =~= Seq::<u32>::empty());
            }
        } else if n < 0x1_0000_0000 {
            let lo: u32 = n as u32;
            magnitude.push(lo);
            proof {
                assert(magnitude@ =~= seq![lo]);
                lemma_limbs_single(lo);
            }
        } else {
            let lo: u32 = (n % 0x1_0000_0000) as u32;
            let hi: u32 = (n / 0x1_0000_0000) as u32;
            magnitude.push(lo);
            magnitude.push(hi);
            proof {
                assert(magnitude@ =~= seq![lo, hi]);
                lemma_limbs_pair(lo, hi);
            }
        }
        BigNum { negative: false, magnitude }
    }

    /// A copy of this integer, limb for limb.
    pub fn copy(&self) -> (r: BigNum)
        ensures
            r.negative == self.negative,
            r.magnitude@ == self.magnitude@,
            r@ == self@,
    {
        let magnitude = self.magnitude.clone();
        proof {
            assert(magnitude@ =~= self.magnitude@);
        }
        BigNum { negative: self.negative, magnitude }
    }

    /// Whether the integer is zero.
    pub fn is_zero(&self) -> (r: bool)
        ensures
            r == (self@ == 0),
    {
        proof {
            lemma_limbs_zero(self.magnitude@);
        }
        let mut i: usize = 0;
        while i < self.magnitude.len()
            invariant
                i <= self.magnitude@.len(),
                forall|j: int| 0 <= j < i ==> self.magnitude@[j] == 0,
            decreases self.magnitude@.len() - i,
        {
            if self.magnitude[i] != 0 {
                proof {
                    lemma_limbs_zero(self.magnitude@);
                    assert(self.magnitude@[i as int] != 0);
                }
                return false;
            }
            i = i + 1;
        }
        true
    }
}

/// A little-endian limb sequence without its first `i` limbs has the
/// value of limb `i` plus 2^32 times that of the limbs after it.
proof fn lemma_limbs_skip(limbs: Seq<u32>, i: int)
    requires
        0 <= i < limbs.len(),
    ensures
        limbs_value(limbs.skip(i)) == limbs[i] + 0x1_0000_0000 * limbs_value(limbs.skip(i + 1)),
{
    assert(limbs.skip(i).drop_first() =~= limbs.skip(i + 1));
}

/// A number is a low limb plus 2^32 times a rest exactly when the limb is
/// its remainder modulo 2^32 and the rest its quotient.
proof fn lemma_limb_split(x: int, y: int, r: int)
    requires
        0 <= x < 0x1_0000_0000,
    ensures
        (x + 0x1_0000_0000 * y == r) <==> (x == r % 0x1_0000_0000 && y == r / 0x1_0000_0000),
{
    if x + 0x1_0000_0000 * y == r {
        vstd::arithmetic::div_mod::lemma_fundamental_div_mod_converse(r, 0x1_0000_0000, y, x);
    }
    vstd::arithmetic::div_mod::lemma_fundamental_div_mod(r, 0x1_0000_0000);
}

/// Powers of ten grow with the exponent.
proof fn lemma_ten_to_grows(a: nat, b: nat)
    requires
        a <= b,
    ensures
        ten_to(a) <= ten_to(b),
    decreases b,
{
    if a < b {
        lemma_ten_to_grows(a, (b - 1) as nat);
    }
}

proof fn lemma_ten_to_38()
    ensures
        ten_to(38) == 100_000_000_000_000_000_000_000_000_000_000_000_000nat,
{
    reveal_with_fuel(ten_to, 39);
}

impl BigNum {
    /// Whether the integer equals `n`.
    pub fn equals_u128(&self, n: u128) -> (r: bool)
        ensures
            r == (self@ == n as int),
    {
        if self.negative {
            return n == 0 && self.is_zero();
        }
        let mut rem: u128 = n;
        let mut i: usize = 0;
        proof {
            assert(self.magnitude@.skip(0) =~= self.magnitude@);
        }
        while i < self.magnitude.len()
            invariant
                !self.negative,
                i <= self.magnitude@.len(),
                (limbs_value(self.magnitude@) == n) <==> (limbs_value(self.magnitude@.skip(i as int))
                    == rem),
            decreases self.magnitude@.len() - i,
        {
            let limb: u32 = self.magnitude[i];
            proof {
                lemma_limbs_skip(self.magnitude@, i as int);
                lemma_limb_split(
                    limb as int,
                    limbs_value(self.magnitude@.skip(i + 1)) as int,
                    rem as int,
                );
            }
            if limb as u128 != rem % 0x1_0000_0000 {
                return false;
            }
            rem = rem / 0x1_0000_0000;
            i = i + 1;
        }
        proof {
            assert(self.magnitude@.skip(i as int) =~= Seq::<u32>::empty());
        }
        rem == 0
    }
}

impl Decimal {
    /// Whether `BigDecimal::is_one_quickcheck` recognises this decimal as
    /// one (see `quick_one`).
    pub fn is_quick_one(&self) -> (r: bool)
        ensures
            r == quick_one(self@),
    {
        if self.scale < 0 || self.scale > 38 {
            return false;
        }
        let s: u32 = self.scale as u32;
        let mut p: u128 = 1;
        let mut k: u32 = 0;
        while k < s
            invariant
                k <= s <= 38,
                p == ten_to(k as nat),
            decreases s - k,
        {
            proof {
                lemma_ten_to_grows((k + 1) as nat, 38);
                lemma_ten_to_38();
            }
            p = p * 10;
            k = k + 1;
        }
        self.digits.equals_u128(p)
    }

    /// Whether `BigDecimal`'s `+` can take this decimal and `other`.
    pub fn can_add(&self, other: &Decimal) -> (r: bool)
        ensures
            r == sum_scale_ok(self@, other@),
    {
        let d: i128 = self.scale as i128 - other.scale as i128;
        let x = !self.is_zero();
        let y = !other.is_zero();
        if x && y {
            -(i64::MAX as i128) <= d && d <= i64::MAX as i128
        } else if x {
            -d <= i64::MAX as i128
        } else if y {
            d <= i64::MAX as i128
        } else {
            true
        }
    }

    /// Whether `BigDecimal`'s `-` can take this decimal and `other`.
    pub fn can_subtract(&self, other: &Decimal) -> (r: bool)
        ensures
            r == difference_scale_ok(self@, other@),
    {
        let d: i128 = self.scale as i128 - other.scale as i128;
        self.is_zero() || other.is_zero() || (-(i64::MAX as i128) <= d && d <= i64::MAX as i128)
    }

    /// Whether `BigDecimal`'s `*` can take this decimal and `other`.
    pub fn can_multiply(&self, other: &Decimal) -> (r: bool)
        ensures
            r == product_scale_ok(self@, other@),
    {
        self.is_quick_one() || other.is_quick_one() || self.scale.checked_add(other.scale).is_some()
    }

    /// Whether `ToPrimitive::to_u64` can take this decimal.
    pub fn can_convert_to_u64(&self) -> (r: bool)
        ensures
            r == u64_conversion_ok(self@),
    {
        self.digits.negative || self.digits.is_zero() || self.scale != i64::MIN
    }

    /// The whole number `n`, at scale 0 (what `BigDecimal::from(n)` holds).
    pub fn from_u64(n: u64) -> (r: Decimal)
        ensures
            r@ == (n as int, 0int),
    {
        Decimal { digits: BigNum::from_u64(n), scale: 0 }
    }

    /// The integer `digits` at scale 0 (what `BigDecimal::new(digits, 0)` holds).
    pub fn from_integer(digits: &BigNum) -> (r: Decimal)
        ensures
            r@ == (digits@, 0int),
    {
        Decimal { digits: digits.copy(), scale: 0 }
    }

    /// A copy of this decimal.
    pub fn copy(&self) -> (r: Decimal)
        ensures
            r@ == self@,
    {
        Decimal { digits: self.digits.copy(), scale: self.scale }
    }

    /// Whether the number is zero, at whatever scale.
    pub fn is_zero(&self) -> (r: bool)
        ensures
            r == (self@.0 == 0),
    {
        self.digits.is_zero()
    }
}


/// The decimal digit `d` as a character.
pub open spec fn digit_char(d: nat) -> char {
    (d + 48) as char
}

/// The decimal digits of `n`, most significant first, with no leading zero.
pub open spec fn nat_text(n: nat) -> Seq<char>
    decreases n,
{
    if n < 10 {
        seq![digit_char(n)]
    } else {
        nat_text(n / 10).push(digit_char(n % 10))
    }
}

/// The decimal text of an integer: a minus sign for a negative one.
pub open spec fn int_text(n: int) -> Seq<char> {
    if n < 0 {
        seq!['-'] + nat_text((-n) as nat)
    } else {
        nat_text(n as nat)
    }
}

/// The text that `Display` gives for a `BigDecimal` with these (digits, scale).
pub uninterp spec fn bigdecimal_display(d: (int, int)) -> Seq<char>;

/// The base-2^64 limbs of `n`, least significant first, with no leading
/// zero limb (none at all for zero).
pub open spec fn u64_limbs(n: nat) -> Seq<nat>
    decreases n,
{
    if n == 0 {
        seq![]
    } else {
        seq![n % 0x1_0000_0000_0000_0000] + u64_limbs(n / 0x1_0000_0000_0000_0000)
    }
}

/// The decimal texts of `s`, separated by `", "`.
pub open spec fn join_nat_texts(s: Seq<nat>) -> Seq<char>
    decreases s.len(),
{
    if s.len() == 0 {
        seq![]
    } else if s.len() == 1 {
        nat_text(s[0])
    } else {
        join_nat_texts(s.drop_last()) + ", "@ + nat_text(s.last())
    }
}

/// The `Debug` name of the sign of `n`.
pub open spec fn sign_name(n: int) -> Seq<char> {
    if n > 0 {
        "Plus"@
    } else if n == 0 {
        "NoSign"@
    } else {
        "Minus"@
    }
}

/// The text that `Debug` gives for a `BigDecimal` with these (digits,
/// scale): `BigDecimal(sign=Plus, scale=0, digits=[5])`, the digits being
/// the magnitude's base-2^64 limbs.
pub open spec fn bigdecimal_debug(d: (int, int)) -> Seq<char> {
    let magnitude: nat = if d.0 < 0 { (-d.0) as nat } else { d.0 as nat };
    "BigDecimal(sign="@ + sign_name(d.0) + ", scale="@ + int_text(d.1) + ", digits=["@
        + join_nat_texts(u64_limbs(magnitude)) + "])"@
}

/// `Display` of a `BigInt` (num): the decimal text of the integer.
#[verifier::external_body]
pub(crate) fn bigint_text(n: &BigNum) -> (r: String)
    ensures
        r@ == int_text(n@),
{
    let x = BigInt::new(if n.negative { Sign::Minus } else { Sign::Plus }, n.magnitude.clone());
    format!("{}", x)
}

/// `Display` of a `BigDecimal` (bigdecimal 0.4); the text is left to the
/// name `bigdecimal_display`.
#[verifier::external_body]
pub(crate) fn decimal_display(d: &Decimal) -> (r: String)
    ensures
        r@ == bigdecimal_display(d@),
{
    let x = BigInt::new(if d.digits.negative { Sign::Minus } else { Sign::Plus }, d.digits.magnitude.clone());
    format!("{}", BigDecimal::new(x, d.scale))
}

/// `Debug` of a `BigDecimal` (bigdecimal 0.4, non-alternate form): the
/// sign, the scale and the magnitude's `u64` limbs (see `bigdecimal_debug`).
#[verifier::external_body]
pub(crate) fn decimal_debug(d: &Decimal) -> (r: String)
    ensures
        r@ == bigdecimal_debug(d@),
{
    let x = BigInt::new(if d.digits.negative { Sign::Minus } else { Sign::Plus }, d.digits.magnitude.clone());
    format!("{:?}", BigDecimal::new(x, d.scale))
}

} // verus!
