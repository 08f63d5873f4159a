//! Exact decimal prices.
//!
//! A price is an integer together with the number of its digits that stand
//! after the decimal point. Prices are ordered and compared by the number
//! they denote, never by the way it is written: `1.50` and `1.5` are the same
//! price. The arithmetic itself is done by `bigdecimal`.

use bigdecimal::num_bigint::BigInt;
use bigdecimal::BigDecimal;
use bigdecimal::ToPrimitive;
use std::cmp::Ordering;
use vstd::prelude::*;

verus! {

/// Ten to the power `e`.
pub open spec fn pow10(e: nat) -> int
    decreases e,
{
    if e == 0 {
        1
    } else {
        10 * pow10((e - 1) as nat)
    }
}

/// Powers of ten are positive.
pub proof fn lemma_pow10_positive(e: nat)
    ensures
        pow10(e) > 0,
    decreases e,
{
    if e > 0 {
        lemma_pow10_positive((e - 1) as nat);
    }
}

/// The power of a sum is the product of the powers.
pub proof fn lemma_pow10_adds(a: nat, b: nat)
    ensures
        pow10(a + b) == pow10(a) * pow10(b),
    decreases b,
{
    if b > 0 {
        lemma_pow10_adds(a, (b - 1) as nat);
        assert(10 * (pow10(a) * pow10((b - 1) as nat)) == pow10(a) * (10 * pow10((b - 1) as nat)))
            by (nonlinear_arith);
    }
}

/// The largest number of fractional digits a price in the book may carry.
pub const MAX_QUOTE_SCALE: u8 = 17;

/// How one price stands to another.
#[derive(Clone, Copy, Debug, PartialEq, Eq)]
pub enum Standing {
    Below,
    Level,
    Above,
}

/// The standing of the number `a` to the number `b`.
pub open spec fn standing_of(a: int, b: int) -> Standing {
    if a < b {
        Standing::Below
    } else if a == b {
        Standing::Level
    } else {
        Standing::Above
    }
}

/// The decimal number `unscaled / 10^scale`.
#[derive(Clone, Copy, Debug)]
pub struct Price {
    pub unscaled: i128,
    pub scale: u8,
}

impl View for Price {
    type V = int;

    /// The price counted in units of `10^-255`, the finest step any price can
    /// be written in. Two prices denote the same number exactly when their
    /// views are equal, and one is the lower exactly when its view is smaller.
    open spec fn view(&self) -> int {
        self.unscaled * pow10((255 - self.scale) as nat)
    }
}

/// Orders two decimals with `BigDecimal`'s `Ord::cmp`, which compares the
/// numbers denoted, whatever their scales.
#[verifier::external_body]
fn order_decimals(a: &Price, b: &Price) -> (r: Standing)
    ensures
        r == standing_of(a@, b@),
{
    let x = BigDecimal::new(BigInt::from(a.unscaled), i64::from(a.scale));
    let y = BigDecimal::new(BigInt::from(b.unscaled), i64::from(b.scale));
    match x.cmp(&y) {
        Ordering::Less => Standing::Below,
        Ordering::Equal => Standing::Level,
        Ordering::Greater => Standing::Above,
    }
}

/// Halves the sum of two decimals with `BigDecimal`'s `+` and `/ 2`. Neither
/// rounds: the sum is taken at a scale that holds both numbers, and halving
/// an odd unscaled value moves to the next scale. For two quotes the result
/// has at most 18 fractional digits and fewer than 38 digits in all, so it
/// can be written down as a `Price`.
#[verifier::external_body]
fn halve_sum(a: &Price, b: &Price) -> (r: Price)
    requires
        a.is_quote(),
        b.is_quote(),
    ensures
        2 * r@ == a@ + b@,
{
    let x = BigDecimal::new(BigInt::from(a.unscaled), i64::from(a.scale));
    let y = BigDecimal::new(BigInt::from(b.unscaled), i64::from(b.scale));
    let sum: BigDecimal = &x + &y;
    let half: BigDecimal = sum / 2i32;
    let (digits, scale) = half.into_bigint_and_exponent();
    Price { unscaled: digits.to_i128().unwrap(), scale: u8::try_from(scale).unwrap() }
}

impl PartialEq for Price {
    /// Whether two prices denote the same number.
    fn eq(&self, other: &Price) -> (r: bool) {
        match order_decimals(self, other) {
            Standing::Level => true,
            _ => false,
        }
    }
}

impl vstd::std_specs::cmp::PartialEqSpecImpl for Price {
    open spec fn obeys_eq_spec() -> bool {
        true
    }

    open spec fn eq_spec(&self, other: &Price) -> bool {
        self@ == other@
    }
}

impl PartialOrd for Price {
    /// The order of the numbers that two prices denote.
    fn partial_cmp(&self, other: &Price) -> (r: Option<Ordering>) {
        match order_decimals(self, other) {
            Standing::Below => Some(Ordering::Less),
            Standing::Level => Some(Ordering::Equal),
            Standing::Above => Some(Ordering::Greater),
        }
    }
}

impl vstd::std_specs::cmp::PartialOrdSpecImpl for Price {
    open spec fn obeys_partial_cmp_spec() -> bool {
        true
    }

    open spec fn partial_cmp_spec(&self, other: &Price) -> Option<Ordering> {
        if self@ < other@ {
            Some(Ordering::Less)
        } else if self@ == other@ {
            Some(Ordering::Equal)
        } else {
            Some(Ordering::Greater)
        }
    }
}

/// Of two equal numbers, the one with more fractional digits ends in zero.
proof fn lemma_longer_ends_in_zero(p: Price, q: Price)
    requires
        p@ == q@,
        p.scale <= q.scale,
    ensures
        p.scale < q.scale ==> q.unscaled % 10 == 0,
        p.scale == q.scale ==> p.unscaled == q.unscaled,
{
    let a = (255 - q.scale) as nat;
    let more = (q.scale - p.scale) as nat;
    lemma_pow10_adds(a, more);
    lemma_pow10_positive(a);
    let pa = pow10(a);
    let pm = pow10(more);
    let x = p.unscaled as int;
    let y = q.unscaled as int;
    assert(x * (pa * pm) == y * pa);
    assert(x * pm == y) by (nonlinear_arith)
        requires
            x * (pa * pm) == y * pa,
            pa > 0,
    ;
    if more > 0 {
        let rest = pow10((more - 1) as nat);
        assert(pm == 10 * rest);
        assert(x * (10 * rest) == 10 * (x * rest)) by (nonlinear_arith);
    }
}

/// A number has one canonical way to be written.
pub proof fn lemma_canonical_is_unique(p: Price, q: Price)
    requires
        p@ == q@,
        p.is_canonical(),
        q.is_canonical(),
    ensures
        p == q,
{
    if p.scale <= q.scale {
        lemma_longer_ends_in_zero(p, q);
    } else {
        lemma_longer_ends_in_zero(q, p);
    }
}

impl Price {
    /// A price that the book accepts: at most `MAX_QUOTE_SCALE` fractional
    /// digits and an unscaled value of 64 bits, so that the midpoint of two
    /// of them can always be written down.
    pub open spec fn is_quote(&self) -> bool {
        &&& self.scale <= MAX_QUOTE_SCALE
        &&& i64::MIN <= self.unscaled <= i64::MAX
    }

    /// Written with as few fractional digits as the number allows.
    pub open spec fn is_canonical(&self) -> bool {
        self.scale == 0 || self.unscaled % 10 != 0
    }

    /// The price `unscaled / 10^scale`.
    pub fn new(unscaled: i128, scale: u8) -> (p: Price)
        ensures
            p.unscaled == unscaled,
            p.scale == scale,
    {
        Price { unscaled, scale }
    }

    /// Whether the book accepts this price.
    pub fn fits_book(&self) -> (b: bool)
        ensures
            b == self.is_quote(),
    {
        self.scale <= MAX_QUOTE_SCALE && -9223372036854775808i128 <= self.unscaled
            && self.unscaled <= 9223372036854775807i128
    }

    /// How this price stands to `other`.
    pub fn standing(&self, other: &Price) -> (r: Standing)
        ensures
            r == standing_of(self@, other@),
    {
        order_decimals(self, other)
    }

    /// Whether this price is the lower number.
    pub fn is_below(&self, other: &Price) -> (b: bool)
        ensures
            b == (self@ < other@),
    {
        match order_decimals(self, other) {
            Standing::Below => true,
            _ => false,
        }
    }

    /// Whether this price is the higher number.
    pub fn is_above(&self, other: &Price) -> (b: bool)
        ensures
            b == (self@ > other@),
    {
        match order_decimals(self, other) {
            Standing::Above => true,
            _ => false,
        }
    }

    /// Whether the two prices are the same number.
    pub fn is_level(&self, other: &Price) -> (b: bool)
        ensures
            b == (self@ == other@),
    {
        match order_decimals(self, other) {
            Standing::Level => true,
            _ => false,
        }
    }

    /// The same number written with as few fractional digits as it allows.
    pub fn reduced(self) -> (r: Price)
        ensures
            r@ == self@,
            r.is_canonical(),
    {
        let mut unscaled: i128 = self.unscaled;
        let mut scale: u8 = self.scale;
        while scale > 0 && unscaled % 10 == 0
            invariant
                unscaled * pow10((255 - scale) as nat) == self@,
            decreases scale,
        {
            proof {
                let p = pow10((255 - scale) as nat);
                assert(pow10((255 - (scale - 1)) as nat) == 10 * p);
                assert((unscaled / 10) * (10 * p) == ((unscaled / 10) * 10) * p)
                    by (nonlinear_arith);
            }
            unscaled = unscaled / 10;
            scale = scale - 1;
        }
        Price { unscaled, scale }
    }

    /// The price halfway between two quotes, exactly.
    pub fn midpoint(a: &Price, b: &Price) -> (m: Price)
        requires
            a.is_quote(),
            b.is_quote(),
        ensures
            2 * m@ == a@ + b@,
            m.is_canonical(),
    {
        halve_sum(a, b).reduced()
    }
}

} // verus!
