//! Decimal amounts. A `Decimal` holds the mantissa and the scale of a
//! `rust_decimal::Decimal`; every arithmetic operation is carried out by
//! `rust_decimal` itself.

use vstd::prelude::*;

verus! {

/// Largest mantissa magnitude of a decimal: 2^96 - 1.
pub const MAX_MANTISSA: i128 = 0xFFFF_FFFF_FFFF_FFFF_FFFF_FFFF;

/// Largest number of digits after the decimal point.
pub const MAX_SCALE: u32 = 28;

/// 10^n.
pub open spec fn pow10(n: nat) -> int
    decreases n,
{
    if n == 0 {
        1
    } else {
        10 * pow10((n - 1) as nat)
    }
}

pub proof fn lemma_pow10_positive(n: nat)
    ensures
        pow10(n) > 0,
    decreases n,
{
    if n > 0 {
        lemma_pow10_positive((n - 1) as nat);
    }
}

/// A (mantissa, scale) pair that a decimal can hold.
pub open spec fn is_decimal(v: (int, int)) -> bool {
    &&& -(MAX_MANTISSA as int) <= v.0 <= MAX_MANTISSA as int
    &&& 0 <= v.1 <= MAX_SCALE as int
}

/// The value of a (mantissa, scale) pair, counted in units of 10^-28.
pub open spec fn units(v: (int, int)) -> int {
    v.0 * pow10((MAX_SCALE - v.1) as nat)
}

/// The value of `a` is below that of `b`.
pub open spec fn value_lt(a: (int, int), b: (int, int)) -> bool {
    units(a) < units(b)
}

/// The value of `a` equals that of `b`.
pub open spec fn value_eq(a: (int, int), b: (int, int)) -> bool {
    units(a) == units(b)
}

/// The value of `a` is positive.
pub open spec fn value_positive(a: (int, int)) -> bool {
    a.0 > 0
}

/// The zero amount, as `rust_decimal::Decimal::ZERO` holds it.
pub open spec fn zero_view() -> (int, int) {
    (0, 0)
}

/// What `rust_decimal::Decimal::checked_add` returns, as (mantissa, scale).
pub uninterp spec fn decimal_sum(a: (int, int), b: (int, int)) -> Option<(int, int)>;

/// What `rust_decimal::Decimal::checked_sub` returns, as (mantissa, scale).
pub uninterp spec fn decimal_difference(a: (int, int), b: (int, int)) -> Option<(int, int)>;

/// What `rust_decimal::Decimal::checked_mul` returns, as (mantissa, scale).
pub uninterp spec fn decimal_product(a: (int, int), b: (int, int)) -> Option<(int, int)>;

/// What `rust_decimal::Decimal::checked_div` returns, as (mantissa, scale).
pub uninterp spec fn decimal_quotient(a: (int, int), b: (int, int)) -> Option<(int, int)>;

/// What `<rust_decimal::Decimal as FromStr>::from_str` returns on a text, as
/// (mantissa, scale), with `None` for an error.
pub uninterp spec fn decimal_parse(text: Seq<char>) -> Option<(int, int)>;

/// What `<rust_decimal::Decimal as Display>` writes for (mantissa, scale).
pub uninterp spec fn decimal_text(v: (int, int)) -> Seq<char>;

/// A decimal number: `mantissa * 10^-scale`.
#[derive(Clone, Copy, Debug)]
pub struct Decimal {
    mantissa: i128,
    scale: u32,
}

impl View for Decimal {
    type V = (int, int);

    closed spec fn view(&self) -> (int, int) {
        (self.mantissa as int, self.scale as int)
    }
}

/// The (mantissa, scale) of an optional decimal.
pub open spec fn option_view(d: Option<Decimal>) -> Option<(int, int)> {
    match d {
        Some(x) => Some(x@),
        None => None,
    }
}

/// `rust_decimal::Decimal::checked_add` on two decimals; the result is named
/// `decimal_sum` and holds a valid mantissa and scale.
#[verifier::external_body]
fn rd_checked_add(a: &Decimal, b: &Decimal) -> (r: Option<Decimal>)
    requires
        is_decimal(a@),
        is_decimal(b@),
    ensures
        option_view(r) == decimal_sum(a@, b@),
        r matches Some(z) ==> is_decimal(z@),
{
    let x = rust_decimal::Decimal::from_i128_with_scale(a.mantissa, a.scale);
    let y = rust_decimal::Decimal::from_i128_with_scale(b.mantissa, b.scale);
    match x.checked_add(y) {
        Some(z) => Some(Decimal { mantissa: z.mantissa(), scale: z.scale() }),
        None => None,
    }
}

/// `rust_decimal::Decimal::checked_sub`; the result is named `decimal_difference`.
#[verifier::external_body]
fn rd_checked_sub(a: &Decimal, b: &Decimal) -> (r: Option<Decimal>)
    requires
        is_decimal(a@),
        is_decimal(b@),
    ensures
        option_view(r) == decimal_difference(a@, b@),
        r matches Some(z) ==> is_decimal(z@),
{
    let x = rust_decimal::Decimal::from_i128_with_scale(a.mantissa, a.scale);
    let y = rust_decimal::Decimal::from_i128_with_scale(b.mantissa, b.scale);
    match x.checked_sub(y) {
        Some(z) => Some(Decimal { mantissa: z.mantissa(), scale: z.scale() }),
        None => None,
    }
}

/// `rust_decimal::Decimal::checked_mul`; the result is named `decimal_product`.
#[verifier::external_body]
fn rd_checked_mul(a: &Decimal, b: &Decimal) -> (r: Option<Decimal>)
    requires
        is_decimal(a@),
        is_decimal(b@),
    ensures
        option_view(r) == decimal_product(a@, b@),
        r matches Some(z) ==> is_decimal(z@),
{
    let x = rust_decimal::Decimal::from_i128_with_scale(a.mantissa, a.scale);
    let y = rust_decimal::Decimal::from_i128_with_scale(b.mantissa, b.scale);
    match x.checked_mul(y) {
        Some(z) => Some(Decimal { mantissa: z.mantissa(), scale: z.scale() }),
        None => None,
    }
}

/// `rust_decimal::Decimal::checked_div`; the result is named `decimal_quotient`
/// (`None` on a zero divisor or on overflow).
#[verifier::external_body]
fn rd_checked_div(a: &Decimal, b: &Decimal) -> (r: Option<Decimal>)
    requires
        is_decimal(a@),
        is_decimal(b@),
    ensures
        option_view(r) == decimal_quotient(a@, b@),
        r matches Some(z) ==> is_decimal(z@),
{
    let x = rust_decimal::Decimal::from_i128_with_scale(a.mantissa, a.scale);
    let y = rust_decimal::Decimal::from_i128_with_scale(b.mantissa, b.scale);
    match x.checked_div(y) {
        Some(z) => Some(Decimal { mantissa: z.mantissa(), scale: z.scale() }),
        None => None,
    }
}

/// `<rust_decimal::Decimal as PartialOrd>::lt`: compares the two values exactly.
#[verifier::external_body]
fn rd_lt(a: &Decimal, b: &Decimal) -> (r: bool)
    requires
        is_decimal(a@),
        is_decimal(b@),
    ensures
        r == value_lt(a@, b@),
{
    let x = rust_decimal::Decimal::from_i128_with_scale(a.mantissa, a.scale);
    let y = rust_decimal::Decimal::from_i128_with_scale(b.mantissa, b.scale);
    x < y
}

/// `<rust_decimal::Decimal as FromStr>::from_str`; the result is named `decimal_parse`.
#[verifier::external_body]
fn rd_from_str(text: &str) -> (r: Option<Decimal>)
    ensures
        option_view(r) == decimal_parse(text@),
        r matches Some(z) ==> is_decimal(z@),
{
    match <rust_decimal::Decimal as std::str::FromStr>::from_str(text) {
        Ok(z) => Some(Decimal { mantissa: z.mantissa(), scale: z.scale() }),
        Err(_) => None,
    }
}

/// `rust_decimal::Decimal::to_string`: every digit of the scale is written, so
/// `FromStr` reads back the same mantissa and scale.
#[verifier::external_body]
fn rd_to_string(d: &Decimal) -> (r: String)
    requires
        is_decimal(d@),
    ensures
        r@ == decimal_text(d@),
        decimal_parse(r@) == Some(d@),
{
    rust_decimal::Decimal::from_i128_with_scale(d.mantissa, d.scale).to_string()
}

impl Decimal {
    #[verifier::type_invariant]
    spec fn holds_decimal(self) -> bool {
        is_decimal(self@)
    }

    /// Zero.
    pub fn zero() -> (r: Decimal)
        ensures
            r@ == zero_view(),
    {
        Decimal { mantissa: 0, scale: 0 }
    }

    /// `mantissa * 10^-scale`, or `None` where the mantissa needs more than 96 bits
    /// or the scale exceeds 28.
    pub fn from_parts(mantissa: i128, scale: u32) -> (r: Option<Decimal>)
        ensures
            r is Some <==> is_decimal((mantissa as int, scale as int)),
            r matches Some(d) ==> d@ == (mantissa as int, scale as int),
    {
        if -MAX_MANTISSA <= mantissa && mantissa <= MAX_MANTISSA && scale <= MAX_SCALE {
            Some(Decimal { mantissa, scale })
        } else {
            None
        }
    }

    /// The whole number `n`.
    pub fn from_int(n: i64) -> (r: Decimal)
        ensures
            r@ == (n as int, 0int),
    {
        Decimal { mantissa: n as i128, scale: 0 }
    }

    pub fn mantissa(&self) -> (r: i128)
        ensures
            r == self@.0,
    {
        self.mantissa
    }

    pub fn scale(&self) -> (r: u32)
        ensures
            r == self@.1,
    {
        self.scale
    }

    /// `self + other`, or `None` on overflow.
    pub fn checked_add(&self, other: &Decimal) -> (r: Option<Decimal>)
        ensures
            option_view(r) == decimal_sum(self@, other@),
    {
        proof {
            use_type_invariant(self);
            use_type_invariant(other);
        }
        rd_checked_add(self, other)
    }

    /// `self - other`, or `None` on overflow.
    pub fn checked_sub(&self, other: &Decimal) -> (r: Option<Decimal>)
        ensures
            option_view(r) == decimal_difference(self@, other@),
    {
        proof {
            use_type_invariant(self);
            use_type_invariant(other);
        }
        rd_checked_sub(self, other)
    }

    /// `self * other`, or `None` on overflow.
    pub fn checked_mul(&self, other: &Decimal) -> (r: Option<Decimal>)
        ensures
            option_view(r) == decimal_product(self@, other@),
    {
        proof {
            use_type_invariant(self);
            use_type_invariant(other);
        }
        rd_checked_mul(self, other)
    }

    /// `self / other`, or `None` on a zero divisor or on overflow.
    pub fn checked_div(&self, other: &Decimal) -> (r: Option<Decimal>)
        ensures
            option_view(r) == decimal_quotient(self@, other@),
    {
        proof {
            use_type_invariant(self);
            use_type_invariant(other);
        }
        rd_checked_div(self, other)
    }

    /// The value of `self` is below that of `other`.
    pub fn lt(&self, other: &Decimal) -> (r: bool)
        ensures
            r == value_lt(self@, other@),
    {
        proof {
            use_type_invariant(self);
            use_type_invariant(other);
        }
        rd_lt(self, other)
    }

    /// The value of `self` is at least that of `other`.
    pub fn ge(&self, other: &Decimal) -> (r: bool)
        ensures
            r == !value_lt(self@, other@),
    {
        !self.lt(other)
    }

    /// The value of `self` is above zero.
    pub fn is_positive(&self) -> (r: bool)
        ensures
            r == value_positive(self@),
    {
        let z = Decimal::zero();
        let r = z.lt(self);
        proof {
            lemma_pow10_positive((MAX_SCALE - self@.1) as nat);
            let p = pow10((MAX_SCALE - self@.1) as nat);
            assert(units(z@) == 0 * pow10(28));
            if self@.0 > 0 {
                vstd::arithmetic::mul::lemma_mul_strictly_positive(self@.0, p);
            } else {
                vstd::arithmetic::mul::lemma_mul_nonnegative(-self@.0, p);
                assert(self@.0 * p == -((-self@.0) * p)) by (nonlinear_arith);
            }
        }
        r
    }

    /// The two values are equal (`1.0` equals `1.00`).
    pub fn value_equals(&self, other: &Decimal) -> (r: bool)
        ensures
            r == value_eq(self@, other@),
    {
        !self.lt(other) && !other.lt(self)
    }

    /// The text of the amount, as `rust_decimal` writes it; it reads back as the
    /// same amount.
    pub fn to_text(&self) -> (r: String)
        ensures
            r@ == decimal_text(self@),
            decimal_parse(r@) == Some(self@),
    {
        proof {
            use_type_invariant(self);
        }
        rd_to_string(self)
    }

    /// The decimal written in `text`, as `rust_decimal` reads it.
    pub fn parse(text: &str) -> (r: Option<Decimal>)
        ensures
            option_view(r) == decimal_parse(text@),
    {
        rd_from_str(text)
    }
}


impl PartialEq for Decimal {
    /// Equality of values: `1.0 == 1.00`.
    fn eq(&self, other: &Decimal) -> (r: bool) {
        self.value_equals(other)
    }
}

impl vstd::std_specs::cmp::PartialEqSpecImpl for Decimal {
    open spec fn obeys_eq_spec() -> bool {
        true
    }

    open spec fn eq_spec(&self, other: &Decimal) -> bool {
        value_eq(self@, other@)
    }
}

} // verus!
