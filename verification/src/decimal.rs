use vstd::prelude::*;

use rust_decimal::Decimal;
use std::str::FromStr;

verus! {

/// A fixed-point decimal number, held as the 16-byte serialized form of a
/// `rust_decimal::Decimal` (bytes 0-3: flags with the scale in byte 2 and
/// the sign in the top bit of byte 3; bytes 4-15: the 96-bit magnitude,
/// least significant byte first).
#[derive(Debug, Clone, Copy)]
pub struct Dec {
    bytes: [u8; 16],
}

/// The mathematical model of a decimal: `(-1)^negative * magnitude / 10^scale`.
/// A zero may carry a sign; it still equals every other zero.
pub struct DecView {
    pub negative: bool,
    pub magnitude: nat,
    pub scale: nat,
}

pub open spec fn le32(b: Seq<u8>, i: int) -> nat {
    (b[i] + 256 * b[i + 1] + 65536 * b[i + 2] + 16777216 * b[i + 3]) as nat
}

pub open spec fn bytes_view(b: Seq<u8>) -> DecView {
    DecView {
        negative: b[3] >= 128,
        magnitude: le32(b, 4) + 4294967296 * le32(b, 8) + 18446744073709551616 * le32(b, 12),
        scale: b[2] as nat,
    }
}

impl View for Dec {
    type V = DecView;

    closed spec fn view(&self) -> DecView {
        bytes_view(self.bytes@)
    }
}

impl Dec {
    /// The serialized form holds only a scale of at most 28 and a sign.
    #[verifier::type_invariant]
    spec fn wf(self) -> bool {
        &&& self.bytes@[0] == 0
        &&& self.bytes@[1] == 0
        &&& self.bytes@[2] <= 28
        &&& (self.bytes@[3] == 0 || self.bytes@[3] == 128)
    }
}

/// The model of an optional decimal.
pub open spec fn opt_view(o: Option<Dec>) -> Option<DecView> {
    match o {
        Some(d) => Some(d@),
        None => None,
    }
}

pub open spec fn pow10(n: nat) -> nat
    decreases n,
{
    if n == 0 {
        1
    } else {
        10 * pow10((n - 1) as nat)
    }
}

/// The signed integer `(-1)^negative * magnitude`.
pub open spec fn signed_magnitude(d: DecView) -> int {
    if d.negative {
        0 - d.magnitude
    } else {
        d.magnitude as int
    }
}

/// The order of two decimals by numeric value: -1, 0 or 1.
pub open spec fn dec_order(a: DecView, b: DecView) -> int {
    let l = signed_magnitude(a) * pow10(b.scale);
    let r = signed_magnitude(b) * pow10(a.scale);
    if l < r {
        -1
    } else if l == r {
        0
    } else {
        1
    }
}

/// Rounding to `dp` fractional digits, a midpoint going away from zero
/// (`Decimal::round_dp_with_strategy` with `MidpointAwayFromZero`).
pub open spec fn spec_round_away(d: DecView, dp: nat) -> DecView {
    if d.scale <= dp {
        d
    } else if d.magnitude == 0 {
        DecView { negative: d.negative, magnitude: 0, scale: dp }
    } else {
        let k = (d.scale - dp) as nat;
        let q = d.magnitude / pow10(k);
        let r = d.magnitude % pow10(k);
        let m = if 2 * r >= pow10(k) {
            q + 1
        } else {
            q
        };
        DecView { negative: d.negative && m != 0, magnitude: m as nat, scale: dp }
    }
}

/// The integer part (truncated toward zero) as an `i32`, if it fits
/// (`ToPrimitive::to_i32`).
pub open spec fn spec_to_i32(d: DecView) -> Option<i32> {
    let q = d.magnitude / pow10(d.scale);
    let t = if d.negative {
        0 - q
    } else {
        q as int
    };
    if i32::MIN <= t <= i32::MAX {
        Some(t as i32)
    } else {
        None
    }
}

/// What `Decimal::from_str` gives for a text: the decimal, or the
/// message of its error.
pub uninterp spec fn spec_decimal_parse(s: Seq<char>) -> Result<DecView, Seq<char>>;

/// What `Decimal::checked_add` gives.
pub uninterp spec fn spec_decimal_add(a: DecView, b: DecView) -> Option<DecView>;

/// What `Decimal::checked_sub` gives.
pub uninterp spec fn spec_decimal_sub(a: DecView, b: DecView) -> Option<DecView>;

/// What `Decimal::checked_mul` gives.
pub uninterp spec fn spec_decimal_mul(a: DecView, b: DecView) -> Option<DecView>;

/// What `Decimal::checked_div` gives.
pub uninterp spec fn spec_decimal_div(a: DecView, b: DecView) -> Option<DecView>;

/// The decimal digit `n` (below ten) as a character.
pub open spec fn digit_char(n: nat) -> char {
    (48 + n) as char
}

/// The decimal digits of `m`, most significant first; none for zero.
pub open spec fn decimal_digits(m: nat) -> Seq<char>
    decreases m,
{
    if m == 0 {
        Seq::empty()
    } else {
        decimal_digits(m / 10).push(digit_char(m % 10))
    }
}

/// The text that `Decimal`'s `Display` writes (no precision asked for):
/// a `-` for a negative sign (also of a zero), the whole digits (`0` when
/// there are none), and, for a positive scale, a point followed by exactly
/// `scale` fractional digits.
pub open spec fn spec_decimal_text(d: DecView) -> Seq<char> {
    let ds = decimal_digits(d.magnitude);
    let padded = if d.scale > ds.len() {
        Seq::new((d.scale - ds.len()) as nat, |i: int| '0') + ds
    } else {
        ds
    };
    let w = padded.len() - d.scale;
    let body = if d.scale == 0 {
        if padded.len() == 0 {
            "0"@
        } else {
            padded
        }
    } else {
        (if w == 0 {
            "0"@
        } else {
            padded.take(w)
        }) + "."@ + padded.skip(w)
    };
    (if d.negative {
        "-"@
    } else {
        Seq::empty()
    }) + body
}

/// `Decimal::from_str`: on success the parsed decimal, otherwise the text
/// of the error. The result is named, not described.
#[verifier::external_body]
fn parse_decimal(s: &str) -> (r: Result<Dec, String>)
    ensures
        match r {
            Ok(d) => spec_decimal_parse(s@) == Ok::<DecView, Seq<char>>(d@),
            Err(e) => spec_decimal_parse(s@) == Err::<DecView, Seq<char>>(e@),
        },
{
    match Decimal::from_str(s) {
        Ok(d) => Ok(Dec { bytes: d.serialize() }),
        Err(e) => Err(e.to_string()),
    }
}

/// `Decimal::checked_add`; the result is named.
#[verifier::external_body]
fn checked_add(a: Dec, b: Dec) -> (r: Option<Dec>)
    ensures
        opt_view(r) == spec_decimal_add(a@, b@),
{
    match Decimal::deserialize(a.bytes).checked_add(Decimal::deserialize(b.bytes)) {
        Some(d) => Some(Dec { bytes: d.serialize() }),
        None => None,
    }
}

/// `Decimal::checked_sub`; the result is named.
#[verifier::external_body]
fn checked_sub(a: Dec, b: Dec) -> (r: Option<Dec>)
    ensures
        opt_view(r) == spec_decimal_sub(a@, b@),
{
    match Decimal::deserialize(a.bytes).checked_sub(Decimal::deserialize(b.bytes)) {
        Some(d) => Some(Dec { bytes: d.serialize() }),
        None => None,
    }
}

/// `Decimal::checked_mul`; the result is named.
#[verifier::external_body]
fn checked_mul(a: Dec, b: Dec) -> (r: Option<Dec>)
    ensures
        opt_view(r) == spec_decimal_mul(a@, b@),
{
    match Decimal::deserialize(a.bytes).checked_mul(Decimal::deserialize(b.bytes)) {
        Some(d) => Some(Dec { bytes: d.serialize() }),
        None => None,
    }
}

/// `Decimal::checked_div`; the result is named.
#[verifier::external_body]
fn checked_div(a: Dec, b: Dec) -> (r: Option<Dec>)
    ensures
        opt_view(r) == spec_decimal_div(a@, b@),
{
    match Decimal::deserialize(a.bytes).checked_div(Decimal::deserialize(b.bytes)) {
        Some(d) => Some(Dec { bytes: d.serialize() }),
        None => None,
    }
}

/// `Decimal::round_dp_with_strategy(dp, MidpointAwayFromZero)`: keeps a
/// decimal with at most `dp` fractional digits, otherwise drops the
/// surplus digits and adds one unit when they are at least a half.
#[verifier::external_body]
fn round_away(d: Dec, dp: u32) -> (r: Dec)
    ensures
        r@ == spec_round_away(d@, dp as nat),
{
    Dec {
        bytes: Decimal::deserialize(d.bytes).round_dp_with_strategy(
            dp,
            rust_decimal::RoundingStrategy::MidpointAwayFromZero,
        ).serialize(),
    }
}

/// `ToPrimitive::to_i32`: the integer part, if it fits in an `i32`.
#[verifier::external_body]
fn to_i32(d: Dec) -> (r: Option<i32>)
    ensures
        r == spec_to_i32(d@),
{
    rust_decimal::prelude::ToPrimitive::to_i32(&Decimal::deserialize(d.bytes))
}

/// `Decimal`'s `Display` (`to_str_internal` without a precision, then
/// `pad_integral` with the sign): the text [`spec_decimal_text`] states.
#[verifier::external_body]
fn decimal_text(d: Dec) -> (r: String)
    ensures
        r@ == spec_decimal_text(d@),
{
    Decimal::deserialize(d.bytes).to_string()
}

/// `Ord::cmp` on decimals: the order of their numeric values.
#[verifier::external_body]
fn order_of(a: Dec, b: Dec) -> (r: i8)
    ensures
        r == dec_order(a@, b@),
{
    match Decimal::deserialize(a.bytes).cmp(&Decimal::deserialize(b.bytes)) {
        std::cmp::Ordering::Less => -1,
        std::cmp::Ordering::Equal => 0,
        std::cmp::Ordering::Greater => 1,
    }
}

impl Dec {
    /// Parses a decimal literal; on failure the text of the parse error.
    pub fn parse_text(s: &str) -> (r: Result<Dec, String>)
        ensures
            match r {
                Ok(d) => spec_decimal_parse(s@) == Ok::<DecView, Seq<char>>(d@),
                Err(e) => spec_decimal_parse(s@) == Err::<DecView, Seq<char>>(e@),
            },
    {
        parse_decimal(s)
    }

    /// Parses a decimal literal, if it is one.
    pub fn parse(s: &str) -> (r: Option<Dec>)
        ensures
            match spec_decimal_parse(s@) {
                Ok(v) => r matches Some(d) && d@ == v,
                Err(_) => r is None,
            },
    {
        match parse_decimal(s) {
            Ok(d) => Some(d),
            Err(_) => None,
        }
    }

    /// The order of the numeric values: -1, 0 or 1.
    pub fn compare(&self, other: &Dec) -> (r: i8)
        ensures
            r == dec_order(self@, other@),
    {
        order_of(*self, *other)
    }

    /// Whether this decimal is zero (of either sign).
    pub fn is_zero(&self) -> (r: bool)
        ensures
            r == (self@.magnitude == 0),
    {
        let b = &self.bytes;
        b[4] == 0 && b[5] == 0 && b[6] == 0 && b[7] == 0 && b[8] == 0 && b[9] == 0 && b[10] == 0
            && b[11] == 0 && b[12] == 0 && b[13] == 0 && b[14] == 0 && b[15] == 0
    }

    /// The absolute value: the same magnitude and scale, without sign.
    pub fn abs(&self) -> (r: Dec)
        ensures
            r@ == (DecView { negative: false, magnitude: self@.magnitude, scale: self@.scale }),
    {
        proof {
            use_type_invariant(self);
        }
        let mut b = self.bytes;
        b[3] = 0;
        let r = Dec { bytes: b };
        assert(r.bytes@ =~= self.bytes@.update(3, 0u8));
        r
    }

    pub fn checked_add(&self, other: &Dec) -> (r: Option<Dec>)
        ensures
            opt_view(r) == spec_decimal_add(self@, other@),
    {
        checked_add(*self, *other)
    }

    pub fn checked_sub(&self, other: &Dec) -> (r: Option<Dec>)
        ensures
            opt_view(r) == spec_decimal_sub(self@, other@),
    {
        checked_sub(*self, *other)
    }

    pub fn checked_mul(&self, other: &Dec) -> (r: Option<Dec>)
        ensures
            opt_view(r) == spec_decimal_mul(self@, other@),
    {
        checked_mul(*self, *other)
    }

    pub fn checked_div(&self, other: &Dec) -> (r: Option<Dec>)
        ensures
            opt_view(r) == spec_decimal_div(self@, other@),
    {
        checked_div(*self, *other)
    }

    /// Rounds to `dp` fractional digits, a midpoint going away from zero.
    pub fn round_dp_away(&self, dp: u32) -> (r: Dec)
        ensures
            r@ == spec_round_away(self@, dp as nat),
    {
        round_away(*self, dp)
    }

    /// The integer part, if it fits in an `i32`.
    pub fn to_i32(&self) -> (r: Option<i32>)
        ensures
            r == spec_to_i32(self@),
    {
        to_i32(*self)
    }

    /// The decimal written out, as `Decimal`'s `Display` does.
    pub fn to_text(&self) -> (r: String)
        ensures
            r@ == spec_decimal_text(self@),
    {
        decimal_text(*self)
    }
}

/// Two decimals are equal when their numeric values are: `1.0 == 1`.
impl PartialEq for Dec {
    fn eq(&self, other: &Dec) -> (r: bool) {
        order_of(*self, *other) == 0
    }
}

impl vstd::std_specs::cmp::PartialEqSpecImpl for Dec {
    open spec fn obeys_eq_spec() -> bool {
        true
    }

    open spec fn eq_spec(&self, other: &Dec) -> bool {
        dec_order(self@, other@) == 0
    }
}

/// Decimals are ordered by their numeric values.
impl PartialOrd for Dec {
    fn partial_cmp(&self, other: &Dec) -> (r: Option<std::cmp::Ordering>) {
        let c = order_of(*self, *other);
        if c < 0 {
            Some(std::cmp::Ordering::Less)
        } else if c == 0 {
            Some(std::cmp::Ordering::Equal)
        } else {
            Some(std::cmp::Ordering::Greater)
        }
    }
}

impl vstd::std_specs::cmp::PartialOrdSpecImpl for Dec {
    open spec fn obeys_partial_cmp_spec() -> bool {
        true
    }

    open spec fn partial_cmp_spec(&self, other: &Dec) -> Option<std::cmp::Ordering> {
        if dec_order(self@, other@) < 0 {
            Some(std::cmp::Ordering::Less)
        } else if dec_order(self@, other@) == 0 {
            Some(std::cmp::Ordering::Equal)
        } else {
            Some(std::cmp::Ordering::Greater)
        }
    }
}

} // verus!
