//! Typed interpretation of field text: parsing into scalar types and the
//! zero / one values used by the one-hot category encoding.

use vstd::prelude::*;

verus! {

/// True when `c` is an ASCII decimal digit.
pub open spec fn is_digit(c: char) -> bool {
    '0' <= c && c <= '9'
}

/// True when `s` is made of decimal digits only.
pub open spec fn all_digits(s: Seq<char>) -> bool {
    forall|i: int| 0 <= i < s.len() ==> is_digit(#[trigger] s[i])
}

/// The value of a string of decimal digits, most significant first.
pub open spec fn digits_value(s: Seq<char>) -> int
    decreases s.len(),
{
    if s.len() == 0 {
        0
    } else {
        digits_value(s.drop_last()) * 10 + ((s.last() as int) - ('0' as int))
    }
}

/// The value of a non-empty run of digits, if `s` is one.
pub open spec fn digits_only_value(s: Seq<char>) -> Option<int> {
    if s.len() > 0 && all_digits(s) {
        Some(digits_value(s))
    } else {
        None
    }
}

/// The value written by an optional `+` followed by decimal digits.
pub open spec fn unsigned_text_value(s: Seq<char>) -> Option<int> {
    if s.len() > 0 && s[0] == '+' {
        digits_only_value(s.drop_first())
    } else {
        digits_only_value(s)
    }
}

/// The value written by an optional `+` or `-` followed by decimal digits.
pub open spec fn signed_text_value(s: Seq<char>) -> Option<int> {
    if s.len() > 0 && s[0] == '-' {
        match digits_only_value(s.drop_first()) {
            Some(v) => Some(-v),
            None => None,
        }
    } else {
        unsigned_text_value(s)
    }
}

/// The `i64` that the text denotes, when it is a decimal integer in range.
pub open spec fn i64_of_text(s: Seq<char>) -> Option<i64> {
    match signed_text_value(s) {
        Some(v) => if i64::MIN <= v <= i64::MAX {
            Some(v as i64)
        } else {
            None
        },
        None => None,
    }
}

/// The `u64` that the text denotes, when it is a decimal integer in range.
pub open spec fn u64_of_text(s: Seq<char>) -> Option<u64> {
    match unsigned_text_value(s) {
        Some(v) => if v <= u64::MAX {
            Some(v as u64)
        } else {
            None
        },
        None => None,
    }
}

/// Relies on `str::parse::<i64>` (base 10 `i64::from_str_radix`): it accepts
/// an optional `+` or `-` followed by one or more ASCII digits, and fails on
/// anything else or on a value out of range.
#[verifier::external_body]
fn parse_i64(s: &str) -> (r: Option<i64>)
    ensures
        r == i64_of_text(s@),
{
    s.parse::<i64>().ok()
}

/// Relies on `str::parse::<u64>` (base 10 `u64::from_str_radix`): it accepts
/// an optional `+` followed by one or more ASCII digits, and fails on
/// anything else or on a value out of range.
#[verifier::external_body]
fn parse_u64(s: &str) -> (r: Option<u64>)
    ensures
        r == u64_of_text(s@),
{
    s.parse::<u64>().ok()
}

/// A scalar type that a field's text can be parsed into.
pub trait FromField: Sized {
    /// True when the text parses as a value of this type.
    spec fn field_ok(s: Seq<char>) -> bool;

    /// True when the text parses as exactly `v`.
    spec fn field_is(s: Seq<char>, v: Self) -> bool;

    /// Text that parses as some value parses.
    proof fn lemma_field_is_ok(s: Seq<char>, v: Self)
        requires
            Self::field_is(s, v),
        ensures
            Self::field_ok(s),
    ;

    /// Parses the text of one field.
    fn from_field(s: &str) -> (r: Option<Self>)
        ensures
            r is Some <==> Self::field_ok(s@),
            r matches Some(v) ==> Self::field_is(s@, v),
    ;
}

impl FromField for i64 {
    open spec fn field_ok(s: Seq<char>) -> bool {
        i64_of_text(s) is Some
    }

    open spec fn field_is(s: Seq<char>, v: i64) -> bool {
        i64_of_text(s) == Some(v)
    }

    proof fn lemma_field_is_ok(s: Seq<char>, v: i64) {
    }

    fn from_field(s: &str) -> (r: Option<i64>) {
        parse_i64(s)
    }
}

impl FromField for u64 {
    open spec fn field_ok(s: Seq<char>) -> bool {
        u64_of_text(s) is Some
    }

    open spec fn field_is(s: Seq<char>, v: u64) -> bool {
        u64_of_text(s) == Some(v)
    }

    proof fn lemma_field_is_ok(s: Seq<char>, v: u64) {
    }

    fn from_field(s: &str) -> (r: Option<u64>) {
        parse_u64(s)
    }
}

impl FromField for String {
    open spec fn field_ok(s: Seq<char>) -> bool {
        true
    }

    open spec fn field_is(s: Seq<char>, v: String) -> bool {
        v@ == s
    }

    proof fn lemma_field_is_ok(s: Seq<char>, v: String) {
    }

    fn from_field(s: &str) -> (r: Option<String>) {
        Some(s.to_owned())
    }
}

/// Relies on `num::Zero::zero` for `i64`: the additive identity, `0`.
#[verifier::external_body]
fn zero_i64() -> (r: i64)
    ensures
        r == 0,
{
    <i64 as num::traits::Zero>::zero()
}

/// Relies on `num::One::one` for `i64`: the multiplicative identity, `1`.
#[verifier::external_body]
fn one_i64() -> (r: i64)
    ensures
        r == 1,
{
    <i64 as num::traits::One>::one()
}

/// Relies on `num::Zero::zero` for `u64`: the additive identity, `0`.
#[verifier::external_body]
fn zero_u64() -> (r: u64)
    ensures
        r == 0,
{
    <u64 as num::traits::Zero>::zero()
}

/// Relies on `num::One::one` for `u64`: the multiplicative identity, `1`.
#[verifier::external_body]
fn one_u64() -> (r: u64)
    ensures
        r == 1,
{
    <u64 as num::traits::One>::one()
}

/// A numeric type with distinct zero and one values.
pub trait ZeroOne: Sized {
    /// The zero value.
    spec fn zero_spec() -> Self;

    /// The one value.
    spec fn one_spec() -> Self;

    /// Zero and one differ.
    proof fn lemma_zero_ne_one()
        ensures
            Self::zero_spec() != Self::one_spec(),
    ;

    /// Returns zero.
    fn zero() -> (r: Self)
        ensures
            r == Self::zero_spec(),
    ;

    /// Returns one.
    fn one() -> (r: Self)
        ensures
            r == Self::one_spec(),
    ;
}

impl ZeroOne for i64 {
    open spec fn zero_spec() -> i64 {
        0
    }

    open spec fn one_spec() -> i64 {
        1
    }

    proof fn lemma_zero_ne_one() {
    }

    fn zero() -> (r: i64) {
        zero_i64()
    }

    fn one() -> (r: i64) {
        one_i64()
    }
}

impl ZeroOne for u64 {
    open spec fn zero_spec() -> u64 {
        0
    }

    open spec fn one_spec() -> u64 {
        1
    }

    proof fn lemma_zero_ne_one() {
    }

    fn zero() -> (r: u64) {
        zero_u64()
    }

    fn one() -> (r: u64) {
        one_u64()
    }
}

} // verus!
