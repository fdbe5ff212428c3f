//! How a value becomes the text of a cell: its JSON form.

use vstd::prelude::*;

verus! {

/// A value that can be written into a cell of a table of strings.
pub trait CSVFormatable {
    /// The text that stands for the value.
    spec fn formatted(&self) -> Seq<char>;

    /// The text that stands for the value, as a string.
    fn format(&self) -> (s: String)
        ensures
            s@ == self.formatted(),
    ;
}

/// The JSON string literal for a text: the text in double quotes, with the
/// characters escaped that JSON wants escaped.
pub uninterp spec fn json_string(s: Seq<char>) -> Seq<char>;

/// The character of a decimal digit.
pub open spec fn digit(d: int) -> char {
    if d == 0 {
        '0'
    } else if d == 1 {
        '1'
    } else if d == 2 {
        '2'
    } else if d == 3 {
        '3'
    } else if d == 4 {
        '4'
    } else if d == 5 {
        '5'
    } else if d == 6 {
        '6'
    } else if d == 7 {
        '7'
    } else if d == 8 {
        '8'
    } else {
        '9'
    }
}

/// A natural number in decimal digits, without leading zeros.
pub open spec fn decimal(n: nat) -> Seq<char>
    decreases n,
{
    if n < 10 {
        seq![digit(n as int)]
    } else {
        decimal(n / 10).push(digit((n % 10) as int))
    }
}

/// An integer in decimal digits, with `-` before a negative one.
pub open spec fn signed_decimal(n: int) -> Seq<char> {
    if n < 0 {
        seq!['-'] + decimal((-n) as nat)
    } else {
        decimal(n as nat)
    }
}

/// The JSON form of a truth value.
pub open spec fn json_bool(b: bool) -> Seq<char> {
    if b {
        seq!['t', 'r', 'u', 'e']
    } else {
        seq!['f', 'a', 'l', 's', 'e']
    }
}

/// `serde_json::to_string` on a string slice: the JSON string literal for
/// it. Serialising a string does not fail.
#[verifier::external_body]
fn json_of_str(s: &str) -> (r: String)
    ensures
        r@ == json_string(s@),
{
    serde_json::to_string(s).unwrap()
}

/// `serde_json::to_string` on a `bool`: `true` or `false`. Serialising a
/// `bool` does not fail.
#[verifier::external_body]
fn json_of_bool(b: bool) -> (r: String)
    ensures
        r@ == json_bool(b),
{
    serde_json::to_string(&b).unwrap()
}

/// `serde_json::to_string` on an `i64`: its decimal digits, with `-`
/// before a negative number. Serialising an integer does not fail.
#[verifier::external_body]
fn json_of_i64(n: i64) -> (r: String)
    ensures
        r@ == signed_decimal(n as int),
{
    serde_json::to_string(&n).unwrap()
}

/// `serde_json::to_string` on a `u64`: its decimal digits. Serialising an
/// integer does not fail.
#[verifier::external_body]
fn json_of_u64(n: u64) -> (r: String)
    ensures
        r@ == decimal(n as nat),
{
    serde_json::to_string(&n).unwrap()
}

impl<'a> CSVFormatable for &'a str {
    open spec fn formatted(&self) -> Seq<char> {
        json_string(self@)
    }

    fn format(&self) -> (s: String) {
        json_of_str(*self)
    }
}

impl CSVFormatable for String {
    open spec fn formatted(&self) -> Seq<char> {
        json_string(self@)
    }

    fn format(&self) -> (s: String) {
        json_of_str(self.as_str())
    }
}

impl CSVFormatable for bool {
    open spec fn formatted(&self) -> Seq<char> {
        json_bool(*self)
    }

    fn format(&self) -> (s: String) {
        json_of_bool(*self)
    }
}

impl CSVFormatable for i64 {
    open spec fn formatted(&self) -> Seq<char> {
        signed_decimal(*self as int)
    }

    fn format(&self) -> (s: String) {
        json_of_i64(*self)
    }
}

impl CSVFormatable for i32 {
    open spec fn formatted(&self) -> Seq<char> {
        signed_decimal(*self as int)
    }

    fn format(&self) -> (s: String) {
        json_of_i64(*self as i64)
    }
}

impl CSVFormatable for u64 {
    open spec fn formatted(&self) -> Seq<char> {
        decimal(*self as nat)
    }

    fn format(&self) -> (s: String) {
        json_of_u64(*self)
    }
}

impl CSVFormatable for u32 {
    open spec fn formatted(&self) -> Seq<char> {
        decimal(*self as nat)
    }

    fn format(&self) -> (s: String) {
        json_of_u64(*self as u64)
    }
}

} // verus!
