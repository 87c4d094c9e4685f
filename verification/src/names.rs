//! Names that are made from a prefix and a number drawn at random.

use vstd::prelude::*;

verus! {

/// The character of the decimal digit `d`.
pub open spec fn digit_char(d: nat) -> char {
    if d == 0 {
        '0'
    } else if d == 1 {
        '1'
    } else if d == 2 {
        '2'
    } else if d == 3 {
        '3'
    } else if d == 4 {
        '4'
    } else if d == 5 {
        '5'
    } else if d == 6 {
        '6'
    } else if d == 7 {
        '7'
    } else if d == 8 {
        '8'
    } else {
        '9'
    }
}

/// The decimal digits of `n`, without leading zeros.
pub open spec fn decimal(n: nat) -> Seq<char>
    decreases n,
{
    if n < 10 {
        seq![digit_char(n)]
    } else {
        decimal(n / 10).push(digit_char(n % 10))
    }
}

/// Draws a number with `rand::random`. Nothing is known of the number but
/// its type.
#[verifier::external_body]
fn random_u32() -> u32 {
    rand::random::<u32>()
}

/// Appends a character to a text, with `String::push`.
#[verifier::external_body]
fn string_push(text: &mut String, c: char)
    ensures
        final(text)@ == old(text)@.push(c),
{
    text.push(c)
}

/// Appends a text to a text, with `String::push_str`.
#[verifier::external_body]
fn string_push_str(text: &mut String, more: &str)
    ensures
        final(text)@ == old(text)@ + more@,
{
    text.push_str(more)
}

/// The character of the decimal digit `d`.
fn char_of_digit(d: u64) -> (c: char)
    requires
        d < 10,
    ensures
        c == digit_char(d as nat),
{
    if d == 0 {
        '0'
    } else if d == 1 {
        '1'
    } else if d == 2 {
        '2'
    } else if d == 3 {
        '3'
    } else if d == 4 {
        '4'
    } else if d == 5 {
        '5'
    } else if d == 6 {
        '6'
    } else if d == 7 {
        '7'
    } else if d == 8 {
        '8'
    } else {
        '9'
    }
}

/// Appends the decimal digits of `n` to `text`.
fn push_decimal(text: &mut String, n: u64)
    ensures
        final(text)@ == old(text)@ + decimal(n as nat),
    decreases n,
{
    if n < 10 {
        string_push(text, char_of_digit(n));
        assert(text@ =~= old(text)@ + decimal(n as nat));
    } else {
        push_decimal(text, n / 10);
        string_push(text, char_of_digit(n % 10));
        assert(text@ =~= old(text)@ + decimal(n as nat));
    }
}

/// The name made of `prefix` and the decimal digits of `n`.
pub fn numbered_name(prefix: &str, n: u32) -> (name: String)
    ensures
        name@ == prefix@ + decimal(n as nat),
{
    let mut name = String::new();
    string_push_str(&mut name, prefix);
    push_decimal(&mut name, n as u64);
    assert(name@ =~= prefix@ + decimal(n as nat));
    name
}

/// The decimal digits of `n` as a text.
pub fn decimal_text(n: u64) -> (text: String)
    ensures
        text@ == decimal(n as nat),
{
    let mut text = String::new();
    push_decimal(&mut text, n);
    assert(text@ =~= decimal(n as nat));
    text
}

/// Whether `name` is `prefix` followed by the digits of some number.
pub open spec fn is_numbered(name: Seq<char>, prefix: Seq<char>) -> bool {
    exists|n: u32| name == prefix + #[trigger] decimal(n as nat)
}

/// A name made of `prefix` and a number drawn at random.
pub fn unique_name(prefix: &str) -> (name: String)
    ensures
        is_numbered(name@, prefix@),
{
    let n = random_u32();
    numbered_name(prefix, n)
}

} // verus!
