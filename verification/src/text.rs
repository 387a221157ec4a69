//! Text pieces: decimal numerals and the wording of the messages.

use vstd::prelude::*;

verus! {

/// The decimal digit for `d`, which is below 10.
pub open spec fn digit(d: nat) -> char {
    (d + 48) as char
}

/// The decimal numeral of `n`, without leading zeros.
pub open spec fn decimal(n: nat) -> Seq<char>
    decreases n,
{
    if n < 10 {
        seq![digit(n)]
    } else {
        decimal(n / 10).push(digit(n % 10))
    }
}

/// Formats `n` in decimal, as `usize::to_string` does.
#[verifier::external_body]
pub(crate) fn usize_to_string(n: usize) -> (s: String)
    ensures
        s@ == decimal(n as nat),
{
    n.to_string()
}

/// `"The value "`, the amount, then `tail`.
pub open spec fn value_message(amount: Seq<char>, tail: Seq<char>) -> Seq<char> {
    "The value "@ + amount + tail
}

/// Builds `"The value "`, the amount, then `tail`.
pub fn make_value_message(amount: &String, tail: &str) -> (m: String)
    ensures
        m@ == value_message(amount@, tail@),
{
    let mut m = String::new();
    m.append("The value ");
    m.append(amount.as_str());
    m.append(tail);
    m
}

} // verus!
