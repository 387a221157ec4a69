//! Normalisation of amount strings: trailing zeros and a trailing decimal
//! point are dropped, a bounded number of times.

use vstd::prelude::*;

verus! {

/// True when `s` ends with a `'0'` or a `'.'`.
pub open spec fn ends_with_zero_or_point(s: Seq<char>) -> bool {
    s.len() > 0 && (s.last() == '0' || s.last() == '.')
}

/// The amount `s` with trailing `'0'`/`'.'` characters dropped, one per step,
/// for the steps `it, it + 1, ..` below 3.
pub open spec fn trimmed(s: Seq<char>, it: int) -> Seq<char>
    decreases 3 - it,
{
    if it < 3 && ends_with_zero_or_point(s) {
        trimmed(s.drop_last(), it + 1)
    } else {
        s
    }
}

/// True when trimming `s` from step `it` never looks at the last character
/// of an empty string.
pub open spec fn trim_defined(s: Seq<char>, it: int) -> bool
    decreases 3 - it,
{
    it >= 3 || (s.len() > 0 && (ends_with_zero_or_point(s) ==> trim_defined(
        s.drop_last(),
        it + 1,
    )))
}

/// Removes the last character of `s`, as `String::pop` does.
#[verifier::external_body]
fn pop_char(s: &mut String) -> (r: Option<char>)
    ensures
        old(s)@.len() > 0 ==> r == Some(old(s)@.last()) && final(s)@ == old(s)@.drop_last(),
        old(s)@.len() == 0 ==> r is None && final(s)@ == old(s)@,
{
    s.pop()
}

/// Drops a trailing `'0'` or `'.'` from `number`, and again from what is
/// left, until `iterations` reaches 3 or the last character is neither.
pub fn remove_trailing_zeros(number: String, iterations: i32) -> (r: String)
    requires
        trim_defined(number@, iterations as int),
    ensures
        r@ == trimmed(number@, iterations as int),
    decreases 3 - iterations,
{
    let mut number = number;
    if iterations >= 3 {
        return number;
    }
    let n = number.as_str().unicode_len();
    let last = number.as_str().get_char(n - 1);
    if last == '0' || last == '.' {
        pop_char(&mut number);
        number = remove_trailing_zeros(number, iterations + 1);
    }
    number
}

} // verus!

verus! {

/// Trimming only drops characters from the end, at most one per step left
/// before the third, and only `'0'` and `'.'`; an amount that ends in
/// anything else is left as it is.
pub proof fn law_trimmed_is_short_prefix(s: Seq<char>, it: int)
    requires
        0 <= it,
    ensures
        trimmed(s, it).len() <= s.len(),
        s.len() <= trimmed(s, it).len() + (if it < 3 { 3 - it } else { 0 }),
        trimmed(s, it) == s.take(trimmed(s, it).len() as int),
        forall|i: int| trimmed(s, it).len() <= i < s.len() ==> (#[trigger] s[i] == '0' || s[i] == '.'),
        !ends_with_zero_or_point(s) ==> trimmed(s, it) == s,
        it >= 3 ==> trimmed(s, it) == s,
        it < 3 && trimmed(s, it).len() > 0 && (trimmed(s, it).last() == '0' || trimmed(s, it).last()
            == '.') ==> s.len() == trimmed(s, it).len() + (3 - it),
        it < 3 && s.len() < 3 - it ==> trimmed(s, it).len() == 0 || (trimmed(s, it).last() != '0'
            && trimmed(s, it).last() != '.'),
    decreases 3 - it,
{
    if it < 3 && ends_with_zero_or_point(s) {
        let d = s.drop_last();
        law_trimmed_is_short_prefix(d, it + 1);
        let t = trimmed(d, it + 1);
        assert(t == d.take(t.len() as int));
        assert(s.take(t.len() as int) =~= d.take(t.len() as int));
        assert forall|i: int| t.len() <= i < s.len() implies (#[trigger] s[i] == '0' || s[i] == '.') by {
            if i < d.len() {
                assert(d[i] == s[i]);
            }
        }
    } else {
        assert(s.take(s.len() as int) =~= s);
    }
}

} // verus!

verus! {

/// Whether trimming `s` from step `iterations` is defined, that is, never
/// looks at the last character of an empty string.
pub fn trim_is_defined(s: &String, iterations: i32) -> (r: bool)
    ensures
        r == trim_defined(s@, iterations as int),
    decreases 3 - iterations,
{
    if iterations >= 3 {
        return true;
    }
    let n = s.as_str().unicode_len();
    if n == 0 {
        return false;
    }
    let last = s.as_str().get_char(n - 1);
    if last == '0' || last == '.' {
        let mut t = s.clone();
        pop_char(&mut t);
        trim_is_defined(&t, iterations + 1)
    } else {
        true
    }
}

} // verus!
