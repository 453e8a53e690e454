//! Character-level helpers over `String`.
use vstd::prelude::*;
use vstd::string::*;

verus! {

/// Whether `c` is a binary digit, the alphabet of codewords.
pub open spec fn is_bit(c: char) -> bool {
    c == '0' || c == '1'
}

/// Whether `s` holds at least one binary digit.
pub open spec fn has_bit(s: Seq<char>) -> bool {
    exists|i: int| 0 <= i < s.len() && is_bit(#[trigger] s[i])
}

/// Relies on `String::push`: appends one character at the end.
#[verifier::external_body]
pub(crate) fn push_char(s: &mut String, c: char)
    ensures
        final(s)@ == old(s)@.push(c),
{
    s.push(c);
}

/// The characters of `s`, in order.
pub fn chars_of(s: &String) -> (r: Vec<char>)
    ensures
        r@ == s@,
{
    let n = s.as_str().unicode_len();
    let mut r: Vec<char> = Vec::new();
    let mut i: usize = 0;
    while i < n
        invariant
            n == s@.len(),
            i <= n,
            r@ == s@.take(i as int),
        decreases n - i,
    {
        let c = s.as_str().get_char(i);
        r.push(c);
        i += 1;
        assert(r@ =~= s@.take(i as int));
    }
    assert(r@ =~= s@);
    r
}

/// A fresh string holding `v`.
pub fn string_of(v: &Vec<char>) -> (r: String)
    ensures
        r@ == v@,
{
    let mut r = String::new();
    let mut i: usize = 0;
    while i < v.len()
        invariant
            i <= v.len(),
            r@ == v@.take(i as int),
        decreases v.len() - i,
    {
        push_char(&mut r, v[i]);
        i += 1;
        assert(r@ =~= v@.take(i as int));
    }
    assert(r@ =~= v@);
    r
}

/// Whether `c` is a binary digit.
pub fn char_is_bit(c: char) -> (r: bool)
    ensures
        r == is_bit(c),
{
    c == '0' || c == '1'
}

/// Whether `s` holds a binary digit.
pub fn contains_bit(s: &String) -> (r: bool)
    ensures
        r == has_bit(s@),
{
    let n = s.as_str().unicode_len();
    let mut i: usize = 0;
    while i < n
        invariant
            n == s@.len(),
            i <= n,
            forall|j: int| 0 <= j < i ==> !is_bit(#[trigger] s@[j]),
        decreases n - i,
    {
        if char_is_bit(s.as_str().get_char(i)) {
            return true;
        }
        i += 1;
    }
    false
}

} // verus!
