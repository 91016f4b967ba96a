//! Character-level predicates shared by the counter and both generators:
//! the decimal-digit test and the adjacent-equal-non-digit-pair rule.

use vstd::prelude::*;

verus! {

/// A decimal digit `'0'..='9'`; the only characters exempt from
/// adjacency suppression.
pub open spec fn is_digit_char(c: char) -> bool {
    48 <= c as u32 && c as u32 <= 57
}

/// Executable form of `is_digit_char`.
pub fn char_is_digit(c: char) -> (r: bool)
    ensures
        r == is_digit_char(c),
{
    let u = c as u32;
    48 <= u && u <= 57
}

/// Two adjacent characters suppress a candidate exactly when they are
/// equal and not digits.
pub open spec fn blocked_pair(a: char, b: char) -> bool {
    a == b && !is_digit_char(a)
}

/// Whether a string holds some adjacent equal non-digit pair.
pub open spec fn has_adjacent_repeat(s: Seq<char>) -> bool {
    exists|i: int| 0 <= i && i + 1 < s.len() && #[trigger] blocked_pair(s[i], s[i + 1])
}

/// Appending one character introduces a repeat exactly when the string
/// already had one, or the new character forms a blocked pair with the
/// last one.
pub proof fn lemma_repeat_push(s: Seq<char>, c: char)
    ensures
        has_adjacent_repeat(s.push(c)) <==> (has_adjacent_repeat(s) || (s.len() > 0
            && blocked_pair(s[s.len() - 1], c))),
{
    let t = s.push(c);
    if has_adjacent_repeat(s) {
        let i = choose|i: int|
            0 <= i && i + 1 < s.len() && #[trigger] blocked_pair(s[i], s[i + 1]);
        assert(t[i] == s[i] && t[i + 1] == s[i + 1]);
        assert(blocked_pair(t[i], t[i + 1]));
    }
    if s.len() > 0 && blocked_pair(s[s.len() - 1], c) {
        let i = s.len() - 1;
        assert(blocked_pair(t[i], t[i + 1]));
    }
    if has_adjacent_repeat(t) {
        let i = choose|i: int|
            0 <= i && i + 1 < t.len() && #[trigger] blocked_pair(t[i], t[i + 1]);
        if i + 1 < s.len() {
            assert(blocked_pair(s[i], s[i + 1]));
        } else {
            assert(i == s.len() - 1);
            assert(t[i] == s[s.len() - 1] && t[i + 1] == c);
        }
    }
}

/// Scans consecutive pairs of `word` and reports whether some pair is
/// equal with neither side a digit; digit-digit adjacency never counts.
pub fn has_consecutive_duplicates(word: &str) -> (r: bool)
    ensures
        r == has_adjacent_repeat(word@),
{
    let n = word.unicode_len();
    if n == 0 {
        return false;
    }
    let mut i: usize = 0;
    while i < n - 1
        invariant
            n == word@.len(),
            n >= 1,
            0 <= i <= n - 1,
            forall|k: int| 0 <= k < i ==> !(#[trigger] blocked_pair(word@[k], word@[k + 1])),
        decreases n - i,
    {
        let a = word.get_char(i);
        let b = word.get_char(i + 1);
        if a == b && !char_is_digit(a) {
            assert(blocked_pair(word@[i as int], word@[i as int + 1]));
            return true;
        }
        i = i + 1;
    }
    false
}

/// The same scan over an already materialized character buffer.
pub fn chars_have_adjacent_repeat(word: &Vec<char>) -> (r: bool)
    ensures
        r == has_adjacent_repeat(word@),
{
    let n = word.len();
    if n == 0 {
        return false;
    }
    let mut i: usize = 0;
    while i < n - 1
        invariant
            n == word@.len(),
            n >= 1,
            0 <= i <= n - 1,
            forall|k: int| 0 <= k < i ==> !(#[trigger] blocked_pair(word@[k], word@[k + 1])),
        decreases n - i,
    {
        let a = word[i];
        let b = word[i + 1];
        if a == b && !char_is_digit(a) {
            assert(blocked_pair(word@[i as int], word@[i as int + 1]));
            return true;
        }
        i = i + 1;
    }
    false
}

/// Copies the characters of a string slice into a vector.
pub fn str_chars(s: &str) -> (v: Vec<char>)
    ensures
        v@ == s@,
{
    let n = s.unicode_len();
    let mut v: Vec<char> = Vec::new();
    let mut i: usize = 0;
    while i < n
        invariant
            n == s@.len(),
            0 <= i <= n,
            v@ == s@.subrange(0, i as int),
        decreases n - i,
    {
        let c = s.get_char(i);
        v.push(c);
        assert(v@ =~= s@.subrange(0, i as int + 1));
        i = i + 1;
    }
    assert(v@ =~= s@);
    v
}

/// Relies on `String: FromIterator<char>`: collecting characters yields a
/// string holding exactly those characters in order.
#[verifier::external_body]
pub fn chars_to_string(v: &Vec<char>) -> (r: String)
    ensures
        r@ == v@,
{
    v.iter().collect()
}

} // verus!
