//! What the two sides of the simulator share.

use vstd::prelude::*;
use vstd::string::StrSliceExecFns;
use vstd::std_specs::iter::IteratorSpec;
use crate::digital::{parse_bits, valid_bits};

verus! {

/// Which side of the simulator is shown.
#[derive(Copy, Clone, Debug, PartialEq, Eq, Structural)]
pub enum SignalType {
    Analog,
    Digital,
}

/// Whether `input` is a bit string: nothing but `'0'` and `'1'`.
pub fn _validate_input(input: &str) -> (valid: bool)
    ensures
        valid == valid_bits(input@),
{
    parse_bits(input).is_ok()
}

/// Whether `text` reads the same in both directions.
pub open spec fn is_palindrome(text: Seq<char>) -> bool {
    forall|i: int| 0 <= i < text.len() ==> #[trigger] text[i] == text[text.len() - 1 - i]
}

/// Whether the `len` characters of `text` from `start` on are its longest
/// palindrome, and of its palindromes of that length the leftmost.
pub open spec fn is_longest_palindrome_at(text: Seq<char>, start: int, len: int) -> bool {
    &&& 0 <= start
    &&& 0 <= len
    &&& start + len <= text.len()
    &&& is_palindrome(text.subrange(start, start + len))
    &&& forall|a: int, b: int|
        0 <= a <= b <= text.len() && is_palindrome(#[trigger] text.subrange(a, b)) ==> b - a
            <= len
    &&& forall|a: int|
        0 <= a < start ==> !is_palindrome(#[trigger] text.subrange(a, a + len))
}

/// A palindrome grows by one character on each side where the two are equal.
proof fn lemma_palindrome_grows(text: Seq<char>, l: int, r: int)
    requires
        0 < l <= r < text.len(),
        is_palindrome(text.subrange(l, r)),
        text[l - 1] == text[r],
    ensures
        is_palindrome(text.subrange(l - 1, r + 1)),
{
    let inner = text.subrange(l, r);
    let outer = text.subrange(l - 1, r + 1);
    assert forall|i: int| 0 <= i < outer.len() implies #[trigger] outer[i] == outer[outer.len() - 1
        - i] by {
        if 0 < i < outer.len() - 1 {
            assert(inner[i - 1] == inner[inner.len() - 1 - (i - 1)]);
        }
    }
}

/// A palindrome that cannot grow about its centre is the longest about that
/// centre.
proof fn lemma_centre_maximal(text: Seq<char>, l: int, r: int, a: int, b: int)
    requires
        0 <= l <= r <= text.len(),
        0 <= a <= b <= text.len(),
        a + b == l + r,
        is_palindrome(text.subrange(a, b)),
        l == 0 || r == text.len() || text[l - 1] != text[r],
    ensures
        b - a <= r - l,
{
    if a < l {
        let wide = text.subrange(a, b);
        assert(wide[l - 1 - a] == wide[wide.len() - 1 - (l - 1 - a)]);
    }
}

/// Grows the palindrome `text[l0..r0]` about its centre as far as it goes.
fn expand(text: &Vec<char>, l0: usize, r0: usize) -> (span: (usize, usize))
    requires
        l0 <= r0 <= text.len(),
        is_palindrome(text@.subrange(l0 as int, r0 as int)),
    ensures
        span.0 <= span.1 <= text.len(),
        span.0 + span.1 == l0 + r0,
        span.1 - span.0 >= r0 - l0,
        is_palindrome(text@.subrange(span.0 as int, span.1 as int)),
        span.0 == 0 || span.1 == text.len() || text@[span.0 - 1] != text@[span.1 as int],
{
    let mut l = l0;
    let mut r = r0;
    while l > 0 && r < text.len() && text[l - 1] == text[r]
        invariant
            l <= l0 <= r0 <= r <= text.len(),
            l + r == l0 + r0,
            is_palindrome(text@.subrange(l as int, r as int)),
        decreases l,
    {
        proof {
            lemma_palindrome_grows(text@, l as int, r as int);
        }
        l -= 1;
        r += 1;
    }
    (l, r)
}

/// Finds the longest palindrome in `text`, the leftmost of that length: where
/// it starts and how long it is.
pub fn longest_palindrome_span(text: &Vec<char>) -> (span: (usize, usize))
    ensures
        is_longest_palindrome_at(text@, span.0 as int, span.1 as int),
{
    let n = text.len();
    let mut start: usize = 0;
    let mut len: usize = 0;
    let mut k: usize = 0;
    assert(is_palindrome(text@.subrange(0, 0)));
    while k < n
        invariant
            k <= n == text.len(),
            start + len <= n,
            2 * start + len <= 2 * k,
            is_palindrome(text@.subrange(start as int, start + len)),
            forall|a: int, b: int|
                0 <= a <= b <= n && a + b < 2 * k + 1 && is_palindrome(
                    #[trigger] text@.subrange(a, b),
                ) ==> b - a <= len && (b - a == len ==> a >= start),
        decreases n - k,
    {
        assert(is_palindrome(text@.subrange(k as int, k + 1)));
        let odd = expand(text, k, k + 1);
        if odd.1 - odd.0 > len {
            start = odd.0;
            len = odd.1 - odd.0;
        }
        assert forall|a: int, b: int|
            0 <= a <= b <= n && a + b < 2 * k + 2 && is_palindrome(
                #[trigger] text@.subrange(a, b),
            ) implies b - a <= len && (b - a == len ==> a >= start) by {
            if a + b == 2 * k + 1 {
                lemma_centre_maximal(text@, odd.0 as int, odd.1 as int, a, b);
            }
        }
        assert(is_palindrome(text@.subrange(k + 1, k + 1)));
        let even = expand(text, k + 1, k + 1);
        if even.1 - even.0 > len {
            start = even.0;
            len = even.1 - even.0;
        }
        assert forall|a: int, b: int|
            0 <= a <= b <= n && a + b < 2 * k + 3 && is_palindrome(
                #[trigger] text@.subrange(a, b),
            ) implies b - a <= len && (b - a == len ==> a >= start) by {
            if a + b == 2 * k + 2 {
                lemma_centre_maximal(text@, even.0 as int, even.1 as int, a, b);
            }
        }
        k += 1;
    }
    (start, len)
}

/// The characters of `data`, one by one.
pub fn chars_of(data: &str) -> (text: Vec<char>)
    ensures
        text@ == data@,
{
    broadcast use vstd::string::group_string_axioms;

    let n = data.unicode_len();
    let mut text: Vec<char> = Vec::new();
    let mut chars = data.chars();
    let mut i: usize = 0;
    while i < n
        invariant
            i <= n,
            n == data@.len(),
            chars.obeys_prophetic_iter_laws(),
            chars.remaining() == data@.skip(i as int),
            text@ == data@.take(i as int),
        decreases n - i,
    {
        if let Some(c) = chars.next() {
            text.push(c);
        }
        proof {
            assert(data@.skip(i as int).drop_first() =~= data@.skip(i + 1));
            assert(text@ =~= data@.take(i + 1));
        }
        i += 1;
    }
    assert(data@.take(i as int) =~= data@);
    text
}

/// The longest palindrome in `s`, the leftmost of that length; empty only
/// where `s` is.
pub fn longest_palindrome(s: String) -> (r: String)
    ensures
        exists|start: int|
            is_longest_palindrome_at(s@, start, r@.len() as int) && r@ == s@.subrange(
                start,
                start + r@.len(),
            ),
        s@.len() > 0 ==> r@.len() > 0,
{
    let text = chars_of(s.as_str());
    let span = longest_palindrome_span(&text);
    proof {
        if s@.len() > 0 {
            assert(is_palindrome(s@.subrange(0, 1)));
        }
    }
    assert(span.0 + span.1 <= text.len());
    s.as_str().substring_char(span.0, span.0 + span.1).to_owned()
}

} // verus!
