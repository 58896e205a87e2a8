//! Strings as sequences of characters: taking them apart, searching and
//! trimming them, and putting them together again.

use vstd::prelude::*;

verus! {

/// `String::push`: the string with one character appended.
#[verifier::external_body]
pub(crate) fn push_char(s: &mut String, c: char)
    ensures
        final(s)@ == old(s)@.push(c),
{
    s.push(c)
}

/// Whether the character is white space, as `char::is_whitespace` says.
pub uninterp spec fn white_space(c: char) -> bool;

/// `char::is_whitespace`: whether the character has Unicode's property
/// `White_Space`. The answer is a function of the character alone; the
/// contract gives it the name [`white_space`] and claims nothing more.
#[verifier::external_body]
pub(crate) fn is_white_space(c: char) -> (white: bool)
    ensures
        white == white_space(c),
{
    c.is_whitespace()
}

/// The characters of a string, in order.
pub fn chars_of(s: &str) -> (chars: Vec<char>)
    ensures
        chars@ == s@,
{
    let mut chars: Vec<char> = Vec::new();
    for c in it: s.chars()
        invariant
            it.seq() == s@,
            chars@ == s@.take(it.index() as int),
    {
        chars.push(c);
    }
    chars
}

/// The string made of the characters from `from` up to `to`.
pub fn string_of(chars: &Vec<char>, from: usize, to: usize) -> (s: String)
    requires
        from <= to <= chars.len(),
    ensures
        s@ == chars@.subrange(from as int, to as int),
{
    let mut s = String::new();
    let mut i: usize = from;
    while i < to
        invariant
            from <= i <= to <= chars.len(),
            s@ == chars@.subrange(from as int, i as int),
        decreases to - i,
    {
        push_char(&mut s, chars[i]);
        i += 1;
    }
    s
}

/// The pattern stands in the text at index `i`.
pub open spec fn occurs_at(text: Seq<char>, pattern: Seq<char>, i: int) -> bool {
    &&& 0 <= i
    &&& i + pattern.len() <= text.len()
    &&& text.subrange(i, i + pattern.len()) == pattern
}

/// The least index under `n` at which the pattern stands in the text.
pub open spec fn first_below(text: Seq<char>, pattern: Seq<char>, n: int) -> Option<int>
    decreases n,
{
    if n <= 0 {
        None
    } else {
        match first_below(text, pattern, n - 1) {
            Some(i) => Some(i),
            None => if occurs_at(text, pattern, n - 1) {
                Some(n - 1)
            } else {
                None
            },
        }
    }
}

/// The greatest index under `n` at which the pattern stands in the text.
pub open spec fn last_below(text: Seq<char>, pattern: Seq<char>, n: int) -> Option<int>
    decreases n,
{
    if n <= 0 {
        None
    } else if occurs_at(text, pattern, n - 1) {
        Some(n - 1)
    } else {
        last_below(text, pattern, n - 1)
    }
}

/// Where the pattern first stands in the text, if it does.
pub open spec fn first_occurrence(text: Seq<char>, pattern: Seq<char>) -> Option<int> {
    first_below(text, pattern, text.len() - pattern.len() + 1)
}

/// Where the pattern last stands in the text, if it does.
pub open spec fn last_occurrence(text: Seq<char>, pattern: Seq<char>) -> Option<int> {
    last_below(text, pattern, text.len() - pattern.len() + 1)
}

/// What `first_below` returns: the least index under `n` at which the
/// pattern stands.
pub proof fn lemma_first_below(text: Seq<char>, pattern: Seq<char>, n: int)
    ensures
        match first_below(text, pattern, n) {
            Some(i) => {
                &&& 0 <= i < n
                &&& occurs_at(text, pattern, i)
                &&& forall|j: int| 0 <= j < i ==> !occurs_at(text, pattern, j)
            },
            None => forall|j: int| 0 <= j < n ==> !occurs_at(text, pattern, j),
        },
    decreases n,
{
    if n > 0 {
        lemma_first_below(text, pattern, n - 1);
    }
}

/// What `last_below` returns: the greatest index under `n` at which the
/// pattern stands.
pub proof fn lemma_last_below(text: Seq<char>, pattern: Seq<char>, n: int)
    ensures
        match last_below(text, pattern, n) {
            Some(i) => {
                &&& 0 <= i < n
                &&& occurs_at(text, pattern, i)
                &&& forall|j: int| i < j < n ==> !occurs_at(text, pattern, j)
            },
            None => forall|j: int| 0 <= j < n ==> !occurs_at(text, pattern, j),
        },
    decreases n,
{
    if n > 0 {
        lemma_last_below(text, pattern, n - 1);
    }
}

/// The first occurrence does not come after the last.
pub proof fn lemma_first_before_last(text: Seq<char>, pattern: Seq<char>)
    ensures
        first_occurrence(text, pattern) is Some <==> last_occurrence(text, pattern) is Some,
        first_occurrence(text, pattern) matches Some(i) ==> i <= last_occurrence(
            text,
            pattern,
        )->Some_0,
{
    let n = text.len() - pattern.len() + 1;
    lemma_first_below(text, pattern, n);
    lemma_last_below(text, pattern, n);
}

/// An occurrence found under `n` is the one found under any greater bound.
pub proof fn lemma_first_below_found(text: Seq<char>, pattern: Seq<char>, n: int, m: int)
    requires
        first_below(text, pattern, n) is Some,
        n <= m,
    ensures
        first_below(text, pattern, m) == first_below(text, pattern, n),
    decreases m - n,
{
    if n < m {
        lemma_first_below_found(text, pattern, n, m - 1);
    }
}

/// Whether the pattern stands in the text at index `i`.
pub fn matches_at(text: &Vec<char>, pattern: &Vec<char>, i: usize) -> (found: bool)
    ensures
        found == occurs_at(text@, pattern@, i as int),
{
    if pattern.len() > text.len() || i > text.len() - pattern.len() {
        return false;
    }
    let mut k: usize = 0;
    while k < pattern.len()
        invariant
            k <= pattern.len(),
            i + pattern.len() <= text.len(),
            forall|j: int| 0 <= j < k ==> text@[i + j] == pattern@[j],
        decreases pattern.len() - k,
    {
        if text[i + k] != pattern[k] {
            return false;
        }
        k += 1;
    }
    assert(text@.subrange(i as int, i + pattern.len()) =~= pattern@);
    true
}

/// The first index at which the pattern stands in the text.
pub fn find(text: &Vec<char>, pattern: &Vec<char>) -> (found: Option<usize>)
    ensures
        match found {
            Some(i) => first_occurrence(text@, pattern@) == Some(i as int) && i + pattern.len()
                <= text.len(),
            None => first_occurrence(text@, pattern@) is None,
        },
{
    if pattern.len() > text.len() {
        return None;
    }
    let last = text.len() - pattern.len();
    let mut i: usize = 0;
    loop
        invariant
            i <= last,
            last == text.len() - pattern.len(),
            first_below(text@, pattern@, i as int) is None,
        decreases last - i,
    {
        if matches_at(text, pattern, i) {
            proof {
                lemma_first_below_found(text@, pattern@, i + 1, last + 1);
            }
            return Some(i);
        }
        if i == last {
            return None;
        }
        i += 1;
    }
}

/// The last index at which the pattern stands in the text.
pub fn rfind(text: &Vec<char>, pattern: &Vec<char>) -> (found: Option<usize>)
    ensures
        match found {
            Some(i) => last_occurrence(text@, pattern@) == Some(i as int) && i + pattern.len()
                <= text.len(),
            None => last_occurrence(text@, pattern@) is None,
        },
{
    if pattern.len() > text.len() {
        return None;
    }
    let mut i: usize = text.len() - pattern.len();
    loop
        invariant
            i <= text.len() - pattern.len(),
            pattern.len() <= text.len(),
            last_occurrence(text@, pattern@) == last_below(text@, pattern@, i + 1),
        decreases i,
    {
        if matches_at(text, pattern, i) {
            return Some(i);
        }
        if i == 0 {
            assert(last_below(text@, pattern@, 0) is None);
            return None;
        }
        i -= 1;
    }
}

/// The characters that trimming removes: white space, or the double quote.
#[derive(Debug, Clone, Copy, PartialEq, Eq, Structural)]
pub enum Trim {
    WhiteSpace,
    Quotes,
}

/// Whether trimming of this kind removes the character.
pub open spec fn trims(kind: Trim, c: char) -> bool {
    match kind {
        Trim::WhiteSpace => white_space(c),
        Trim::Quotes => c == '"',
    }
}

/// The text without the characters of this kind that it begins with.
pub open spec fn strip_start(text: Seq<char>, kind: Trim) -> Seq<char>
    decreases text.len(),
{
    if text.len() > 0 && trims(kind, text.first()) {
        strip_start(text.drop_first(), kind)
    } else {
        text
    }
}

/// The text without the characters of this kind that it ends with.
pub open spec fn strip_end(text: Seq<char>, kind: Trim) -> Seq<char>
    decreases text.len(),
{
    if text.len() > 0 && trims(kind, text.last()) {
        strip_end(text.drop_last(), kind)
    } else {
        text
    }
}

/// The text without the characters of this kind at either end.
pub open spec fn stripped(text: Seq<char>, kind: Trim) -> Seq<char> {
    strip_end(strip_start(text, kind), kind)
}

/// Whether trimming of this kind removes the character.
fn is_trimmed(kind: Trim, c: char) -> (removed: bool)
    ensures
        removed == trims(kind, c),
{
    match kind {
        Trim::WhiteSpace => is_white_space(c),
        Trim::Quotes => c == '"',
    }
}

/// The bounds of what trimming leaves of the characters from `from` to `to`.
pub fn trim_bounds(text: &Vec<char>, from: usize, to: usize, kind: Trim) -> (bounds: (usize, usize))
    requires
        from <= to <= text.len(),
    ensures
        from <= bounds.0 <= bounds.1 <= to,
        text@.subrange(bounds.0 as int, bounds.1 as int) == stripped(
            text@.subrange(from as int, to as int),
            kind,
        ),
{
    let ghost whole = text@.subrange(from as int, to as int);
    let mut lo: usize = from;
    while lo < to && is_trimmed(kind, text[lo])
        invariant
            from <= lo <= to <= text.len(),
            strip_start(whole, kind) == strip_start(text@.subrange(lo as int, to as int), kind),
        decreases to - lo,
    {
        assert(text@.subrange(lo as int, to as int).drop_first() =~= text@.subrange(
            lo + 1,
            to as int,
        ));
        lo += 1;
    }
    let mut hi: usize = to;
    while lo < hi && is_trimmed(kind, text[hi - 1])
        invariant
            lo <= hi <= to <= text.len(),
            strip_start(whole, kind) == text@.subrange(lo as int, to as int),
            stripped(whole, kind) == strip_end(text@.subrange(lo as int, hi as int), kind),
        decreases hi - lo,
    {
        assert(text@.subrange(lo as int, hi as int).drop_last() =~= text@.subrange(
            lo as int,
            hi - 1,
        ));
        hi -= 1;
    }
    (lo, hi)
}

} // verus!
