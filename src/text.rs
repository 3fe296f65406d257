use vstd::prelude::*;

verus! {

/// Relies on `String::push`: appends one character to the string.
#[verifier::external_body]
pub(crate) fn push_char(s: &mut String, c: char)
    ensures
        final(s)@ == old(s)@.push(c),
{
    s.push(c);
}

/// The characters of `s`.
pub fn chars_of(s: &str) -> (r: Vec<char>)
    ensures
        r@ == s@,
{
    let mut v: Vec<char> = Vec::new();
    for c in it: s.chars()
        invariant
            v@ == it.seq().take(it.index() as int),
            it.seq() == s@,
    {
        v.push(c);
    }
    assert(v@ =~= s@);
    v
}

/// A string holding the characters `chars[lo..hi]`.
pub fn string_of(chars: &Vec<char>, lo: usize, hi: usize) -> (r: String)
    requires
        lo <= hi <= chars@.len(),
    ensures
        r@ == chars@.subrange(lo as int, hi as int),
{
    let mut s = String::new();
    for i in lo..hi
        invariant
            lo <= i <= hi <= chars@.len(),
            s@ == chars@.subrange(lo as int, i as int),
    {
        proof {
            assert(chars@.subrange(lo as int, i + 1) == chars@.subrange(lo as int, i as int).push(
                chars@[i as int],
            ));
        }
        push_char(&mut s, chars[i]);
    }
    s
}

/// Position of the first `sep` in `s` at or after `i`, or `s.len()` when there is none.
pub open spec fn find_from(s: Seq<char>, sep: char, i: int) -> int
    decreases s.len() - i,
{
    if i < 0 || i >= s.len() {
        s.len() as int
    } else if s[i] == sep {
        i
    } else {
        find_from(s, sep, i + 1)
    }
}

/// What comes before the first `sep` of `s` (all of `s` when there is none).
pub open spec fn before_sep(s: Seq<char>, sep: char) -> Seq<char> {
    s.take(find_from(s, sep, 0))
}

/// What comes after the first `sep` of `s` (nothing when there is none).
pub open spec fn after_sep(s: Seq<char>, sep: char) -> Seq<char> {
    let k = find_from(s, sep, 0);
    if k < s.len() {
        s.skip(k + 1)
    } else {
        Seq::empty()
    }
}

pub proof fn lemma_find_from(s: Seq<char>, sep: char, i: int)
    requires
        0 <= i <= s.len(),
    ensures
        i <= find_from(s, sep, i) <= s.len(),
        find_from(s, sep, i) < s.len() ==> s[find_from(s, sep, i)] == sep,
        forall|j: int| i <= j < find_from(s, sep, i) ==> s[j] != sep,
    decreases s.len() - i,
{
    if i < s.len() && s[i] != sep {
        lemma_find_from(s, sep, i + 1);
    }
}

/// The first position at or after `lo` and before `hi` that holds `sep`, or `hi`.
pub fn find_char(chars: &Vec<char>, sep: char, lo: usize, hi: usize) -> (r: usize)
    requires
        lo <= hi <= chars@.len(),
    ensures
        r == find_from(chars@.subrange(lo as int, hi as int), sep, 0) + lo,
        lo <= r <= hi,
{
    let ghost s = chars@.subrange(lo as int, hi as int);
    let mut i = lo;
    while i < hi
        invariant
            lo <= i <= hi <= chars@.len(),
            s == chars@.subrange(lo as int, hi as int),
            find_from(s, sep, 0) == find_from(s, sep, i - lo),
        decreases hi - i,
    {
        if chars[i] == sep {
            return i;
        }
        i = i + 1;
    }
    i
}

/// The part of `s` before the first `sep` and the part after it; when `s` holds
/// no `sep`, all of `s` and an empty string.
pub fn split_on(s: &str, sep: char) -> (r: (String, String))
    ensures
        r.0@ == before_sep(s@, sep),
        r.1@ == after_sep(s@, sep),
{
    let chars = chars_of(s);
    let k = find_char(&chars, sep, 0, chars.len());
    proof {
        assert(chars@.subrange(0, chars@.len() as int) == chars@);
    }
    let first = string_of(&chars, 0, k);
    if k < chars.len() {
        let rest = string_of(&chars, k + 1, chars.len());
        (first, rest)
    } else {
        (first, String::new())
    }
}

} // verus!
