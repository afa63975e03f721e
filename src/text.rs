//! Substrings and lowercase of texts, as sequences of characters.
use vstd::prelude::*;

verus! {

/// `q` occurs in `s` as a contiguous run of characters.
pub open spec fn has_substring(s: Seq<char>, q: Seq<char>) -> bool {
    exists|i: int| 0 <= i && i + q.len() <= s.len() && #[trigger] s.subrange(i, i + q.len()) == q
}

/// Every character of `s` is ASCII.
pub open spec fn all_ascii(s: Seq<char>) -> bool {
    forall|i: int| 0 <= i < s.len() ==> (#[trigger] s[i] as u32) < 128
}

/// The ASCII lowercase of one character: `'A'..='Z'` become `'a'..='z'`.
pub open spec fn ascii_lower(c: char) -> char {
    if 'A' <= c && c <= 'Z' {
        ((c as u32) + 32) as char
    } else {
        c
    }
}

/// `s` with each character taken to its ASCII lowercase.
pub open spec fn ascii_lowered(s: Seq<char>) -> Seq<char> {
    s.map_values(|c: char| ascii_lower(c))
}

/// The Unicode lowercase of a text, as `str::to_lowercase` computes it.
pub uninterp spec fn lower_of(s: Seq<char>) -> Seq<char>;

/// Relies on `str::to_lowercase`: its result depends on the characters of
/// `s` alone, and on ASCII text the Unicode lowercase mapping turns
/// `'A'..='Z'` into `'a'..='z'` and keeps every other character.
#[verifier::external_body]
pub(crate) fn to_lower(s: &str) -> (r: String)
    ensures
        r@ == lower_of(s@),
        all_ascii(s@) ==> r@ == ascii_lowered(s@),
{
    s.to_lowercase()
}

/// The characters of `s`, one by one.
pub(crate) fn chars_of(s: &str) -> (r: Vec<char>)
    ensures
        r@ == s@,
{
    broadcast use vstd::string::axiom_spec_iter;
    let mut r: Vec<char> = Vec::new();
    for c in it: s.chars()
        invariant
            it.seq() == s@,
            r@ == it.seq().take(it.index() as int),
    {
        r.push(c);
    }
    r
}

/// Whether `q` occurs in `h`, trying each start position in turn.
pub(crate) fn contains_chars(h: &Vec<char>, q: &Vec<char>) -> (r: bool)
    ensures
        r == has_substring(h@, q@),
{
    if q.len() > h.len() {
        return false;
    }
    let last: usize = h.len() - q.len();
    let mut i: usize = 0;
    while i <= last
        invariant
            last == h.len() - q.len(),
            q.len() <= h.len(),
            forall|k: int| 0 <= k < i ==> #[trigger] h@.subrange(k, k + q.len()) != q@,
        decreases last + 1 - i,
    {
        let mut j: usize = 0;
        while j < q.len() && h[i + j] == q[j]
            invariant
                i <= last,
                last == h.len() - q.len(),
                j <= q.len(),
                forall|t: int| 0 <= t < j ==> h@[i + t] == q@[t],
            decreases q.len() - j,
        {
            j = j + 1;
        }
        if j == q.len() {
            assert(h@.subrange(i as int, i + q.len()) =~= q@);
            return true;
        }
        assert(h@.subrange(i as int, i + q.len())[j as int] != q@[j as int]);
        i = i + 1;
    }
    false
}

/// Whether `needle` occurs in `haystack` as a contiguous run of characters.
pub fn contains(haystack: &str, needle: &str) -> (r: bool)
    ensures
        r == has_substring(haystack@, needle@),
{
    let h = chars_of(haystack);
    let q = chars_of(needle);
    contains_chars(&h, &q)
}

} // verus!
