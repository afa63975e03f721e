//! Splitting a text into lines.
use vstd::prelude::*;
use crate::text::all_ascii;

verus! {

/// Index of the first `'\n'` in `s`, or `s.len()` when there is none.
pub open spec fn newline_pos(s: Seq<char>) -> nat
    decreases s.len(),
{
    if s.len() == 0 {
        0
    } else if s[0] == '\n' {
        0
    } else {
        1 + newline_pos(s.drop_first())
    }
}

/// A line's text without the `'\r'` of a `"\r\n"` ending.
pub open spec fn strip_cr(t: Seq<char>) -> Seq<char> {
    if t.len() > 0 && t.last() == '\r' {
        t.drop_last()
    } else {
        t
    }
}

/// The lines of `s`: the pieces between line endings (`"\n"` or `"\r\n"`),
/// where a final line ending adds no empty line.
pub open spec fn lines_of(s: Seq<char>) -> Seq<Seq<char>>
    decreases s.len(),
{
    if s.len() == 0 {
        Seq::empty()
    } else {
        let k = newline_pos(s);
        if k >= s.len() {
            seq![s]
        } else {
            seq![strip_cr(s.take(k as int))] + lines_of(s.skip(k + 1 as int))
        }
    }
}

/// The lines of `ls` written one after another, separated by `'\n'`.
pub open spec fn join_lines(ls: Seq<Seq<char>>) -> Seq<char>
    decreases ls.len(),
{
    if ls.len() == 0 {
        Seq::empty()
    } else if ls.len() == 1 {
        ls[0]
    } else {
        ls[0] + seq!['\n'] + join_lines(ls.drop_first())
    }
}

/// `s` holds a `'\r'` directly followed by `'\n'`.
pub open spec fn has_crlf(s: Seq<char>) -> bool {
    exists|i: int| 0 <= i && i + 1 < s.len() && #[trigger] s[i] == '\r' && s[i + 1] == '\n'
}

/// `s` without one final `'\n'`, if it has one.
pub open spec fn without_final_newline(s: Seq<char>) -> Seq<char> {
    if s.len() > 0 && s.last() == '\n' {
        s.drop_last()
    } else {
        s
    }
}

proof fn lemma_newline_pos(s: Seq<char>)
    ensures
        newline_pos(s) <= s.len(),
        forall|j: int| 0 <= j < newline_pos(s) ==> s[j] != '\n',
        newline_pos(s) < s.len() ==> s[newline_pos(s) as int] == '\n',
    decreases s.len(),
{
    if s.len() > 0 && s[0] != '\n' {
        lemma_newline_pos(s.drop_first());
        assert forall|j: int| 0 <= j < newline_pos(s) implies s[j] != '\n' by {
            if j > 0 {
                assert(s[j] == s.drop_first()[j - 1]);
            }
        }
    }
}

proof fn lemma_newline_pos_at(s: Seq<char>, k: int)
    requires
        0 <= k <= s.len(),
        forall|j: int| 0 <= j < k ==> s[j] != '\n',
        k == s.len() || s[k] == '\n',
    ensures
        newline_pos(s) == k,
{
    lemma_newline_pos(s);
}

/// Splitting at the first newline peels off the first line.
pub proof fn lemma_lines_of_split(a: Seq<char>, b: Seq<char>)
    requires
        !a.contains('\n'),
    ensures
        lines_of(a + seq!['\n'] + b) == seq![strip_cr(a)] + lines_of(b),
{
    let s = a + seq!['\n'] + b;
    assert(s[a.len() as int] == '\n');
    assert forall|j: int| 0 <= j < a.len() implies s[j] != '\n' by {
        assert(s[j] == a[j]);
    }
    lemma_newline_pos_at(s, a.len() as int);
    assert(s.take(a.len() as int) =~= a);
    assert(s.skip(a.len() as int + 1) =~= b);
}

/// A text with no newline is one line, or none when it is empty.
pub proof fn lemma_lines_of_last(s: Seq<char>)
    requires
        !s.contains('\n'),
    ensures
        lines_of(s) == (if s.len() == 0 { Seq::<Seq<char>>::empty() } else { seq![s] }),
{
    if s.len() > 0 {
        assert forall|j: int| 0 <= j < s.len() implies s[j] != '\n' by {
            if s[j] == '\n' {
                assert(s.contains('\n'));
            }
        }
        lemma_newline_pos_at(s, s.len() as int);
    }
}

proof fn lemma_join_prepend(x: Seq<char>, ls: Seq<Seq<char>>)
    requires
        ls.len() > 0,
    ensures
        join_lines(seq![x] + ls) == x + seq!['\n'] + join_lines(ls),
{
    let all = seq![x] + ls;
    assert(all[0] == x);
    assert(all.drop_first() =~= ls);
}

/// Joining the lines of a text with `'\n'` gives the text back, less one
/// final `'\n'`, wherever the text has no `"\r\n"` ending.
pub proof fn lemma_lines_round_trip(s: Seq<char>)
    requires
        !has_crlf(s),
    ensures
        join_lines(lines_of(s)) == without_final_newline(s),
    decreases s.len(),
{
    if s.len() > 0 {
        let k = newline_pos(s);
        lemma_newline_pos(s);
        if k >= s.len() {
            assert(s.last() == s[s.len() - 1]);
        } else {
            let head = s.take(k as int);
            let tail = s.skip(k + 1 as int);
            if k > 0 {
                assert(head.last() == s[k - 1]);
                if head.last() == '\r' {
                    assert(s[k - 1] == '\r' && s[(k - 1) + 1] == '\n');
                }
            }
            assert(strip_cr(head) == head);
            assert(!has_crlf(tail)) by {
                if has_crlf(tail) {
                    let i = choose|i: int|
                        0 <= i && i + 1 < tail.len() && #[trigger] tail[i] == '\r' && tail[i + 1]
                            == '\n';
                    assert(s[i + k + 1] == '\r' && s[(i + k + 1) + 1] == '\n');
                }
            }
            lemma_lines_round_trip(tail);
            if tail.len() == 0 {
                assert(lines_of(tail) =~= Seq::<Seq<char>>::empty());
                assert(seq![head] + lines_of(tail) =~= seq![head]);
                assert(s.drop_last() =~= head);
            } else {
                assert(lines_of(tail).len() > 0);
                lemma_join_prepend(head, lines_of(tail));
                assert(s.last() == tail.last());
                assert(s.last() == '\n' ==> s.drop_last() =~= head + seq!['\n'] + tail.drop_last());
                assert(s =~= head + seq!['\n'] + tail);
            }
        }
    }
}

/// Every line of an ASCII text is ASCII.
pub proof fn lemma_lines_all_ascii(s: Seq<char>)
    requires
        all_ascii(s),
    ensures
        forall|j: int| 0 <= j < lines_of(s).len() ==> all_ascii(#[trigger] lines_of(s)[j]),
    decreases s.len(),
{
    if s.len() > 0 {
        let k = newline_pos(s);
        lemma_newline_pos(s);
        if k < s.len() {
            let head = s.take(k as int);
            let tail = s.skip(k + 1 as int);
            assert(all_ascii(tail)) by {
                assert forall|i: int| 0 <= i < tail.len() implies (#[trigger] tail[i] as u32) < 128 by {
                    assert(tail[i] == s[i + k + 1]);
                }
            }
            assert(all_ascii(strip_cr(head))) by {
                assert forall|i: int| 0 <= i < strip_cr(head).len() implies (
                #[trigger] strip_cr(head)[i] as u32) < 128 by {
                    assert(strip_cr(head)[i] == s[i]);
                }
            }
            lemma_lines_all_ascii(tail);
            let ls = lines_of(s);
            assert forall|j: int| 0 <= j < ls.len() implies all_ascii(#[trigger] ls[j]) by {
                if j > 0 {
                    assert(ls[j] == lines_of(tail)[j - 1]);
                }
            }
        }
    }
}

/// Relies on `str::split_once` with a `char` pattern: it splits `s` at its
/// first `'\n'`, which neither half keeps, or gives `None` when `s` has none.
#[verifier::external_body]
fn split_at_newline<'a>(s: &'a str) -> (r: Option<(&'a str, &'a str)>)
    ensures
        match r {
            Some((a, b)) => s@ == a@ + seq!['\n'] + b@ && !a@.contains('\n'),
            None => !s@.contains('\n'),
        },
{
    s.split_once('\n')
}

/// `t` without a final `'\r'`.
fn trim_cr<'a>(t: &'a str) -> (r: &'a str)
    ensures
        r@ == strip_cr(t@),
{
    let n = t.unicode_len();
    if n > 0 && t.get_char(n - 1) == '\r' {
        let r = t.substring_char(0, n - 1);
        assert(r@ =~= t@.drop_last());
        r
    } else {
        t
    }
}

/// Takes the first line off `rest`: the line, and what follows it. `None`
/// when `rest` has no line left.
pub fn next_line<'a>(rest: &'a str) -> (r: Option<(&'a str, &'a str)>)
    ensures
        match r {
            Some((line, tail)) => lines_of(rest@) == seq![line@] + lines_of(tail@)
                && tail@.len() < rest@.len(),
            None => lines_of(rest@).len() == 0,
        },
{
    match split_at_newline(rest) {
        Some((head, tail)) => {
            proof {
                lemma_lines_of_split(head@, tail@);
            }
            Some((trim_cr(head), tail))
        },
        None => {
            proof {
                lemma_lines_of_last(rest@);
            }
            if rest.unicode_len() == 0 {
                None
            } else {
                let empty = rest.substring_char(0, 0);
                assert(lines_of(empty@) =~= Seq::<Seq<char>>::empty()) by {
                    assert(empty@.len() == 0);
                }
                Some((rest, empty))
            }
        },
    }
}

} // verus!
