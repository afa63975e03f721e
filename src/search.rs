//! Selecting the lines of a text that contain a query.
use vstd::prelude::*;
use crate::config::Config;
use crate::lines::{lines_of, next_line, lemma_lines_all_ascii};
use crate::text::{
    all_ascii, ascii_lowered, chars_of, contains_chars, has_substring, lower_of, to_lower,
};

verus! {

/// Whether `line` is kept for `query`: it contains the query, or, when case
/// is ignored, its lowercase contains the query's lowercase.
pub open spec fn line_matches(line: Seq<char>, query: Seq<char>, ignore_case: bool) -> bool {
    if ignore_case {
        has_substring(lower_of(line), lower_of(query))
    } else {
        has_substring(line, query)
    }
}

/// The lines of `lines` that match `query`, in their order.
pub open spec fn selected(lines: Seq<Seq<char>>, query: Seq<char>, ignore_case: bool) -> Seq<
    Seq<char>,
>
    decreases lines.len(),
{
    if lines.len() == 0 {
        Seq::empty()
    } else {
        let before = selected(lines.drop_last(), query, ignore_case);
        if line_matches(lines.last(), query, ignore_case) {
            before.push(lines.last())
        } else {
            before
        }
    }
}

/// `a` is `b` with some elements left out, the rest in their order.
pub open spec fn is_subseq<T>(a: Seq<T>, b: Seq<T>) -> bool
    decreases b.len(),
{
    if b.len() == 0 {
        a.len() == 0
    } else {
        (a.len() > 0 && a.last() == b.last() && is_subseq(a.drop_last(), b.drop_last()))
            || is_subseq(a, b.drop_last())
    }
}

/// The texts that a sequence of string slices hold.
pub open spec fn views(v: Seq<&str>) -> Seq<Seq<char>> {
    v.map_values(|s: &str| s@)
}

/// Each text of `lines` that is ASCII has its ASCII lowercase as its lowercase.
pub open spec fn lowered_as_ascii(lines: Seq<Seq<char>>) -> bool {
    forall|j: int|
        0 <= j < lines.len() && all_ascii(#[trigger] lines[j]) ==> lower_of(lines[j])
            == ascii_lowered(lines[j])
}

proof fn lemma_selected_is_subseq(lines: Seq<Seq<char>>, query: Seq<char>, ignore_case: bool)
    ensures
        is_subseq(selected(lines, query, ignore_case), lines),
    decreases lines.len(),
{
    if lines.len() > 0 {
        lemma_selected_is_subseq(lines.drop_last(), query, ignore_case);
        let before = selected(lines.drop_last(), query, ignore_case);
        if line_matches(lines.last(), query, ignore_case) {
            assert(before.push(lines.last()).drop_last() =~= before);
        }
    }
}

proof fn lemma_selected_match(lines: Seq<Seq<char>>, query: Seq<char>, ignore_case: bool)
    ensures
        forall|i: int|
            0 <= i < selected(lines, query, ignore_case).len() ==> line_matches(
                #[trigger] selected(lines, query, ignore_case)[i],
                query,
                ignore_case,
            ),
    decreases lines.len(),
{
    if lines.len() > 0 {
        lemma_selected_match(lines.drop_last(), query, ignore_case);
        let before = selected(lines.drop_last(), query, ignore_case);
        let now = selected(lines, query, ignore_case);
        assert forall|i: int| 0 <= i < now.len() implies line_matches(
            #[trigger] now[i],
            query,
            ignore_case,
        ) by {
            if i < before.len() {
                assert(now[i] == before[i]);
            }
        }
    }
}

proof fn lemma_substring_lowered(s: Seq<char>, q: Seq<char>)
    requires
        has_substring(s, q),
    ensures
        has_substring(ascii_lowered(s), ascii_lowered(q)),
{
    let i = choose|i: int|
        0 <= i && i + q.len() <= s.len() && #[trigger] s.subrange(i, i + q.len()) == q;
    assert(ascii_lowered(s).subrange(i, i + q.len()) =~= ascii_lowered(q));
}

proof fn lemma_folding_widens(lines: Seq<Seq<char>>, query: Seq<char>)
    requires
        all_ascii(query),
        lower_of(query) == ascii_lowered(query),
        forall|j: int| 0 <= j < lines.len() ==> all_ascii(#[trigger] lines[j]),
        lowered_as_ascii(lines),
    ensures
        is_subseq(selected(lines, query, false), selected(lines, query, true)),
    decreases lines.len(),
{
    if lines.len() > 0 {
        let rest = lines.drop_last();
        let l = lines.last();
        assert(l == lines[lines.len() - 1]);
        assert forall|j: int| 0 <= j < rest.len() implies all_ascii(#[trigger] rest[j]) by {
            assert(rest[j] == lines[j]);
        }
        assert forall|j: int| 0 <= j < rest.len() && all_ascii(#[trigger] rest[j]) implies lower_of(
            rest[j],
        ) == ascii_lowered(rest[j]) by {
            assert(rest[j] == lines[j]);
        }
        lemma_folding_widens(rest, query);
        let a = selected(rest, query, false);
        let b = selected(rest, query, true);
        if has_substring(l, query) {
            lemma_substring_lowered(l, query);
            assert(a.push(l).drop_last() =~= a);
            assert(b.push(l).drop_last() =~= b);
        } else if line_matches(l, query, true) {
            assert(b.push(l).drop_last() =~= b);
        }
    }
}

/// An empty query keeps every line.
proof fn lemma_empty_keeps_all(lines: Seq<Seq<char>>, query: Seq<char>, ignore_case: bool)
    requires
        forall|j: int| 0 <= j < lines.len() ==> line_matches(#[trigger] lines[j], query, ignore_case),
    ensures
        selected(lines, query, ignore_case) == lines,
    decreases lines.len(),
{
    if lines.len() > 0 {
        let rest = lines.drop_last();
        assert forall|j: int| 0 <= j < rest.len() implies line_matches(#[trigger] rest[j], query, ignore_case) by {
            assert(rest[j] == lines[j]);
        }
        lemma_empty_keeps_all(rest, query, ignore_case);
        assert(line_matches(lines[lines.len() - 1], query, ignore_case));
        assert(rest.push(lines.last()) =~= lines);
    }
}

proof fn lemma_empty_substring(s: Seq<char>, q: Seq<char>)
    requires
        q.len() == 0,
    ensures
        has_substring(s, q),
{
    assert(s.subrange(0, 0 + q.len() as int) =~= q);
}

/// Every line that `search` returns contains the query, and those lines are
/// the text's own lines in their order, some of them left out.
pub proof fn lemma_search_sound(query: Seq<char>, contents: Seq<char>)
    ensures
        forall|i: int|
            0 <= i < selected(lines_of(contents), query, false).len() ==> has_substring(
                #[trigger] selected(lines_of(contents), query, false)[i],
                query,
            ),
        is_subseq(selected(lines_of(contents), query, false), lines_of(contents)),
{
    lemma_selected_match(lines_of(contents), query, false);
    lemma_selected_is_subseq(lines_of(contents), query, false);
}

/// With an empty query `search` returns every line of the text, unchanged
/// and in order.
pub proof fn lemma_search_empty_query(contents: Seq<char>)
    ensures
        selected(lines_of(contents), Seq::empty(), false) == lines_of(contents),
{
    let lines = lines_of(contents);
    assert forall|j: int| 0 <= j < lines.len() implies line_matches(
        #[trigger] lines[j],
        Seq::empty(),
        false,
    ) by {
        lemma_empty_substring(lines[j], Seq::empty());
    }
    lemma_empty_keeps_all(lines, Seq::empty(), false);
}

fn collect_matches<'a>(query: &str, contents: &'a str, ignore_case: bool) -> (r: Vec<&'a str>)
    ensures
        views(r@) == selected(lines_of(contents@), query@, ignore_case),
        ignore_case ==> lowered_as_ascii(lines_of(contents@)),
        ignore_case ==> lowered_as_ascii(seq![query@]),
{
    let q: Vec<char> = if ignore_case {
        let folded = to_lower(query);
        proof {
            assert(seq![query@][0] == query@);
        }
        chars_of(folded.as_str())
    } else {
        chars_of(query)
    };
    let mut out: Vec<&'a str> = Vec::new();
    let mut rest: &'a str = contents;
    let ghost mut seen: Seq<Seq<char>> = Seq::empty();
    assert(seen + lines_of(rest@) =~= lines_of(contents@));
    loop
        invariant
            lines_of(contents@) == seen + lines_of(rest@),
            views(out@) == selected(seen, query@, ignore_case),
            q@ == (if ignore_case { lower_of(query@) } else { query@ }),
            ignore_case ==> lowered_as_ascii(seen),
            ignore_case ==> lowered_as_ascii(seq![query@]),
        ensures
            lines_of(rest@).len() == 0,
        decreases rest@.len(),
    {
        match next_line(rest) {
            None => {
                break;
            },
            Some((line, tail)) => {
                let hit = if ignore_case {
                    let folded = to_lower(line);
                    contains_chars(&chars_of(folded.as_str()), &q)
                } else {
                    contains_chars(&chars_of(line), &q)
                };
                let ghost next = seen.push(line@);
                proof {
                    assert(next.drop_last() =~= seen);
                    assert(next.last() == line@);
                    assert(seen + (seq![line@] + lines_of(tail@)) =~= next + lines_of(tail@));
                    if ignore_case {
                        assert forall|j: int|
                            0 <= j < next.len() && all_ascii(#[trigger] next[j]) implies lower_of(
                            next[j],
                        ) == ascii_lowered(next[j]) by {
                            if j < seen.len() {
                                assert(next[j] == seen[j]);
                            }
                        }
                    }
                }
                if hit {
                    let ghost before = out@;
                    out.push(line);
                    assert(views(out@) =~= views(before).push(line@));
                }
                proof {
                    seen = next;
                }
                rest = tail;
            },
        }
    }
    assert(seen + lines_of(rest@) =~= seen);
    out
}

/// The lines of `contents` that contain `query`, case-sensitively, in their
/// order in the text.
pub fn search<'a>(query: &str, contents: &'a str) -> (r: Vec<&'a str>)
    ensures
        views(r@) == selected(lines_of(contents@), query@, false),
{
    collect_matches(query, contents, false)
}

/// The lines of `contents` whose lowercase contains the lowercase of `query`,
/// in their order in the text.
pub fn search_case_insensitive<'a>(query: &str, contents: &'a str) -> (r: Vec<&'a str>)
    ensures
        views(r@) == selected(lines_of(contents@), query@, true),
        query@.len() == 0 ==> views(r@) == lines_of(contents@),
        all_ascii(query@) && all_ascii(contents@) ==> is_subseq(
            selected(lines_of(contents@), query@, false),
            views(r@),
        ),
{
    let r = collect_matches(query, contents, true);
    proof {
        let lines = lines_of(contents@);
        assert(seq![query@][0] == query@);
        if query@.len() == 0 {
            assert(all_ascii(query@));
            assert(lower_of(query@) =~= Seq::<char>::empty());
            assert forall|j: int| 0 <= j < lines.len() implies line_matches(
                #[trigger] lines[j],
                query@,
                true,
            ) by {
                lemma_empty_substring(lower_of(lines[j]), lower_of(query@));
            }
            lemma_empty_keeps_all(lines, query@, true);
        }
        if all_ascii(query@) && all_ascii(contents@) {
            lemma_lines_all_ascii(contents@);
            lemma_folding_widens(lines, query@);
        }
    }
    r
}

/// The lines of `contents` that `config` asks for: its query, matched
/// ignoring case when `config.ignore_case` is set.
pub fn find_matches<'a>(config: &Config, contents: &'a str) -> (r: Vec<&'a str>)
    ensures
        views(r@) == selected(lines_of(contents@), config.query@, config.ignore_case),
{
    if config.ignore_case {
        search_case_insensitive(config.query.as_str(), contents)
    } else {
        search(config.query.as_str(), contents)
    }
}

} // verus!
