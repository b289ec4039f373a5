//! A line-oriented text search library: it resolves a search configuration
//! from command-line tokens and an environment override, and finds the lines
//! of a text that contain a query, case-sensitively or case-insensitively.

use vstd::prelude::*;

pub mod config;
pub mod text;

pub use config::BuildOutcome;
pub use config::Config;
pub use config::ConfigError;

verus! {

use crate::text::chars_of;
use crate::text::contains_chars;
use crate::text::fold_lower;
use crate::text::lemma_push_deep_view;
use crate::text::lower_chars;
use crate::text::spec_contains;
use crate::text::spec_lines;
use crate::text::split_lines;

/// Whether a line contains `query` exactly.
pub open spec fn match_pred(query: Seq<char>) -> spec_fn(Seq<char>) -> bool {
    |l: Seq<char>| spec_contains(l, query)
}

/// Whether a line contains `query` once both are case folded.
pub open spec fn ci_match_pred(query: Seq<char>) -> spec_fn(Seq<char>) -> bool {
    |l: Seq<char>| spec_contains(fold_lower(l), fold_lower(query))
}

/// The lines of `content` that contain `query`, in source order.
pub open spec fn spec_search(query: Seq<char>, content: Seq<char>) -> Seq<Seq<char>> {
    spec_lines(content).filter(match_pred(query))
}

/// The lines of `content` that contain `query` up to case folding, in
/// source order; the lines themselves are returned unfolded.
pub open spec fn spec_search_ci(query: Seq<char>, content: Seq<char>) -> Seq<Seq<char>> {
    spec_lines(content).filter(ci_match_pred(query))
}

/// `a` is a subsequence of `b`: `a` can be obtained from `b` by deleting
/// elements while keeping the remaining order.
pub open spec fn is_subsequence_of(a: Seq<Seq<char>>, b: Seq<Seq<char>>) -> bool
    decreases a.len() + b.len(),
{
    if a.len() == 0 {
        true
    } else if b.len() == 0 {
        false
    } else {
        (a.last() == b.last() && is_subsequence_of(a.drop_last(), b.drop_last()))
            || is_subsequence_of(a, b.drop_last())
    }
}

proof fn lemma_filter_subsequence_of_self(s: Seq<Seq<char>>, pred: spec_fn(Seq<char>) -> bool)
    ensures
        is_subsequence_of(s.filter(pred), s),
    decreases s.len(),
{
    reveal(Seq::filter);
    if s.len() > 0 {
        lemma_filter_subsequence_of_self(s.drop_last(), pred);
        if pred(s.last()) {
            let f = s.filter(pred);
            assert(f.last() == s.last());
            assert(f.drop_last() =~= s.drop_last().filter(pred));
        }
    }
}

proof fn lemma_filter_monotone(
    s: Seq<Seq<char>>,
    p1: spec_fn(Seq<char>) -> bool,
    p2: spec_fn(Seq<char>) -> bool,
)
    requires
        forall|l: Seq<char>| #[trigger] p1(l) ==> p2(l),
    ensures
        is_subsequence_of(s.filter(p1), s.filter(p2)),
    decreases s.len(),
{
    reveal(Seq::filter);
    if s.len() > 0 {
        lemma_filter_monotone(s.drop_last(), p1, p2);
        let x = s.last();
        let f1 = s.filter(p1);
        let f2 = s.filter(p2);
        if p1(x) {
            assert(p2(x));
            assert(f1.drop_last() =~= s.drop_last().filter(p1));
            assert(f2.drop_last() =~= s.drop_last().filter(p2));
            assert(f1.last() == f2.last());
        } else if p2(x) {
            assert(f2.drop_last() =~= s.drop_last().filter(p2));
        }
    }
}

proof fn lemma_filter_all(s: Seq<Seq<char>>, pred: spec_fn(Seq<char>) -> bool)
    requires
        forall|l: Seq<char>| #[trigger] pred(l),
    ensures
        s.filter(pred) == s,
    decreases s.len(),
{
    reveal(Seq::filter);
    if s.len() == 0 {
        assert(s.filter(pred) =~= s);
    } else {
        lemma_filter_all(s.drop_last(), pred);
        assert(pred(s.last()));
        assert(s.filter(pred) =~= s.drop_last().push(s.last()));
        assert(s.drop_last().push(s.last()) =~= s);
    }
}

proof fn lemma_subsequence_membership(a: Seq<Seq<char>>, b: Seq<Seq<char>>)
    requires
        is_subsequence_of(a, b),
    ensures
        forall|i: int| 0 <= i < a.len() ==> #[trigger] b.contains(a[i]),
    decreases a.len() + b.len(),
{
    if a.len() > 0 {
        if a.last() == b.last() && is_subsequence_of(a.drop_last(), b.drop_last()) {
            lemma_subsequence_membership(a.drop_last(), b.drop_last());
            assert forall|i: int| 0 <= i < a.len() implies #[trigger] b.contains(a[i]) by {
                if i < a.len() - 1 {
                    assert(b.drop_last().contains(a.drop_last()[i]));
                    let w = choose|w: int|
                        0 <= w < b.drop_last().len() && b.drop_last()[w] == a.drop_last()[i];
                    assert(b[w] == a[i]);
                } else {
                    assert(b[b.len() - 1] == a[i]);
                }
            }
        } else {
            assert(is_subsequence_of(a, b.drop_last()));
            lemma_subsequence_membership(a, b.drop_last());
            assert forall|i: int| 0 <= i < a.len() implies #[trigger] b.contains(a[i]) by {
                assert(b.drop_last().contains(a[i]));
                let w = choose|w: int| 0 <= w < b.drop_last().len() && b.drop_last()[w] == a[i];
                assert(b[w] == a[i]);
            }
        }
    }
}

/// An empty query matches every line: the search returns all lines of
/// `content`, unchanged and in order.
pub proof fn lemma_empty_query_matches_all(query: Seq<char>, content: Seq<char>)
    requires
        query.len() == 0,
    ensures
        spec_search(query, content) == spec_lines(content),
{
    assert forall|l: Seq<char>| #[trigger] match_pred(query)(l) by {
        assert(l.subrange(0, 0 + query.len() as int) =~= query);
        assert(spec_contains(l, query));
    }
    lemma_filter_all(spec_lines(content), match_pred(query));
}

/// Every line found by the case-sensitive search is also found by the
/// case-insensitive search for the same query, in the same relative order.
pub proof fn lemma_case_sensitive_refines_insensitive(query: Seq<char>, content: Seq<char>)
    ensures
        is_subsequence_of(spec_search(query, content), spec_search_ci(query, content)),
{
    assert forall|l: Seq<char>| #[trigger] match_pred(query)(l) implies ci_match_pred(query)(
        l,
    ) by {
        crate::text::lemma_contains_fold_lower(l, query);
    }
    lemma_filter_monotone(spec_lines(content), match_pred(query), ci_match_pred(query));
}

/// Neither search mode reorders lines, and neither returns a line that is
/// not present verbatim among the lines of `content`.
pub proof fn lemma_search_returns_lines_in_order(query: Seq<char>, content: Seq<char>)
    ensures
        is_subsequence_of(spec_search(query, content), spec_lines(content)),
        forall|i: int|
            0 <= i < spec_search(query, content).len() ==> #[trigger] spec_lines(
                content,
            ).contains(spec_search(query, content)[i]),
        is_subsequence_of(spec_search_ci(query, content), spec_lines(content)),
        forall|i: int|
            0 <= i < spec_search_ci(query, content).len() ==> #[trigger] spec_lines(
                content,
            ).contains(spec_search_ci(query, content)[i]),
{
    lemma_filter_subsequence_of_self(spec_lines(content), match_pred(query));
    lemma_subsequence_membership(spec_search(query, content), spec_lines(content));
    lemma_filter_subsequence_of_self(spec_lines(content), ci_match_pred(query));
    lemma_subsequence_membership(spec_search_ci(query, content), spec_lines(content));
}

/// Case-sensitive search: every line of `content` that contains `query`,
/// as a borrowed slice, in source order.
pub fn search<'a>(query: &str, content: &'a str) -> (r: Vec<&'a str>)
    ensures
        r.deep_view() == spec_search(query@, content@),
{
    let lines = split_lines(content);
    let q = chars_of(query);
    let mut r: Vec<&'a str> = Vec::new();
    let n = lines.len();
    let mut i: usize = 0;
    proof {
        reveal(Seq::filter);
        assert(spec_lines(content@).subrange(0, 0) =~= Seq::<Seq<char>>::empty());
        assert(r.deep_view() =~= Seq::<Seq<char>>::empty().filter(match_pred(query@)));
    }
    while i < n
        invariant
            n == lines@.len(),
            i <= n,
            lines.deep_view() == spec_lines(content@),
            q@ == query@,
            r.deep_view() == spec_lines(content@).subrange(0, i as int).filter(
                match_pred(query@),
            ),
        decreases n - i,
    {
        let line = lines[i];
        let lc = chars_of(line);
        let m = contains_chars(&lc, &q);
        proof {
            assert(lines@[i as int]@ == lines.deep_view()[i as int]);
        }
        if m {
            let ghost prev = r;
            r.push(line);
            proof {
                lemma_push_deep_view(prev, r, line);
                reveal(Seq::filter);
                let dv = spec_lines(content@);
                let a = dv.subrange(0, i + 1);
                assert(a.drop_last() =~= dv.subrange(0, i as int));
                assert(a.last() == dv[i as int]);
                assert(match_pred(query@)(a.last()));
            }
        } else {
            proof {
                reveal(Seq::filter);
                let dv = spec_lines(content@);
                let a = dv.subrange(0, i + 1);
                assert(a.drop_last() =~= dv.subrange(0, i as int));
                assert(a.last() == dv[i as int]);
                assert(!match_pred(query@)(a.last()));
            }
        }
        i = i + 1;
    }
    proof {
        assert(spec_lines(content@).subrange(0, n as int) =~= spec_lines(content@));
    }
    r
}

/// Case-insensitive search: every line of `content` that contains `query`
/// once both are case folded, returned unfolded, in source order.
pub fn search_case_insensitive<'a>(query: &str, content: &'a str) -> (r: Vec<&'a str>)
    ensures
        r.deep_view() == spec_search_ci(query@, content@),
{
    let lines = split_lines(content);
    let qc = chars_of(query);
    let q = lower_chars(&qc);
    let mut r: Vec<&'a str> = Vec::new();
    let n = lines.len();
    let mut i: usize = 0;
    proof {
        reveal(Seq::filter);
        assert(spec_lines(content@).subrange(0, 0) =~= Seq::<Seq<char>>::empty());
        assert(r.deep_view() =~= Seq::<Seq<char>>::empty().filter(ci_match_pred(query@)));
    }
    while i < n
        invariant
            n == lines@.len(),
            i <= n,
            lines.deep_view() == spec_lines(content@),
            q@ == fold_lower(query@),
            r.deep_view() == spec_lines(content@).subrange(0, i as int).filter(
                ci_match_pred(query@),
            ),
        decreases n - i,
    {
        let line = lines[i];
        let lc = chars_of(line);
        let ll = lower_chars(&lc);
        let m = contains_chars(&ll, &q);
        proof {
            assert(lines@[i as int]@ == lines.deep_view()[i as int]);
        }
        if m {
            let ghost prev = r;
            r.push(line);
            proof {
                lemma_push_deep_view(prev, r, line);
                reveal(Seq::filter);
                let dv = spec_lines(content@);
                let a = dv.subrange(0, i + 1);
                assert(a.drop_last() =~= dv.subrange(0, i as int));
                assert(a.last() == dv[i as int]);
                assert(ci_match_pred(query@)(a.last()));
            }
        } else {
            proof {
                reveal(Seq::filter);
                let dv = spec_lines(content@);
                let a = dv.subrange(0, i + 1);
                assert(a.drop_last() =~= dv.subrange(0, i as int));
                assert(a.last() == dv[i as int]);
                assert(!ci_match_pred(query@)(a.last()));
            }
        }
        i = i + 1;
    }
    proof {
        assert(spec_lines(content@).subrange(0, n as int) =~= spec_lines(content@));
    }
    r
}

/// The text that a run actually searches: the preloaded content when it was
/// captured from a piped source, else the file content handed in.
pub open spec fn spec_selected_content(config: Config, file_content: Seq<char>) -> Seq<char> {
    match config.content {
        Some(s) => s@,
        None => file_content,
    }
}

/// The orchestrator's dispatch, once the content is at hand: searches the
/// selected content for the configured query in the configured mode.
pub fn run_search<'a>(config: &'a Config, file_content: &'a str) -> (r: Vec<&'a str>)
    ensures
        r.deep_view() == (if config.params.ignore_case {
            spec_search_ci(config.query@, spec_selected_content(*config, file_content@))
        } else {
            spec_search(config.query@, spec_selected_content(*config, file_content@))
        }),
{
    let content: &str = match &config.content {
        Some(v) => v.as_str(),
        None => file_content,
    };
    if config.params.ignore_case {
        search_case_insensitive(config.query.as_str(), content)
    } else {
        search(config.query.as_str(), content)
    }
}

} // verus!
