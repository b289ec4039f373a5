//! The option resolver: it separates flag tokens from positional tokens,
//! validates the flags, and resolves the effective options from flag
//! presence and the environment override.

use vstd::prelude::*;

verus! {

use crate::config::ConfigError;
use crate::text::str_eq;

/// The resolved options of a run.
pub struct Parameters {
    pub ignore_case: bool,
}

/// A successful resolution: either the options together with the positional
/// tokens, or an informational outcome that bypasses everything else.
pub enum Resolution {
    Options(Parameters, Vec<String>),
    Help,
    Version,
}

/// A token that looks like a flag: it begins with `-`.
pub open spec fn is_flag_token(t: Seq<char>) -> bool {
    t.len() > 0 && t[0] == '-'
}

/// A spelling of the help flag.
pub open spec fn spec_is_help(t: Seq<char>) -> bool {
    t == "--help"@ || t == "-h"@
}

/// A spelling of the version flag.
pub open spec fn spec_is_version(t: Seq<char>) -> bool {
    t == "--version"@ || t == "-v"@
}

/// A spelling of the ignore-case flag.
pub open spec fn spec_is_ignore_case(t: Seq<char>) -> bool {
    t == "--ignore_case"@ || t == "-ic"@
}

/// A flag spelling the resolver recognizes.
pub open spec fn flag_recognized(t: Seq<char>) -> bool {
    spec_is_help(t) || spec_is_version(t) || spec_is_ignore_case(t)
}

/// A flag candidate that the resolver does not recognize.
pub open spec fn bad_flag(t: Seq<char>) -> bool {
    is_flag_token(t) && !flag_recognized(t)
}

/// A flag token that requests an informational outcome.
pub open spec fn info_flag(t: Seq<char>) -> bool {
    is_flag_token(t) && (spec_is_help(t) || spec_is_version(t))
}

/// The command-line tokens after the program name.
pub open spec fn spec_tokens(args: Seq<Seq<char>>) -> Seq<Seq<char>> {
    if args.len() == 0 {
        Seq::empty()
    } else {
        args.skip(1)
    }
}

/// Keeps only the tokens that are not flag candidates.
pub open spec fn not_flag_pred() -> spec_fn(Seq<char>) -> bool {
    |t: Seq<char>| !is_flag_token(t)
}

/// The positional tokens: the non-flag tokens, in their original order.
pub open spec fn spec_positional(toks: Seq<Seq<char>>) -> Seq<Seq<char>> {
    toks.filter(not_flag_pred())
}

pub open spec fn has_bad_flag(toks: Seq<Seq<char>>) -> bool {
    exists|i: int| 0 <= i < toks.len() && bad_flag(#[trigger] toks[i])
}

pub open spec fn has_info_flag(toks: Seq<Seq<char>>) -> bool {
    exists|i: int| 0 <= i < toks.len() && info_flag(#[trigger] toks[i])
}

/// An ignore-case flag occurs among the first `n` tokens.
pub open spec fn has_ignore_case_flag_up_to(toks: Seq<Seq<char>>, n: int) -> bool {
    exists|i: int| 0 <= i < n && is_flag_token(#[trigger] toks[i]) && spec_is_ignore_case(toks[i])
}

pub open spec fn has_ignore_case_flag(toks: Seq<Seq<char>>) -> bool {
    has_ignore_case_flag_up_to(toks, toks.len() as int)
}

/// Index of the first unrecognized flag token, or `toks.len()` when every
/// flag token is recognized.
pub open spec fn first_bad_flag(toks: Seq<Seq<char>>) -> int
    decreases toks.len(),
{
    if toks.len() == 0 {
        0
    } else if bad_flag(toks[0]) {
        0
    } else {
        1 + first_bad_flag(toks.skip(1))
    }
}

/// Index of the first informational flag token, or `toks.len()` when there
/// is none.
pub open spec fn first_info_flag(toks: Seq<Seq<char>>) -> int
    decreases toks.len(),
{
    if toks.len() == 0 {
        0
    } else if info_flag(toks[0]) {
        0
    } else {
        1 + first_info_flag(toks.skip(1))
    }
}

pub proof fn lemma_first_bad_flag_at(toks: Seq<Seq<char>>, k: int)
    requires
        0 <= k < toks.len(),
        bad_flag(toks[k]),
        forall|j: int| 0 <= j < k ==> !bad_flag(#[trigger] toks[j]),
    ensures
        first_bad_flag(toks) == k,
        has_bad_flag(toks),
    decreases toks.len(),
{
    if k > 0 {
        let t = toks.skip(1);
        assert forall|j: int| 0 <= j < k - 1 implies !bad_flag(#[trigger] t[j]) by {
            assert(!bad_flag(toks[j + 1]));
        }
        assert(t[k - 1] == toks[k]);
        lemma_first_bad_flag_at(t, k - 1);
    }
}

pub proof fn lemma_first_info_flag_at(toks: Seq<Seq<char>>, k: int)
    requires
        0 <= k < toks.len(),
        info_flag(toks[k]),
        forall|j: int| 0 <= j < k ==> !info_flag(#[trigger] toks[j]),
    ensures
        first_info_flag(toks) == k,
        has_info_flag(toks),
    decreases toks.len(),
{
    if k > 0 {
        let t = toks.skip(1);
        assert forall|j: int| 0 <= j < k - 1 implies !info_flag(#[trigger] t[j]) by {
            assert(!info_flag(toks[j + 1]));
        }
        assert(t[k - 1] == toks[k]);
        lemma_first_info_flag_at(t, k - 1);
    }
}

/// Whether the token begins with `-`.
fn is_flag(t: &str) -> (r: bool)
    ensures
        r == is_flag_token(t@),
{
    if t.unicode_len() == 0 {
        false
    } else {
        t.get_char(0) == '-'
    }
}

fn token_is_help(t: &str) -> (r: bool)
    ensures
        r == spec_is_help(t@),
{
    if str_eq(t, "--help") {
        true
    } else {
        str_eq(t, "-h")
    }
}

fn token_is_version(t: &str) -> (r: bool)
    ensures
        r == spec_is_version(t@),
{
    if str_eq(t, "--version") {
        true
    } else {
        str_eq(t, "-v")
    }
}

fn token_is_ignore_case(t: &str) -> (r: bool)
    ensures
        r == spec_is_ignore_case(t@),
{
    if str_eq(t, "--ignore_case") {
        true
    } else {
        str_eq(t, "-ic")
    }
}

fn token_recognized(t: &str) -> (r: bool)
    ensures
        r == flag_recognized(t@),
{
    if token_is_help(t) {
        true
    } else if token_is_version(t) {
        true
    } else {
        token_is_ignore_case(t)
    }
}

impl Parameters {
    /// Resolves the options and positional tokens of a run from the raw
    /// command-line tokens (program name first) and the presence of the
    /// ignore-case environment override.
    ///
    /// The first unrecognized flag token fails the whole resolution; a help
    /// or version flag short-circuits it with an informational outcome;
    /// otherwise the positional tokens are handed back in order, and
    /// ignore-case holds when the flag was given or the environment
    /// override is present.
    pub fn build(args: &Vec<String>, env_ignore_case: bool) -> (r: Result<
        Resolution,
        ConfigError,
    >)
        ensures
            ({
                let toks = spec_tokens(args.deep_view());
                &&& has_bad_flag(toks) ==> (r matches Err(ConfigError::InvalidParameter(t))
                    && t@ == toks[first_bad_flag(toks)])
                &&& !has_bad_flag(toks) && has_info_flag(toks) ==> r == Ok::<
                    Resolution,
                    ConfigError,
                >(
                    if spec_is_help(toks[first_info_flag(toks)]) {
                        Resolution::Help
                    } else {
                        Resolution::Version
                    },
                )
                &&& !has_bad_flag(toks) && !has_info_flag(toks) ==> (r matches Ok(
                    Resolution::Options(params, positional),
                ) && params.ignore_case == (env_ignore_case || has_ignore_case_flag(toks))
                    && positional.deep_view() == spec_positional(toks))
            }),
    {
        let ghost toks = spec_tokens(args.deep_view());
        let n = args.len();

        let mut i: usize = 0;
        while i + 1 < n
            invariant
                n == args@.len(),
                toks == spec_tokens(args.deep_view()),
                n >= 1 ==> i <= n - 1,
                n == 0 ==> i == 0,
                forall|j: int| 0 <= j < i ==> !bad_flag(#[trigger] toks[j]),
            decreases n - i,
        {
            let t = &args[i + 1];
            proof {
                assert(toks[i as int] == args.deep_view()[i + 1]);
                assert(args.deep_view()[i + 1] == args@[i + 1]@);
            }
            if is_flag(t.as_str()) {
                if !token_recognized(t.as_str()) {
                    proof {
                        lemma_first_bad_flag_at(toks, i as int);
                    }
                    return Err(ConfigError::InvalidParameter(t.clone()));
                }
            }
            i = i + 1;
        }
        proof {
            assert(toks.len() == if n == 0 { 0int } else { n - 1 });
            assert(!has_bad_flag(toks));
        }

        let mut i: usize = 0;
        while i + 1 < n
            invariant
                n == args@.len(),
                toks == spec_tokens(args.deep_view()),
                n >= 1 ==> i <= n - 1,
                n == 0 ==> i == 0,
                !has_bad_flag(toks),
                forall|j: int| 0 <= j < i ==> !info_flag(#[trigger] toks[j]),
            decreases n - i,
        {
            let t = &args[i + 1];
            proof {
                assert(toks[i as int] == args.deep_view()[i + 1]);
                assert(args.deep_view()[i + 1] == args@[i + 1]@);
            }
            if is_flag(t.as_str()) {
                if token_is_help(t.as_str()) {
                    proof {
                        lemma_first_info_flag_at(toks, i as int);
                    }
                    return Ok(Resolution::Help);
                }
                if token_is_version(t.as_str()) {
                    proof {
                        lemma_first_info_flag_at(toks, i as int);
                    }
                    return Ok(Resolution::Version);
                }
            }
            i = i + 1;
        }
        proof {
            assert(!has_info_flag(toks));
        }

        let mut positional: Vec<String> = Vec::new();
        let mut ignore_case = env_ignore_case;
        let mut i: usize = 0;
        proof {
            reveal(Seq::filter);
            assert(toks.subrange(0, 0) =~= Seq::<Seq<char>>::empty());
            assert(positional.deep_view() =~= Seq::<Seq<char>>::empty().filter(not_flag_pred()));
        }
        while i + 1 < n
            invariant
                n == args@.len(),
                toks == spec_tokens(args.deep_view()),
                n >= 1 ==> i <= n - 1,
                n == 0 ==> i == 0,
                !has_bad_flag(toks),
                !has_info_flag(toks),
                positional.deep_view() == toks.subrange(0, i as int).filter(not_flag_pred()),
                ignore_case == (env_ignore_case || has_ignore_case_flag_up_to(toks, i as int)),
            decreases n - i,
        {
            let t = &args[i + 1];
            proof {
                assert(toks[i as int] == args.deep_view()[i + 1]);
                assert(args.deep_view()[i + 1] == args@[i + 1]@);
            }
            if is_flag(t.as_str()) {
                if token_is_ignore_case(t.as_str()) {
                    ignore_case = true;
                }
                proof {
                    reveal(Seq::filter);
                    let a = toks.subrange(0, i + 1);
                    assert(a.drop_last() =~= toks.subrange(0, i as int));
                    assert(a.last() == toks[i as int]);
                    assert(!not_flag_pred()(a.last()));
                    assert(has_ignore_case_flag_up_to(toks, i + 1) == (has_ignore_case_flag_up_to(
                        toks,
                        i as int,
                    ) || spec_is_ignore_case(toks[i as int])));
                }
            } else {
                let ghost prev = positional;
                positional.push(t.clone());
                proof {
                    lemma_push_deep_view_string(prev, positional, args@[i + 1]);
                    reveal(Seq::filter);
                    let a = toks.subrange(0, i + 1);
                    assert(a.drop_last() =~= toks.subrange(0, i as int));
                    assert(a.last() == toks[i as int]);
                    assert(not_flag_pred()(a.last()));
                    assert(has_ignore_case_flag_up_to(toks, i + 1) == has_ignore_case_flag_up_to(
                        toks,
                        i as int,
                    ));
                }
            }
            i = i + 1;
        }
        proof {
            if n >= 1 {
                assert(toks.subrange(0, n - 1) =~= toks);
            } else {
                assert(toks.subrange(0, 0) =~= toks);
            }
            assert(has_ignore_case_flag_up_to(toks, toks.len() as int) == has_ignore_case_flag(
                toks,
            ));
        }
        Ok(Resolution::Options(Parameters { ignore_case }, positional))
    }
}

/// Pushing onto a vector of strings pushes the string's view onto the
/// vector's deep view.
proof fn lemma_push_deep_view_string(v1: Vec<String>, v2: Vec<String>, x: String)
    requires
        v2@ == v1@.push(x),
    ensures
        v2.deep_view() == v1.deep_view().push(x@),
{
    assert(v2.deep_view() =~= v1.deep_view().push(x@));
}

} // verus!
