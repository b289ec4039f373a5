//! The search configuration: built once per run from the raw command-line
//! tokens, the optionally piped content, and the environment override.

use vstd::prelude::*;

pub mod parameters;

pub use parameters::Parameters;
pub use parameters::Resolution;

verus! {

use crate::config::parameters::first_bad_flag;
use crate::config::parameters::first_info_flag;
use crate::config::parameters::has_bad_flag;
use crate::config::parameters::has_ignore_case_flag;
use crate::config::parameters::has_info_flag;
use crate::config::parameters::spec_is_help;
use crate::config::parameters::spec_positional;
use crate::config::parameters::spec_tokens;

/// Why a configuration could not be built.
#[derive(Debug)]
pub enum ConfigError {
    /// The query is missing, or the path is missing while no piped content
    /// is available.
    NotEnoughArguments,
    /// An unrecognized flag token, carried along.
    InvalidParameter(String),
}

/// A resolved run: search for `query` in the file at `path`, or directly in
/// `content` when it was already captured from a piped source.
pub struct Config {
    pub query: String,
    pub path: String,
    pub content: Option<String>,
    pub params: Parameters,
}

/// The outcome of building a configuration: a search to run, or an
/// informational outcome requested by a flag.
pub enum BuildOutcome {
    Search(Config),
    Help,
    Version,
}

impl Config {
    /// Builds the configuration of a run from the raw command-line tokens
    /// (program name first), the piped content if any was captured, and the
    /// presence of the ignore-case environment override.
    ///
    /// A query is always mandatory; a path is mandatory unless content was
    /// already captured. A help or version flag bypasses those checks; an
    /// unrecognized flag token fails the whole build.
    pub fn build(args: Vec<String>, content: Option<String>, env_ignore_case: bool) -> (r: Result<
        BuildOutcome,
        ConfigError,
    >)
        ensures
            ({
                let toks = spec_tokens(args.deep_view());
                let pos = spec_positional(toks);
                &&& has_bad_flag(toks) ==> (r matches Err(ConfigError::InvalidParameter(t))
                    && t@ == toks[first_bad_flag(toks)])
                &&& !has_bad_flag(toks) && has_info_flag(toks) ==> r == Ok::<
                    BuildOutcome,
                    ConfigError,
                >(
                    if spec_is_help(toks[first_info_flag(toks)]) {
                        BuildOutcome::Help
                    } else {
                        BuildOutcome::Version
                    },
                )
                &&& !has_bad_flag(toks) && !has_info_flag(toks) && (pos.len() == 0 || (pos.len()
                    == 1 && content is None)) ==> r == Err::<BuildOutcome, ConfigError>(
                    ConfigError::NotEnoughArguments,
                )
                &&& !has_bad_flag(toks) && !has_info_flag(toks) && pos.len() >= 1 && (pos.len()
                    >= 2 || content is Some) ==> (r matches Ok(BuildOutcome::Search(c))
                    && c.query@ == pos[0] && c.path@ == (if pos.len() >= 2 {
                    pos[1]
                } else {
                    Seq::<char>::empty()
                }) && c.content == content && c.params.ignore_case == (env_ignore_case
                    || has_ignore_case_flag(toks)))
            }),
    {
        match Parameters::build(&args, env_ignore_case) {
            Err(e) => Err(e),
            Ok(Resolution::Help) => Ok(BuildOutcome::Help),
            Ok(Resolution::Version) => Ok(BuildOutcome::Version),
            Ok(Resolution::Options(params, positional)) => {
                if positional.len() == 0 || (positional.len() == 1 && content.is_none()) {
                    Err(ConfigError::NotEnoughArguments)
                } else {
                    proof {
                        assert(positional.deep_view()[0] == positional@[0]@);
                        if positional@.len() >= 2 {
                            assert(positional.deep_view()[1] == positional@[1]@);
                        }
                    }
                    let query = positional[0].clone();
                    let path = if positional.len() >= 2 {
                        positional[1].clone()
                    } else {
                        String::new()
                    };
                    Ok(BuildOutcome::Search(Config { query, path, content, params }))
                }
            },
        }
    }
}

} // verus!
