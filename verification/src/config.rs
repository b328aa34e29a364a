//! Configuration resolution: derive the query, the file name and the case
//! sensitivity of one search from raw command-line arguments and from the
//! presence of one environment variable, both handed in as plain values.

use vstd::prelude::*;

use crate::search::search;
use crate::search::search_case_insensitive;
use crate::search::search_result_spec;

verus! {

/// Why a configuration could not be resolved.
#[derive(Clone, Copy, Debug, PartialEq, Eq, Structural)]
pub enum ConfigError {
    /// No query argument was supplied.
    MissingQuery,
    /// No file-name argument was supplied.
    MissingFilename,
}

/// A resolved search configuration: what to look for, in which file, and
/// whether letter case matters.
pub struct Config {
    pub query: String,
    pub filename: String,
    pub case_sensitive: bool,
}

/// The case sensitivity that a list of arguments and the environment
/// resolve to. A fourth argument equal to `"i"` forces case-insensitive
/// search; any other fourth argument, or none, leaves the decision to the
/// environment variable, whose presence alone (`env_set`) selects
/// case-insensitive search.
pub open spec fn resolved_case_sensitive(args: Seq<Seq<char>>, env_set: bool) -> bool {
    if args.len() >= 4 && args[3] == "i"@ {
        false
    } else {
        !env_set
    }
}

impl Config {
    /// Resolve a configuration from raw arguments.
    ///
    /// `args` is read positionally: its first element is the program name
    /// and is ignored; the second becomes the query; the third becomes the
    /// file name; an optional fourth may override case sensitivity.
    /// `case_insensitive_env_set` says whether the environment variable
    /// `CASE_INSENSITIVE` is set, to any value at all.
    pub fn new(args: &Vec<String>, case_insensitive_env_set: bool) -> (r: Result<
        Config,
        ConfigError,
    >)
        ensures
            args@.len() <= 1 ==> r == Err::<Config, ConfigError>(ConfigError::MissingQuery),
            args@.len() == 2 ==> r == Err::<Config, ConfigError>(ConfigError::MissingFilename),
            args@.len() >= 3 ==> {
                &&& r is Ok
                &&& r->Ok_0.query@ == args.deep_view()[1]
                &&& r->Ok_0.filename@ == args.deep_view()[2]
                &&& r->Ok_0.case_sensitive == resolved_case_sensitive(
                    args.deep_view(),
                    case_insensitive_env_set,
                )
            },
    {
        if args.len() <= 1 {
            return Err(ConfigError::MissingQuery);
        }
        if args.len() == 2 {
            return Err(ConfigError::MissingFilename);
        }
        let query: String = args[1].clone();
        let filename: String = args[2].clone();
        let case_sensitive: bool = if args.len() >= 4 {
            let token: String = "i".to_owned();
            if args[3] == token {
                false
            } else {
                !case_insensitive_env_set
            }
        } else {
            !case_insensitive_env_set
        };
        Ok(Config { query, filename, case_sensitive })
    }

    /// The lines of `contents` that match this configuration's query under
    /// its case-sensitivity mode, in their original order. Each returned
    /// line is a slice of `contents` itself.
    pub fn matching_lines<'a>(&self, contents: &'a str) -> (r: Vec<&'a str>)
        ensures
            r.deep_view() == search_result_spec(self.case_sensitive, self.query@, contents@),
    {
        if self.case_sensitive {
            search(self.query.as_str(), contents)
        } else {
            search_case_insensitive(self.query.as_str(), contents)
        }
    }
}

} // verus!
