//! The options of a run, and what they decide before a session begins.

use vstd::prelude::*;
use crate::matching::{compute_matches, filtered, ranked, texts};
use crate::search::matches_of;

verus! {

/// The options of a run.
pub struct Args {
    /// The query with which the session begins.
    pub initial_search: String,
    /// Whether only the usage was asked for.
    pub help: bool,
    /// Whether the first match is to be chosen without a session.
    pub use_first: bool,
    /// Whether only the version was asked for.
    pub version: bool,
    /// Whether the whole screen is to be used for the list.
    pub full_screen: bool,
    /// Whether choices are only filtered, not ranked.
    pub filter_only: bool,
}

/// What a run does.
#[derive(Debug, PartialEq, Eq, Copy, Clone, Structural)]
pub enum Mode {
    /// The usage was shown; nothing else happens.
    Help,
    /// The version is shown; nothing else happens.
    Version,
    /// The first match is printed, without a session.
    First,
    /// A session is run on the terminal.
    Interactive,
}

/// The number of rows asked for where the list is to use the whole screen:
/// more than any window has.
pub const FULL_SCREEN_ROWS: u16 = 999;

/// The number of rows asked for otherwise.
pub const DEFAULT_ROWS: u16 = 20;

impl Args {
    /// What the run does: a request for the usage or for the version comes
    /// before everything else, so that then no choices are read and no
    /// session is run.
    pub fn mode(&self) -> (m: Mode)
        ensures
            m == if self.help {
                Mode::Help
            } else if self.version {
                Mode::Version
            } else if self.use_first {
                Mode::First
            } else {
                Mode::Interactive
            },
    {
        if self.help {
            Mode::Help
        } else if self.version {
            Mode::Version
        } else if self.use_first {
            Mode::First
        } else {
            Mode::Interactive
        }
    }

    /// The number of rows of choices that the session asks for.
    pub fn desired_rows(&self) -> (rows: u16)
        ensures
            rows == if self.full_screen {
                FULL_SCREEN_ROWS
            } else {
                DEFAULT_ROWS
            },
    {
        if self.full_screen {
            FULL_SCREEN_ROWS
        } else {
            DEFAULT_ROWS
        }
    }
}

/// The first of the choices that `query` matches, or the empty text where
/// it matches none.
pub fn first_match<'a>(choices: &[&'a str], query: &str, filter_only: bool) -> (r: &'a str)
    ensures
        r@ == if matches_of(texts(choices@), query@, filter_only).len() > 0 {
            matches_of(texts(choices@), query@, filter_only)[0]
        } else {
            Seq::<char>::empty()
        },
{
    let matches = compute_matches(choices, query, filter_only);
    if matches.len() > 0 {
        proof {
            assert(texts(matches@)[0] == matches@[0]@);
        }
        matches[0]
    } else {
        proof {
            reveal_strlit("");
            assert(texts(matches@).len() == 0);
        }
        ""
    }
}

} // verus!
