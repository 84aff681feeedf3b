//! Collecting the pool of choices from lines of input, some of which may
//! have failed to decode.

use vstd::prelude::*;
use crate::search::lines;
use crate::text::{trim, trimmed};

verus! {

/// The state of a load, as mathematical values.
pub struct LoaderModel {
    /// The choices accepted so far, in input order.
    pub lines: Seq<Seq<char>>,
    /// The message of the first line that failed, if any did.
    pub first_error: Option<Seq<char>>,
    /// How many lines failed after the first one.
    pub suppressed: nat,
}

impl LoaderModel {
    /// A load that has seen nothing yet.
    pub open spec fn initial() -> LoaderModel {
        LoaderModel { lines: Seq::empty(), first_error: None, suppressed: 0 }
    }

    /// The load after a line was read: the line, without the line ends at
    /// its end, is the next choice.
    pub open spec fn accept(self, line: Seq<char>) -> LoaderModel {
        LoaderModel { lines: self.lines.push(trimmed(line)), ..self }
    }

    /// The load after a line failed to decode: the first failure is kept to
    /// be reported, later ones are only counted. The count stops at `limit`.
    pub open spec fn reject(self, message: Seq<char>, limit: nat) -> LoaderModel {
        match self.first_error {
            None => LoaderModel { first_error: Some(message), ..self },
            Some(_) => LoaderModel {
                suppressed: if self.suppressed < limit {
                    self.suppressed + 1
                } else {
                    self.suppressed
                },
                ..self
            },
        }
    }
}

/// Collects choices line by line; failures do not interrupt the load.
pub struct ChoiceLoader {
    lines: Vec<String>,
    first_error: Option<String>,
    suppressed: usize,
}

impl View for ChoiceLoader {
    type V = LoaderModel;

    closed spec fn view(&self) -> LoaderModel {
        LoaderModel {
            lines: lines(self.lines@),
            first_error: match self.first_error {
                Some(message) => Some(message@),
                None => None,
            },
            suppressed: self.suppressed as nat,
        }
    }
}

impl ChoiceLoader {
    /// A load that has seen nothing yet.
    pub fn new() -> (loader: ChoiceLoader)
        ensures
            loader@ == LoaderModel::initial(),
    {
        let loader = ChoiceLoader { lines: Vec::new(), first_error: None, suppressed: 0 };
        proof {
            assert(loader@.lines =~= Seq::<Seq<char>>::empty());
        }
        loader
    }

    /// Takes a line that was read, with or without its line end.
    pub fn accept(&mut self, line: String)
        ensures
            final(self)@ == old(self)@.accept(line@),
    {
        let mut text = line;
        trim(&mut text);
        let ghost cut = text@;
        self.lines.push(text);
        proof {
            assert(lines(self.lines@) =~= lines(old(self).lines@).push(cut));
        }
    }

    /// Takes note of a line that failed to decode.
    pub fn reject(&mut self, message: String)
        ensures
            final(self)@ == old(self)@.reject(message@, usize::MAX as nat),
    {
        match &self.first_error {
            Some(_) => {
                if self.suppressed < usize::MAX {
                    self.suppressed = self.suppressed + 1;
                }
            },
            None => {
                self.first_error = Some(message);
            },
        }
    }

    /// The message of the first line that failed, if any did, to be reported
    /// once the session is over.
    pub fn first_error(&self) -> (r: Option<&str>)
        ensures
            match r {
                Some(message) => self@.first_error == Some(message@),
                None => self@.first_error is None,
            },
    {
        match &self.first_error {
            Some(message) => Some(message.as_str()),
            None => None,
        }
    }

    /// How many lines failed after the first one.
    pub fn suppressed(&self) -> (r: usize)
        ensures
            r == self@.suppressed,
    {
        self.suppressed
    }

    /// The choices, in input order.
    pub fn into_choices(self) -> (r: Vec<String>)
        ensures
            lines(r@) == self@.lines,
    {
        self.lines
    }
}

} // verus!
