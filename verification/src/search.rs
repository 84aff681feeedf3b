//! The search session: the query, the cached matches, the cursor within a
//! bounded window over them, and the selections.

use vstd::arithmetic::div_mod::lemma_add_mod_noop_right;
use vstd::prelude::*;
use vstd::slice::slice_to_vec;
use crate::matching::{compute_matches, filtered, ranked, texts};
use crate::screen::Key;
use crate::subsequence::is_match;
use crate::text::{delete_last_word, without_last_word};

verus! {

/// Where a session stands: still running, or ended by a choice or by a
/// cancellation.
#[derive(PartialEq, Eq, Clone, Copy, Debug, Structural)]
pub enum SearchState {
    InProgress,
    Done,
    Canceled,
}

/// The state of a search session, as mathematical values.
pub struct SearchModel {
    /// The pool of choices, in input order.
    pub choices: Seq<Seq<char>>,
    /// The query as typed so far.
    pub query: Seq<char>,
    /// The cached matches; row `n` of the list is `matches[n]`.
    pub matches: Seq<Seq<char>>,
    /// Whether the query was edited since the matches were computed.
    pub stale: bool,
    /// The index in `matches` of the first visible row.
    pub scroll_offset: nat,
    /// The highlighted row, counted from the first visible row.
    pub cursor_index: nat,
    pub state: SearchState,
    /// The selected choices, in the order in which they were selected.
    pub selections: Seq<Seq<char>>,
    /// Whether matches are only filtered, not ranked.
    pub filter_only: bool,
}

/// The choices, out of `candidates`, that `query` matches: in their order
/// where `filter_only` is set, ranked by score otherwise.
pub open spec fn matches_of(
    candidates: Seq<Seq<char>>,
    query: Seq<char>,
    filter_only: bool,
) -> Seq<Seq<char>> {
    if filter_only {
        filtered(candidates, query)
    } else {
        ranked(candidates, query)
    }
}

/// The selections, each followed by the line terminator, as one text.
pub open spec fn join_lines(lines: Seq<Seq<char>>, newline: Seq<char>) -> Seq<char>
    decreases lines.len(),
{
    if lines.len() == 0 {
        Seq::empty()
    } else {
        join_lines(lines.drop_last(), newline) + lines.last() + newline
    }
}

impl SearchModel {
    /// The index in `matches` of the highlighted row.
    pub open spec fn position(self) -> nat {
        self.scroll_offset + self.cursor_index
    }

    /// The invariant of a session: the highlighted row is a row of the
    /// matches, or the first row where there are none; no choice is selected
    /// twice; and matches that are not stale all match the query.
    pub open spec fn wf(self) -> bool {
        &&& if self.matches.len() == 0 {
            self.position() == 0
        } else {
            self.position() < self.matches.len()
        }
        &&& self.selections.no_duplicates()
        &&& !self.stale ==> forall|k: int|
            0 <= k < self.matches.len() ==> is_match(#[trigger] self.matches[k], self.query)
    }

    /// Whether the highlighted row lies within a window of `visible` rows.
    pub open spec fn fits(self, visible: nat) -> bool {
        self.cursor_index < visible
    }

    /// The session with the cursor moved.
    pub open spec fn with_cursor(self, scroll_offset: nat, cursor_index: nat) -> SearchModel {
        SearchModel { scroll_offset, cursor_index, ..self }
    }

    /// The session at its start.
    pub open spec fn initial(
        choices: Seq<Seq<char>>,
        query: Seq<char>,
        filter_only: bool,
    ) -> SearchModel {
        SearchModel {
            choices,
            query,
            matches: choices,
            stale: true,
            scroll_offset: 0,
            cursor_index: 0,
            state: SearchState::InProgress,
            selections: Seq::empty(),
            filter_only,
        }
    }

    /// One row up. From the first match this wraps to the last one, and the
    /// window then shows the tail of the matches. Nothing moves where there
    /// are no matches or no visible rows.
    pub open spec fn up(self, visible: nat) -> SearchModel {
        let count = self.matches.len();
        if count == 0 || visible == 0 {
            self
        } else if self.cursor_index > 0 {
            self.with_cursor(self.scroll_offset, (self.cursor_index - 1) as nat)
        } else if self.scroll_offset > 0 {
            self.with_cursor((self.scroll_offset - 1) as nat, 0)
        } else if count > visible {
            self.with_cursor((count - visible) as nat, (visible - 1) as nat)
        } else {
            self.with_cursor(0, (count - 1) as nat)
        }
    }

    /// One row down. The cursor moves within the window while it can; at the
    /// last visible row the window scrolls; from the last match this wraps to
    /// the first one. Nothing moves where there are no matches or no visible
    /// rows.
    pub open spec fn down(self, visible: nat) -> SearchModel {
        let count = self.matches.len();
        if count == 0 || visible == 0 {
            self
        } else if self.position() + 1 >= count {
            self.with_cursor(0, 0)
        } else if self.cursor_index + 1 < visible {
            self.with_cursor(self.scroll_offset, self.cursor_index + 1)
        } else {
            self.with_cursor(self.scroll_offset + 1, self.cursor_index)
        }
    }

    /// To the first match.
    pub open spec fn home(self) -> SearchModel {
        self.with_cursor(0, 0)
    }

    /// To the last match.
    pub open spec fn end(self, visible: nat) -> SearchModel {
        self.home().up(visible)
    }

    /// Up to `steps` rows up, stopping at the first match.
    pub open spec fn rows_up(self, visible: nat, steps: nat) -> SearchModel
        decreases steps,
    {
        if steps == 0 || self.position() == 0 {
            self
        } else {
            self.up(visible).rows_up(visible, (steps - 1) as nat)
        }
    }

    /// Up to `steps` rows down, stopping at the last match.
    pub open spec fn rows_down(self, visible: nat, steps: nat) -> SearchModel
        decreases steps,
    {
        if steps == 0 || self.position() + 1 >= self.matches.len() {
            self
        } else {
            self.down(visible).rows_down(visible, (steps - 1) as nat)
        }
    }

    /// One page up: as many rows as are visible, stopping at the first match.
    pub open spec fn pgup(self, visible: nat) -> SearchModel {
        self.rows_up(visible, visible)
    }

    /// One page down: as many rows as are visible, stopping at the last
    /// match.
    pub open spec fn pgdown(self, visible: nat) -> SearchModel {
        self.rows_down(visible, visible)
    }

    /// The session after an edit that left `query`: the matches are stale and
    /// the cursor is back on the first row.
    pub open spec fn edited(self, query: Seq<char>, matches: Seq<Seq<char>>) -> SearchModel {
        SearchModel { query, matches, stale: true, scroll_offset: 0, cursor_index: 0, ..self }
    }

    /// The character `c` typed at the end of the query. The matches so far
    /// stay the candidates, since a longer query can only match fewer.
    pub open spec fn append(self, c: char) -> SearchModel {
        self.edited(self.query.push(c), self.matches)
    }

    /// The last character of the query deleted; every choice is a candidate
    /// again.
    pub open spec fn backspace(self) -> SearchModel {
        self.edited(
            if self.query.len() > 0 {
                self.query.drop_last()
            } else {
                self.query
            },
            self.choices,
        )
    }

    /// The last word of the query deleted; every choice is a candidate again.
    pub open spec fn delete_word(self) -> SearchModel {
        self.edited(without_last_word(self.query), self.choices)
    }

    /// The query emptied; every choice is a candidate again.
    pub open spec fn clear_query(self) -> SearchModel {
        self.edited(Seq::empty(), self.choices)
    }

    /// The matches brought up to date with the query, where they are stale.
    /// The cursor stays where it is if that is still a row of the matches,
    /// and goes to the first row otherwise.
    pub open spec fn recompute(self) -> SearchModel {
        if self.stale {
            let matches = matches_of(self.matches, self.query, self.filter_only);
            if self.position() < matches.len() {
                SearchModel { matches, stale: false, ..self }
            } else {
                SearchModel { matches, stale: false, scroll_offset: 0, cursor_index: 0, ..self }
            }
        } else {
            self
        }
    }

    /// The choice on the highlighted row, or the empty text where there is
    /// no such row.
    pub open spec fn current(self) -> Seq<char> {
        if self.position() < self.matches.len() {
            self.matches[self.position() as int]
        } else {
            Seq::empty()
        }
    }

    /// The selections with the membership of `choice` flipped: a selected
    /// choice is taken out, another one is added at the end.
    pub open spec fn toggled(selections: Seq<Seq<char>>, choice: Seq<char>) -> Seq<Seq<char>> {
        if selections.contains(choice) {
            selections.remove(selections.index_of(choice))
        } else {
            selections.push(choice)
        }
    }

    /// The matches brought up to date, and the membership of the highlighted
    /// choice in the selections flipped.
    pub open spec fn toggle_selection(self) -> SearchModel {
        let fresh = self.recompute();
        SearchModel { selections: Self::toggled(fresh.selections, fresh.current()), ..fresh }
    }

    /// The session canceled.
    pub open spec fn cancel(self) -> SearchModel {
        SearchModel { state: SearchState::Canceled, ..self }
    }

    /// The session ended with a choice.
    pub open spec fn done(self) -> SearchModel {
        SearchModel { state: SearchState::Done, ..self }
    }

    /// Whether the result of the session is the list of selections: the
    /// session was not canceled and that list, written out, is not empty.
    pub open spec fn has_selections(self, newline: Seq<char>) -> bool {
        self.state != SearchState::Canceled && join_lines(self.selections, newline).len() > 0
    }

    /// The session after its result was asked for: the matches are brought up
    /// to date where the highlighted choice is needed.
    pub open spec fn after_result(self, newline: Seq<char>) -> SearchModel {
        if self.state == SearchState::Canceled || self.has_selections(newline) {
            self
        } else {
            self.recompute()
        }
    }

    /// The result of the session: nothing where it was canceled; otherwise
    /// the selections, each followed by the line terminator; and where that
    /// is empty, the choice on the highlighted row.
    pub open spec fn result(self, newline: Seq<char>) -> Seq<char> {
        if self.state == SearchState::Canceled {
            Seq::empty()
        } else if self.has_selections(newline) {
            join_lines(self.selections, newline)
        } else {
            self.recompute().current()
        }
    }
}

/// Toggling a choice that is selected takes it out of the selections.
pub proof fn lemma_toggled_selected(selections: Seq<Seq<char>>, choice: Seq<char>, i: int)
    requires
        selections.no_duplicates(),
        0 <= i < selections.len(),
        selections[i] == choice,
    ensures
        SearchModel::toggled(selections, choice) == selections.remove(i),
        SearchModel::toggled(selections, choice).no_duplicates(),
        !SearchModel::toggled(selections, choice).contains(choice),
{
    assert(selections.contains(choice));
    let j = selections.index_of(choice);
    assert(selections[j] == choice);
    assert(j == i);
    let after = selections.remove(i);
    assert forall|a: int| 0 <= a < after.len() implies #[trigger] after[a] == selections[if a
        < i {
        a
    } else {
        a + 1
    }] by {}
    assert forall|a: int, b: int|
        0 <= a < after.len() && 0 <= b < after.len() && a != b implies after[a] != after[b] by {
        let a0 = if a < i {
            a
        } else {
            a + 1
        };
        let b0 = if b < i {
            b
        } else {
            b + 1
        };
        assert(after[a] == selections[a0]);
        assert(after[b] == selections[b0]);
    }
    if after.contains(choice) {
        let a = choose|a: int| 0 <= a < after.len() && after[a] == choice;
        let a0 = if a < i {
            a
        } else {
            a + 1
        };
        assert(after[a] == selections[a0]);
    }
}

/// Toggling a choice that is not selected adds it at the end of the
/// selections.
pub proof fn lemma_toggled_unselected(selections: Seq<Seq<char>>, choice: Seq<char>)
    requires
        selections.no_duplicates(),
        !selections.contains(choice),
    ensures
        SearchModel::toggled(selections, choice) == selections.push(choice),
        SearchModel::toggled(selections, choice).no_duplicates(),
        SearchModel::toggled(selections, choice).contains(choice),
{
    let after = selections.push(choice);
    assert(after[selections.len() as int] == choice);
    assert forall|a: int, b: int|
        0 <= a < after.len() && 0 <= b < after.len() && a != b implies after[a] != after[b] by {
        if a < selections.len() {
            assert(selections.contains(selections[a]));
        }
        if b < selections.len() {
            assert(selections.contains(selections[b]));
        }
    }
}

/// The texts of a sequence of owned strings.
pub open spec fn lines(v: Seq<String>) -> Seq<Seq<char>> {
    Seq::new(v.len(), |i: int| v[i]@)
}

/// A search session over a pool of choices.
pub struct Search<'a> {
    choices: &'a [&'a str],
    query: String,
    matches: Vec<&'a str>,
    stale: bool,
    scroll_offset: usize,
    cursor_index: usize,
    state: SearchState,
    selections: Vec<String>,
    filter_only: bool,
}

impl<'a> View for Search<'a> {
    type V = SearchModel;

    closed spec fn view(&self) -> SearchModel {
        SearchModel {
            choices: texts(self.choices@),
            query: self.query@,
            matches: texts(self.matches@),
            stale: self.stale,
            scroll_offset: self.scroll_offset as nat,
            cursor_index: self.cursor_index as nat,
            state: self.state,
            selections: lines(self.selections@),
            filter_only: self.filter_only,
        }
    }
}

impl<'a> Search<'a> {
    /// A session over `choices` that begins with the query `initial_search`.
    pub fn new(choices: &'a [&'a str], initial_search: String, filter_only: bool) -> (s: Search<'a>)
        ensures
            s@ == SearchModel::initial(texts(choices@), initial_search@, filter_only),
            s@.wf(),
    {
        let matches = slice_to_vec(choices);
        let s = Search {
            choices,
            query: initial_search,
            matches,
            stale: true,
            scroll_offset: 0,
            cursor_index: 0,
            state: SearchState::InProgress,
            selections: Vec::new(),
            filter_only,
        };
        proof {
            assert(s@.selections =~= Seq::<Seq<char>>::empty());
        }
        s
    }

    /// The query as typed so far.
    pub fn query(&self) -> (r: &str)
        ensures
            r@ == self@.query,
    {
        self.query.as_str()
    }

    /// The cached matches.
    pub fn matches(&self) -> (r: &[&'a str])
        ensures
            texts(r@) == self@.matches,
    {
        self.matches.as_slice()
    }

    /// The pool of choices.
    pub fn choices(&self) -> (r: &'a [&'a str])
        ensures
            texts(r@) == self@.choices,
    {
        self.choices
    }

    /// The selected choices, in the order in which they were selected.
    pub fn selections(&self) -> (r: &[String])
        ensures
            lines(r@) == self@.selections,
    {
        self.selections.as_slice()
    }

    /// The index in the matches of the first visible row.
    pub fn scroll_offset(&self) -> (r: usize)
        ensures
            r == self@.scroll_offset,
    {
        self.scroll_offset
    }

    /// The highlighted row, counted from the first visible row.
    pub fn cursor_index(&self) -> (r: usize)
        ensures
            r == self@.cursor_index,
    {
        self.cursor_index
    }

    /// Where the session stands.
    pub fn state(&self) -> (r: SearchState)
        ensures
            r == self@.state,
    {
        self.state
    }

    /// Whether the query was edited since the matches were computed.
    pub fn is_stale(&self) -> (r: bool)
        ensures
            r == self@.stale,
    {
        self.stale
    }

    /// Moves the cursor one row up.
    pub fn up(&mut self, visible_choices: u16)
        requires
            old(self)@.wf(),
        ensures
            final(self)@ == old(self)@.up(visible_choices as nat),
            final(self)@.wf(),
    {
        let match_count = self.matches.len();
        let visible = visible_choices as usize;
        if match_count == 0 || visible == 0 {
            return;
        }
        if self.cursor_index == 0 {
            if self.scroll_offset == 0 {
                if match_count > visible {
                    self.scroll_offset = match_count - visible;
                    self.cursor_index = visible - 1;
                } else {
                    self.cursor_index = match_count - 1;
                }
            } else {
                self.scroll_offset -= 1;
            }
        } else {
            self.cursor_index -= 1;
        }
    }

    /// Moves the cursor one row down.
    pub fn down(&mut self, visible_choices: u16)
        requires
            old(self)@.wf(),
        ensures
            final(self)@ == old(self)@.down(visible_choices as nat),
            final(self)@.wf(),
    {
        let match_count = self.matches.len();
        let visible = visible_choices as usize;
        if match_count == 0 || visible == 0 {
            return;
        }
        if self.cursor_index + self.scroll_offset == match_count - 1 {
            self.cursor_index = 0;
            self.scroll_offset = 0;
        } else if self.cursor_index + 1 < visible {
            self.cursor_index += 1;
        } else {
            self.scroll_offset += 1;
        }
    }

    /// Moves the cursor to the first match.
    pub fn home(&mut self)
        requires
            old(self)@.wf(),
        ensures
            final(self)@ == old(self)@.home(),
            final(self)@.wf(),
    {
        self.cursor_index = 0;
        self.scroll_offset = 0;
    }

    /// Moves the cursor to the last match.
    pub fn end(&mut self, visible_choices: u16)
        requires
            old(self)@.wf(),
        ensures
            final(self)@ == old(self)@.end(visible_choices as nat),
            final(self)@.wf(),
    {
        self.home();
        self.up(visible_choices);
    }

    /// Moves the cursor one page up.
    pub fn pgup(&mut self, visible_choices: u16)
        requires
            old(self)@.wf(),
        ensures
            final(self)@ == old(self)@.pgup(visible_choices as nat),
            final(self)@.wf(),
    {
        let ghost visible = visible_choices as nat;
        let mut left: u16 = visible_choices;
        while left > 0
            invariant
                visible == visible_choices as nat,
                self@.wf(),
                self@.rows_up(visible, left as nat) == old(self)@.rows_up(visible, visible),
            decreases left,
        {
            if self.scroll_offset == 0 && self.cursor_index == 0 {
                return;
            }
            self.up(visible_choices);
            left -= 1;
        }
    }

    /// Moves the cursor one page down.
    pub fn pgdown(&mut self, visible_choices: u16)
        requires
            old(self)@.wf(),
        ensures
            final(self)@ == old(self)@.pgdown(visible_choices as nat),
            final(self)@.wf(),
    {
        let ghost visible = visible_choices as nat;
        let mut left: u16 = visible_choices;
        while left > 0
            invariant
                visible == visible_choices as nat,
                self@.wf(),
                self@.rows_down(visible, left as nat) == old(self)@.rows_down(visible, visible),
            decreases left,
        {
            if self.matches.len() == 0 || self.scroll_offset + self.cursor_index
                == self.matches.len() - 1 {
                return;
            }
            self.down(visible_choices);
            left -= 1;
        }
    }

    /// Deletes the last character of the query.
    pub fn backspace(&mut self)
        requires
            old(self)@.wf(),
        ensures
            final(self)@ == old(self)@.backspace(),
            final(self)@.wf(),
    {
        self.query.pop();
        self.stale = true;
        self.cursor_index = 0;
        self.scroll_offset = 0;
        self.matches = slice_to_vec(self.choices);
    }

    /// Deletes the last word of the query.
    pub fn delete_word(&mut self)
        requires
            old(self)@.wf(),
        ensures
            final(self)@ == old(self)@.delete_word(),
            final(self)@.wf(),
    {
        self.stale = true;
        delete_last_word(&mut self.query);
        self.cursor_index = 0;
        self.scroll_offset = 0;
        self.matches = slice_to_vec(self.choices);
    }

    /// Types the character `c` at the end of the query.
    pub fn append(&mut self, c: char)
        requires
            old(self)@.wf(),
        ensures
            final(self)@ == old(self)@.append(c),
            final(self)@.wf(),
    {
        self.query.push(c);
        self.stale = true;
        self.cursor_index = 0;
        self.scroll_offset = 0;
    }

    /// Empties the query.
    pub fn clear_query(&mut self)
        requires
            old(self)@.wf(),
        ensures
            final(self)@ == old(self)@.clear_query(),
            final(self)@.wf(),
    {
        self.query.clear();
        self.stale = true;
        self.cursor_index = 0;
        self.scroll_offset = 0;
        self.matches = slice_to_vec(self.choices);
    }

    /// Brings the matches up to date with the query, where they are stale.
    pub fn recompute_matches(&mut self)
        requires
            old(self)@.wf(),
        ensures
            final(self)@ == old(self)@.recompute(),
            final(self)@.wf(),
            !final(self)@.stale,
    {
        if self.stale {
            let count = self.matches.len();
            let position = self.scroll_offset + self.cursor_index;
            self.matches = compute_matches(
                self.matches.as_slice(),
                self.query.as_str(),
                self.filter_only,
            );
            self.stale = false;
            if position >= self.matches.len() {
                self.scroll_offset = 0;
                self.cursor_index = 0;
            }
        }
    }

    /// The choice on the highlighted row, or the empty text where there is
    /// no such row.
    pub fn current_choice(&self) -> (r: &'a str)
        requires
            self@.wf(),
        ensures
            r@ == self@.current(),
    {
        let count = self.matches.len();
        let position = self.scroll_offset + self.cursor_index;
        if position < count {
            self.matches[position]
        } else {
            proof {
                reveal_strlit("");
            }
            ""
        }
    }

    /// Brings the matches up to date and flips the membership of the
    /// highlighted choice in the selections.
    pub fn toggle_selection(&mut self)
        requires
            old(self)@.wf(),
        ensures
            final(self)@ == old(self)@.toggle_selection(),
            final(self)@.wf(),
    {
        self.recompute_matches();
        let selection = self.current_choice().to_owned();
        let ghost before = lines(self.selections@);
        let ghost fresh = self@;
        match self.find_selection(&selection) {
            Some(i) => {
                self.selections.remove(i);
                proof {
                    assert(lines(self.selections@) =~= before.remove(i as int));
                    lemma_toggled_selected(before, selection@, i as int);
                }
            },
            None => {
                self.selections.push(selection);
                proof {
                    assert(lines(self.selections@) =~= before.push(selection@));
                    lemma_toggled_unselected(before, selection@);
                }
            },
        }
        proof {
            assert(self@ == SearchModel {
                selections: SearchModel::toggled(before, fresh.current()),
                ..fresh
            });
        }
    }

    /// The index of `text` among the selections.
    fn find_selection(&self, text: &String) -> (r: Option<usize>)
        ensures
            match r {
                Some(i) => i < self.selections@.len() && lines(self.selections@)[i as int]
                    == text@,
                None => !lines(self.selections@).contains(text@),
            },
    {
        let mut i: usize = 0;
        while i < self.selections.len()
            invariant
                i <= self.selections@.len(),
                forall|k: int| 0 <= k < i ==> lines(self.selections@)[k] != text@,
            decreases self.selections@.len() - i,
        {
            if self.selections[i] == *text {
                return Some(i);
            }
            i += 1;
        }
        None
    }

    /// The result of the session: nothing where it was canceled; otherwise
    /// the selections, each followed by `newline`; and where that is empty,
    /// the choice on the highlighted row, after the matches were brought up
    /// to date.
    pub fn get_selections(&mut self, newline: &str) -> (ret: String)
        requires
            old(self)@.wf(),
        ensures
            ret@ == old(self)@.result(newline@),
            final(self)@ == old(self)@.after_result(newline@),
            final(self)@.wf(),
    {
        let mut ret = String::new();
        if self.state != SearchState::Canceled {
            let mut i: usize = 0;
            proof {
                assert(lines(self.selections@).take(0) == Seq::<Seq<char>>::empty());
            }
            while i < self.selections.len()
                invariant
                    i <= self.selections@.len(),
                    ret@ == join_lines(lines(self.selections@).take(i as int), newline@),
                decreases self.selections@.len() - i,
            {
                proof {
                    let all = lines(self.selections@);
                    assert(all.take(i + 1).drop_last() == all.take(i as int));
                    assert(all.take(i + 1).last() == self.selections@[i as int]@);
                }
                ret.append(self.selections[i].as_str());
                ret.append(newline);
                i += 1;
            }
            proof {
                let all = lines(self.selections@);
                assert(all.take(i as int) == all);
            }
            if ret.as_str().is_empty() {
                self.recompute_matches();
                ret.append(self.current_choice());
            }
        }
        ret
    }

    /// Cancels the session.
    pub fn cancel(&mut self)
        requires
            old(self)@.wf(),
        ensures
            final(self)@ == old(self)@.cancel(),
            final(self)@.wf(),
    {
        self.state = SearchState::Canceled
    }

    /// Ends the session with a choice.
    pub fn done(&mut self)
        requires
            old(self)@.wf(),
        ensures
            final(self)@ == old(self)@.done(),
            final(self)@.wf(),
    {
        self.state = SearchState::Done
    }
}

impl SearchModel {
    /// `steps` rows down, one after the other.
    pub open spec fn moved_down(self, visible: nat, steps: nat) -> SearchModel
        decreases steps,
    {
        if steps == 0 {
            self
        } else {
            self.down(visible).moved_down(visible, (steps - 1) as nat)
        }
    }

    /// What a key does to a session in progress. A session that has ended
    /// takes no more keys.
    pub open spec fn handle_key(self, key: Key, visible: nat) -> SearchModel {
        if self.state != SearchState::InProgress {
            self
        } else {
            match key {
                Key::Char(x) => self.append(x),
                Key::Backspace => self.backspace(),
                Key::Control(c) => if c == 'h' {
                    self.backspace()
                } else if c == 'w' {
                    self.delete_word()
                } else if c == 'u' {
                    self.clear_query()
                } else if c == 'c' || c == 'g' {
                    self.cancel()
                } else if c == 't' {
                    self.toggle_selection().down(visible)
                } else if c == 'p' {
                    self.up(visible)
                } else if c == 'n' {
                    self.down(visible)
                } else if c == 'b' {
                    self.pgup(visible)
                } else if c == 'f' {
                    self.pgdown(visible)
                } else {
                    self
                },
                Key::Up | Key::ShiftTab => self.up(visible),
                Key::Down | Key::Tab => self.down(visible),
                Key::Home => self.home(),
                Key::End => self.end(visible),
                Key::Enter => self.done(),
                Key::PgUp => self.pgup(visible),
                Key::PgDown => self.pgdown(visible),
                Key::Nothing | Key::Resize => self,
            }
        }
    }

    /// What a run of keys does to a session, one key after the other.
    pub open spec fn handle_keys(self, keys: Seq<Key>, visible: nat) -> SearchModel
        decreases keys.len(),
    {
        if keys.len() == 0 {
            self
        } else {
            self.handle_keys(keys.drop_last(), visible).handle_key(keys.last(), visible)
        }
    }
}

/// Moving up keeps the invariant, and keeps the cursor within the window.
pub proof fn lemma_up_keeps_wf(m: SearchModel, visible: nat)
    requires
        m.wf(),
    ensures
        m.up(visible).wf(),
        m.fits(visible) ==> m.up(visible).fits(visible),
        m.matches.len() > 0 && visible > 0 ==> m.up(visible).position() == (m.position()
            + m.matches.len() - 1) % (m.matches.len() as int),
{
    let count = m.matches.len() as int;
    if count > 0 && visible > 0 {
        let p = m.position() as int;
        if p > 0 {
            assert((p + count - 1) % count == p - 1) by (nonlinear_arith)
                requires
                    0 < p < count,
            ;
        } else {
            assert((p + count - 1) % count == count - 1) by (nonlinear_arith)
                requires
                    p == 0,
                    count > 0,
            ;
        }
    }
}

/// Moving down keeps the invariant, keeps the cursor within the window, and
/// steps to the next match, or from the last one to the first.
pub proof fn lemma_down_keeps_wf(m: SearchModel, visible: nat)
    requires
        m.wf(),
    ensures
        m.down(visible).wf(),
        m.fits(visible) ==> m.down(visible).fits(visible),
        m.matches.len() > 0 && visible > 0 ==> m.down(visible).position() == (m.position() + 1)
            % m.matches.len(),
{
    let count = m.matches.len() as int;
    if count > 0 && visible > 0 {
        let p = m.position() as int;
        if p + 1 < count {
            assert((p + 1) % count == p + 1) by (nonlinear_arith)
                requires
                    0 <= p,
                    p + 1 < count,
            ;
        } else {
            assert((p + 1) % count == 0) by (nonlinear_arith)
                requires
                    p + 1 == count,
                    count > 0,
            ;
        }
    }
}

/// Up undoes down and down undoes up, as far as the highlighted match goes.
pub proof fn lemma_up_and_down_are_inverse(m: SearchModel, visible: nat)
    requires
        m.wf(),
    ensures
        m.down(visible).up(visible).position() == m.position(),
        m.up(visible).down(visible).position() == m.position(),
{
    lemma_up_keeps_wf(m, visible);
    lemma_down_keeps_wf(m, visible);
}

/// From the first match, fewer steps down than there are matches move the
/// cursor through the window first and scroll the window after that.
proof fn lemma_moved_down_from_top(m: SearchModel, visible: nat, steps: nat)
    requires
        m.wf(),
        m.scroll_offset == 0,
        m.cursor_index == 0,
        visible > 0,
        steps < m.matches.len(),
    ensures
        m.moved_down(visible, steps) == m.with_cursor(
            if steps < visible {
                0
            } else {
                (steps - visible + 1) as nat
            },
            if steps < visible {
                steps
            } else {
                (visible - 1) as nat
            },
        ),
    decreases steps,
{
    lemma_moved_down_split(m, visible, steps);
    if steps > 0 {
        lemma_moved_down_from_top(m, visible, (steps - 1) as nat);
    } else {
        assert(m.with_cursor(0, 0) == m);
    }
}

/// `steps` rows down are `steps - 1` rows down and then one more.
proof fn lemma_moved_down_split(m: SearchModel, visible: nat, steps: nat)
    ensures
        steps > 0 ==> m.moved_down(visible, steps) == m.moved_down(
            visible,
            (steps - 1) as nat,
        ).down(visible),
    decreases steps,
{
    if steps > 1 {
        lemma_moved_down_split(m.down(visible), visible, (steps - 1) as nat);
        assert(m.moved_down(visible, (steps - 1) as nat) == m.down(visible).moved_down(
            visible,
            (steps - 2) as nat,
        ));
    } else if steps == 1 {
        assert(m.down(visible).moved_down(visible, 0) == m.down(visible));
        assert(m.moved_down(visible, 0) == m);
    }
}

/// Pressing down as often as there are matches, beginning at the first
/// match, brings scroll offset and cursor back to exactly where they were.
pub proof fn lemma_down_cycle_returns_to_top(m: SearchModel, visible: nat)
    requires
        m.wf(),
        m.scroll_offset == 0,
        m.cursor_index == 0,
        visible > 0,
        m.matches.len() > 0,
    ensures
        m.moved_down(visible, m.matches.len()) == m,
{
    let count = m.matches.len();
    lemma_moved_down_split(m, visible, count);
    lemma_moved_down_from_top(m, visible, (count - 1) as nat);
    assert(m.with_cursor(0, 0) == m);
}

/// Pressing down as often as there are matches brings the cursor back to
/// the match on which it was, wherever that was.
pub proof fn lemma_down_cycle_returns_to_match(m: SearchModel, visible: nat, steps: nat)
    requires
        m.wf(),
        visible > 0,
        m.matches.len() > 0,
    ensures
        m.moved_down(visible, steps).wf(),
        m.moved_down(visible, steps).matches == m.matches,
        m.moved_down(visible, steps).position() == (m.position() + steps) % m.matches.len(),
        steps == m.matches.len() ==> m.moved_down(visible, steps).position() == m.position(),
    decreases steps,
{
    let count = m.matches.len() as int;
    let p = m.position() as int;
    if steps == 0 {
        assert((p + 0) % count == p) by (nonlinear_arith)
            requires
                0 <= p < count,
        ;
    } else {
        lemma_down_keeps_wf(m, visible);
        let next = m.down(visible);
        lemma_down_cycle_returns_to_match(next, visible, (steps - 1) as nat);
        lemma_add_mod_noop_right(steps - 1, p + 1, count);
        assert(steps - 1 + (p + 1) == p + steps);
    }
    if steps == count {
        assert((p + count) % count == p) by (nonlinear_arith)
            requires
                0 <= p < count,
        ;
    }
}

/// Pressing up on the first match wraps to the last one, and the window then
/// shows the tail of the matches.
pub proof fn lemma_up_from_top_shows_tail(m: SearchModel, visible: nat)
    requires
        m.wf(),
        m.scroll_offset == 0,
        m.cursor_index == 0,
        visible > 0,
        m.matches.len() > 0,
    ensures
        m.up(visible).position() == m.matches.len() - 1,
        m.up(visible).scroll_offset + visible >= m.matches.len(),
        m.up(visible).fits(visible),
{
}

/// Page moves keep the invariant and every part of the session but the
/// cursor.
pub proof fn lemma_page_moves_keep_wf(m: SearchModel, visible: nat, steps: nat)
    requires
        m.wf(),
    ensures
        m.rows_up(visible, steps).wf(),
        m.rows_down(visible, steps).wf(),
        m.rows_up(visible, steps) == m.with_cursor(
            m.rows_up(visible, steps).scroll_offset,
            m.rows_up(visible, steps).cursor_index,
        ),
        m.rows_down(visible, steps) == m.with_cursor(
            m.rows_down(visible, steps).scroll_offset,
            m.rows_down(visible, steps).cursor_index,
        ),
    decreases steps,
{
    assert(m == m.with_cursor(m.scroll_offset, m.cursor_index));
    if steps > 0 {
        lemma_up_keeps_wf(m, visible);
        lemma_down_keeps_wf(m, visible);
        lemma_page_moves_keep_wf(m.up(visible), visible, (steps - 1) as nat);
        lemma_page_moves_keep_wf(m.down(visible), visible, (steps - 1) as nat);
    }
}

/// Edits of the query keep the invariant.
pub proof fn lemma_edits_keep_wf(m: SearchModel, c: char)
    requires
        m.wf(),
    ensures
        m.append(c).wf(),
        m.backspace().wf(),
        m.delete_word().wf(),
        m.clear_query().wf(),
{
}

/// Selections persist: no edit of the query, no recomputation of the
/// matches and no move of the cursor changes them.
pub proof fn lemma_selections_persist(m: SearchModel, c: char, visible: nat)
    requires
        m.wf(),
    ensures
        m.append(c).selections == m.selections,
        m.backspace().selections == m.selections,
        m.delete_word().selections == m.selections,
        m.clear_query().selections == m.selections,
        m.recompute().selections == m.selections,
        m.up(visible).selections == m.selections,
        m.down(visible).selections == m.selections,
        m.home().selections == m.selections,
        m.end(visible).selections == m.selections,
        m.pgup(visible).selections == m.selections,
        m.pgdown(visible).selections == m.selections,
        m.done().selections == m.selections,
        m.cancel().selections == m.selections,
{
    lemma_page_moves_keep_wf(m, visible, visible);
}

/// A choice that was selected stays selected while the query is edited so
/// that the choice is filtered out, and edited back: the result of the
/// session still lists it.
pub proof fn lemma_selection_survives_edits(m: SearchModel, c: char, newline: Seq<char>)
    requires
        m.wf(),
        m.state == SearchState::InProgress,
        !m.selections.contains(m.recompute().current()),
        newline.len() > 0,
    ensures
        ({
            let choice = m.recompute().current();
            let after = m.toggle_selection().append(c).recompute().backspace().recompute();
            &&& after.selections.contains(choice)
            &&& after.selections == m.selections.push(choice)
            &&& after.result(newline) == join_lines(after.selections, newline)
            &&& after.result(newline) == join_lines(m.selections, newline) + choice + newline
        }),
{
    let choice = m.recompute().current();
    let picked = m.toggle_selection();
    lemma_toggled_unselected(m.selections, choice);
    let after = picked.append(c).recompute().backspace().recompute();
    assert(after.selections == picked.selections);
    assert(after.selections.drop_last() == m.selections);
    assert(after.selections.last() == choice);
}

/// Cancellation yields the empty result, whatever was selected before.
pub proof fn lemma_canceled_result_is_empty(m: SearchModel, newline: Seq<char>)
    ensures
        m.cancel().result(newline) == Seq::<char>::empty(),
        m.state == SearchState::Canceled ==> m.result(newline) == Seq::<char>::empty(),
{
}

/// A session that has ended ignores every key.
pub proof fn lemma_ended_session_ignores_keys(m: SearchModel, keys: Seq<Key>, visible: nat)
    requires
        m.state != SearchState::InProgress,
    ensures
        m.handle_keys(keys, visible) == m,
    decreases keys.len(),
{
    if keys.len() > 0 {
        lemma_ended_session_ignores_keys(m, keys.drop_last(), visible);
    }
}

/// Applies one key to the session.
pub fn handle_key(search: &mut Search, key: &Key, visible_choices: u16)
    requires
        old(search)@.wf(),
    ensures
        final(search)@ == old(search)@.handle_key(*key, visible_choices as nat),
        final(search)@.wf(),
{
    match search.state() {
        SearchState::InProgress => {},
        _ => {
            return;
        },
    }
    match *key {
        Key::Char(x) => search.append(x),
        Key::Backspace => search.backspace(),
        Key::Control(c) => {
            if c == 'h' {
                search.backspace()
            } else if c == 'w' {
                search.delete_word()
            } else if c == 'u' {
                search.clear_query()
            } else if c == 'c' || c == 'g' {
                search.cancel()
            } else if c == 't' {
                search.toggle_selection();
                search.down(visible_choices);
            } else if c == 'p' {
                search.up(visible_choices)
            } else if c == 'n' {
                search.down(visible_choices)
            } else if c == 'b' {
                search.pgup(visible_choices)
            } else if c == 'f' {
                search.pgdown(visible_choices)
            }
        },
        Key::Up | Key::ShiftTab => search.up(visible_choices),
        Key::Down | Key::Tab => search.down(visible_choices),
        Key::Home => search.home(),
        Key::End => search.end(visible_choices),
        Key::Enter => search.done(),
        Key::PgUp => search.pgup(visible_choices),
        Key::PgDown => search.pgdown(visible_choices),
        Key::Nothing | Key::Resize => {},
    }
}

/// Applies the keys from `start` on to the session, up to and including the
/// first change of the window size among them, and returns the index of the
/// first key that was not applied. The caller measures the window again and
/// redraws before it hands over the keys that are left, so that no key is
/// applied with a number of visible rows that is out of date.
pub fn handle_keys(
    search: &mut Search,
    keys: &[Key],
    start: usize,
    visible_choices: u16,
) -> (next: usize)
    requires
        old(search)@.wf(),
        start <= keys@.len(),
    ensures
        start <= next <= keys@.len(),
        final(search)@ == old(search)@.handle_keys(
            keys@.subrange(start as int, next as int),
            visible_choices as nat,
        ),
        final(search)@.wf(),
        forall|k: int| start <= k < next - 1 ==> keys@[k] != Key::Resize,
        next < keys@.len() ==> next > start && keys@[next - 1] == Key::Resize,
{
    let mut i: usize = start;
    proof {
        assert(keys@.subrange(start as int, start as int) == Seq::<Key>::empty());
    }
    while i < keys.len()
        invariant
            start <= i <= keys@.len(),
            search@.wf(),
            search@ == old(search)@.handle_keys(
                keys@.subrange(start as int, i as int),
                visible_choices as nat,
            ),
            forall|k: int| start <= k < i ==> keys@[k] != Key::Resize,
        decreases keys@.len() - i,
    {
        let key = keys[i];
        proof {
            let run = keys@.subrange(start as int, i + 1);
            assert(run.drop_last() == keys@.subrange(start as int, i as int));
            assert(run.last() == key);
        }
        handle_key(search, &key, visible_choices);
        i += 1;
        match key {
            Key::Resize => {
                return i;
            },
            _ => {},
        }
    }
    i
}

} // verus!
