//! The match engine: finding the minimal-span match of a query in a choice,
//! scoring it, and ranking or filtering a pool of choices.

use rayon::iter::{IndexedParallelIterator, IntoParallelRefIterator, ParallelIterator};
use vstd::prelude::*;
use vstd::slice::slice_subrange;
use crate::ranking::{is_ranking, rank_scores, ranking, ratings};
use crate::score::{Rating, Score};
use crate::subsequence::{
    ascii_lower, chars_match, is_embedding, is_embedding_after, is_greedy_after, is_match,
    is_minimal_span, is_minimal_span_len, lemma_embedding_join, lemma_embedding_split,
    lemma_embedding_spread, lemma_empty_query_matches, lemma_greedy_extend,
    lemma_greedy_increasing, lemma_greedy_is_embedding, lemma_greedy_least, lemma_greedy_stuck,
    lemma_greedy_unique, lemma_longer_query_never_matches, lemma_minimal_span_gives_len,
    lemma_minimal_span_len_defined, lemma_minimal_span_len_unique, lemma_minimal_span_unique,
    minimal_span_len, positions, span_beats, walk_end,
};

verus! {

/// `char::to_ascii_lowercase` of std: maps the ASCII letters `'A'..='Z'` to
/// `'a'..='z'` and leaves every other character as it is.
pub assume_specification[ char::to_ascii_lowercase ](c: &char) -> (r: char)
    ensures
        r == ascii_lower(*c),
;

/// Whether the query character `q` matches the choice character `c`.
pub fn chars_equal(q: char, c: char) -> (r: bool)
    ensures
        r == chars_match(q, c),
{
    q == c || q == c.to_ascii_lowercase()
}

/// The characters of a string, in order.
pub fn to_chars(s: &str) -> (v: Vec<char>)
    ensures
        v@ == s@,
{
    let mut v: Vec<char> = Vec::new();
    for c in it: s.chars()
        invariant
            v@ == it.seq().take(it.index()),
    {
        v.push(c);
    }
    v
}

/// All positions of `string` at which `c` matches, in ascending order.
pub fn find_char_in_string(string: &[char], c: char) -> (indices: Vec<usize>)
    ensures
        forall|k: int|
            0 <= k < indices@.len() ==> (#[trigger] indices@[k]) < string@.len() && chars_match(
                c,
                string@[indices@[k] as int],
            ),
        forall|j: int, k: int|
            0 <= j < k < indices@.len() ==> (#[trigger] indices@[j]) < (#[trigger] indices@[k]),
        forall|i: int|
            0 <= i < string@.len() && #[trigger] chars_match(c, string@[i]) ==> positions(
                indices@,
            ).contains(i),
{
    let mut indices: Vec<usize> = Vec::new();
    let mut i: usize = 0;
    while i < string.len()
        invariant
            i <= string@.len(),
            forall|k: int|
                0 <= k < indices@.len() ==> (#[trigger] indices@[k]) < i && chars_match(
                    c,
                    string@[indices@[k] as int],
                ),
            forall|j: int, k: int|
                0 <= j < k < indices@.len() ==> (#[trigger] indices@[j]) < (
                #[trigger] indices@[k]),
            forall|m: int|
                0 <= m < i && #[trigger] chars_match(c, string@[m]) ==> positions(
                    indices@,
                ).contains(m),
        decreases string@.len() - i,
    {
        if chars_equal(c, string[i]) {
            let ghost before = indices@;
            indices.push(i);
            proof {
                assert forall|m: int|
                    0 <= m < i + 1 && #[trigger] chars_match(c, string@[m]) implies positions(
                    indices@,
                ).contains(m) by {
                    if m < i {
                        let k = choose|k: int|
                            0 <= k < positions(before).len() && positions(before)[k] == m;
                        assert(positions(indices@)[k] == m);
                    } else {
                        assert(positions(indices@)[before.len() as int] == m);
                    }
                }
            }
        }
        i += 1;
    }
    indices
}

/// The first position at or after `from` at which `c` matches, or the length
/// of `string` where there is none.
fn find_next(string: &[char], c: char, from: usize) -> (i: usize)
    requires
        from <= string@.len(),
    ensures
        from <= i <= string@.len(),
        i < string@.len() ==> chars_match(c, string@[i as int]),
        forall|j: int| from <= j < i ==> !#[trigger] chars_match(c, string@[j]),
{
    let mut i: usize = from;
    while i < string.len()
        invariant
            from <= i <= string@.len(),
            forall|j: int| from <= j < i ==> !#[trigger] chars_match(c, string@[j]),
        decreases string@.len() - i,
    {
        if chars_equal(c, string[i]) {
            return i;
        }
        i += 1;
    }
    i
}

/// The positions of the greedy match that begins at `first_index`: that
/// index, then for each character of `rest_of_query` the earliest later
/// position at which it matches. `None` when the rest of the query does not
/// occur after `first_index`.
pub fn get_match_indices(string: &[char], rest_of_query: &[char], first_index: usize) -> (r:
    Option<Vec<usize>>)
    requires
        first_index < string@.len(),
    ensures
        r is Some <==> exists|e: Seq<int>| #[trigger]
            is_embedding_after(string@, rest_of_query@, first_index as int, e),
        r matches Some(v) ==> v@.len() == rest_of_query@.len() + 1 && v@[0] == first_index
            && is_greedy_after(
            string@,
            rest_of_query@,
            first_index as int,
            positions(v@).skip(1),
        ),
{
    let ghost s = string@;
    let ghost rest = rest_of_query@;
    let ghost start = first_index as int;
    let len = string.len();
    let mut ret: Vec<usize> = Vec::new();
    let mut last_index: usize = first_index + 1;
    ret.push(first_index);
    let mut k: usize = 0;
    while k < rest_of_query.len()
        invariant
            s == string@,
            rest == rest_of_query@,
            start == first_index as int,
            0 <= start < s.len(),
            k <= rest.len(),
            ret@.len() == k + 1,
            ret@[0] == first_index,
            last_index == ret@[k as int] + 1,
            last_index <= s.len(),
            is_greedy_after(s, rest.take(k as int), start, positions(ret@).skip(1)),
        decreases rest.len() - k,
    {
        let ghost greedy = positions(ret@).skip(1);
        let i = find_next(string, rest_of_query[k], last_index);
        proof {
            assert(walk_end(start, greedy) == last_index - 1) by {
                if k > 0 {
                    assert(greedy.last() == ret@[k as int]);
                }
            }
        }
        if i == string.len() {
            proof {
                lemma_greedy_stuck(s, rest, start, k as int, greedy);
            }
            return None;
        }
        ret.push(i);
        proof {
            lemma_greedy_extend(s, rest, start, k as int, greedy, i as int);
            assert(positions(ret@).skip(1) =~= greedy.push(i as int));
        }
        last_index = i + 1;
        k += 1;
    }
    proof {
        assert(rest.take(k as int) == rest);
        lemma_greedy_is_embedding(s, rest, start, positions(ret@).skip(1));
    }
    Some(ret)
}

/// The last position of the greedy match that begins at `first_index`: the
/// earliest position at which any embedding of `rest_of_query` after
/// `first_index` can end. `None` when there is no such embedding.
pub fn find_end_of_match(string: &[char], rest_of_query: &[char], first_index: usize) -> (r:
    Option<usize>)
    requires
        first_index < string@.len(),
    ensures
        r is Some <==> exists|e: Seq<int>| #[trigger]
            is_embedding_after(string@, rest_of_query@, first_index as int, e),
        r matches Some(end) ==> first_index <= end < string@.len() && (exists|e: Seq<int>| #[trigger]
            is_embedding_after(string@, rest_of_query@, first_index as int, e) && walk_end(
                first_index as int,
                e,
            ) == end) && (forall|e: Seq<int>| #[trigger]
            is_embedding_after(string@, rest_of_query@, first_index as int, e) ==> walk_end(
                first_index as int,
                e,
            ) >= end),
{
    match get_match_indices(string, rest_of_query, first_index) {
        Some(indices) => {
            let end = indices[indices.len() - 1];
            proof {
                let s = string@;
                let rest = rest_of_query@;
                let start = first_index as int;
                let greedy = positions(indices@).skip(1);
                lemma_greedy_is_embedding(s, rest, start, greedy);
                assert(walk_end(start, greedy) == end);
                assert(rest.take(rest.len() as int) == rest);
                assert forall|e: Seq<int>| #[trigger]
                    is_embedding_after(s, rest, start, e) implies walk_end(start, e) >= end by {
                    if rest.len() > 0 {
                        lemma_greedy_least(
                            s,
                            rest,
                            start,
                            rest.len() as int,
                            greedy,
                            e,
                            rest.len() - 1,
                        );
                    }
                }
                if rest.len() > 0 {
                    assert(greedy[rest.len() - 1] < s.len());
                    lemma_greedy_increasing(
                        s,
                        rest,
                        start,
                        greedy,
                        0,
                        rest.len() - 1,
                    );
                }
            }
            Some(end)
        },
        None => None,
    }
}

/// The number of positions from `lb` to `ub`, both included.
pub fn get_match_length(bounds: Option<(usize, usize)>) -> (r: Option<usize>)
    requires
        bounds matches Some((lb, ub)) ==> lb <= ub && ub - lb < usize::MAX,
    ensures
        r == match bounds {
            Some((lb, ub)) => Some((ub - lb + 1) as usize),
            None => None,
        },
{
    if let Some((lb, ub)) = bounds {
        Some(ub - lb + 1)
    } else {
        None
    }
}

/// What `get_longest_match` has established once every start before `bound`
/// has been tried: the best span so far beats every embedding that begins
/// before `bound`, and is itself the span of an embedding.
spec fn best_so_far(
    s: Seq<char>,
    query: Seq<char>,
    bound: int,
    best: Option<(usize, usize)>,
) -> bool {
    match best {
        None => forall|e: Seq<int>| #[trigger] is_embedding(s, query, e) ==> e[0] >= bound,
        Some((lb, ub)) => {
            &&& lb < bound
            &&& lb <= ub < s.len()
            &&& exists|e: Seq<int>| #[trigger]
                is_embedding(s, query, e) && e[0] == lb && e.last() == ub
            &&& forall|e: Seq<int>| #[trigger]
                is_embedding(s, query, e) && e[0] < bound ==> span_beats(lb as int, ub as int, e)
        },
    }
}

/// The bounds of the minimal span of `query` in `string`: of all embeddings,
/// the one with the shortest span, and among those of equal span the one that
/// begins first. `None` when the query does not match.
pub fn get_longest_match(string: &[char], query: &[char]) -> (r: Option<(usize, usize)>)
    requires
        query@.len() > 0,
    ensures
        r is Some <==> is_match(string@, query@),
        r matches Some((lb, ub)) ==> lb <= ub < string@.len() && is_minimal_span(
            string@,
            query@,
            lb as int,
            ub as int,
        ),
{
    let ghost s = string@;
    let ghost q = query@;
    let len = string.len();
    let first_char = query[0];
    let rest = slice_subrange(query, 1, query.len());
    let indices = find_char_in_string(string, first_char);

    let mut current_bounds: Option<(usize, usize)> = None;
    let smallest_possible_match = query.len();
    let mut t: usize = 0;
    while t < indices.len()
        invariant
            s == string@,
            q == query@,
            q.len() > 0,
            len == s.len(),
            rest@ == q.skip(1),
            first_char == q[0],
            smallest_possible_match == q.len(),
            t <= indices@.len(),
            forall|k: int|
                0 <= k < indices@.len() ==> (#[trigger] indices@[k]) < s.len() && chars_match(
                    first_char,
                    s[indices@[k] as int],
                ),
            forall|j: int, k: int|
                0 <= j < k < indices@.len() ==> (#[trigger] indices@[j]) < (
                #[trigger] indices@[k]),
            forall|i: int|
                0 <= i < s.len() && #[trigger] chars_match(first_char, s[i]) ==> positions(
                    indices@,
                ).contains(i),
            best_so_far(
                s,
                q,
                if t < indices@.len() {
                    indices@[t as int] as int
                } else {
                    s.len() as int
                },
                current_bounds,
            ),
        decreases indices@.len() - t,
    {
        let i = indices[t];
        let ghost before = current_bounds;
        let ghost next_bound = if t + 1 < indices@.len() {
            indices@[t + 1] as int
        } else {
            s.len() as int
        };
        let end = find_end_of_match(string, rest, i);
        proof {
            // Every embedding that begins before the next start begins at `i`
            // or before it.
            assert forall|e: Seq<int>| #[trigger]
                is_embedding(s, q, e) && e[0] < next_bound implies e[0] <= i by {
                lemma_embedding_split(s, q, e);
                let m = choose|m: int|
                    0 <= m < positions(indices@).len() && positions(indices@)[m] == e[0];
                assert(indices@[m] == e[0]);
                if m > t {
                    if t + 1 < indices@.len() {
                        if m > t + 1 {
                            assert(indices@[t + 1] < indices@[m]);
                        }
                    }
                }
            }
            // An embedding that begins at `i` ends no earlier than the greedy
            // one does.
            assert forall|e: Seq<int>| #[trigger]
                is_embedding(s, q, e) && e[0] == i implies end is Some && e.last()
                >= end.unwrap() by {
                lemma_embedding_split(s, q, e);
                assert(is_embedding_after(s, rest@, i as int, e.skip(1)));
            }
        }
        if let Some(last_index) = end {
            let last_bounds = Some((i, last_index));
            let last_match_len = get_match_length(last_bounds).unwrap();
            let replace = match current_bounds {
                None => true,
                Some((lb, ub)) => last_match_len < ub - lb + 1,
            };
            proof {
                let tail = choose|e: Seq<int>| #[trigger]
                    is_embedding_after(s, rest@, i as int, e) && walk_end(i as int, e)
                        == last_index;
                lemma_embedding_join(s, q, i as int, tail);
                let witness = seq![i as int] + tail;
                assert(is_embedding(s, q, witness) && witness[0] == i && witness.last()
                    == last_index);
            }
            if replace {
                current_bounds = last_bounds;
                if last_match_len == smallest_possible_match {
                    proof {
                        assert forall|e: Seq<int>| #[trigger]
                            is_embedding(s, q, e) implies span_beats(
                            i as int,
                            last_index as int,
                            e,
                        ) by {
                            lemma_embedding_spread(s, q, e, 0, q.len() - 1);
                            if e[0] < i {
                                assert(e[0] < indices@[t as int]);
                            }
                        }
                        assert(is_match(s, q));
                    }
                    return current_bounds;
                }
            }
        }
        proof {
            assert(best_so_far(s, q, next_bound, current_bounds)) by {
                if t + 1 < indices@.len() {
                    assert(indices@[t as int] < indices@[t + 1]);
                }
                match current_bounds {
                    None => {
                        assert forall|e: Seq<int>| #[trigger] is_embedding(s, q, e) implies e[0]
                            >= next_bound by {
                            if e[0] < next_bound && e[0] < i {
                                assert(e[0] < indices@[t as int]);
                            }
                        }
                    },
                    Some((lb, ub)) => {
                        assert forall|e: Seq<int>| #[trigger]
                            is_embedding(s, q, e) && e[0] < next_bound implies span_beats(
                            lb as int,
                            ub as int,
                            e,
                        ) by {
                            if e[0] < i {
                                assert(e[0] < indices@[t as int]);
                            }
                        }
                    },
                }
            }
        }
        t += 1;
    }
    proof {
        match current_bounds {
            None => {
                assert forall|e: Seq<int>| !#[trigger] is_embedding(s, q, e) by {
                    if is_embedding(s, q, e) {
                        assert(e[0] < s.len());
                    }
                }
            },
            Some((lb, ub)) => {
                assert forall|e: Seq<int>| #[trigger] is_embedding(s, q, e) implies span_beats(
                    lb as int,
                    ub as int,
                    e,
                ) by {
                    assert(e[0] < s.len());
                }
            },
        }
    }
    current_bounds
}

/// The length of the minimal span of `query` in `string`, or `None` when the
/// query does not match.
pub fn compute_match_length(string: &[char], query: &[char]) -> (r: Option<usize>)
    requires
        query@.len() > 0,
    ensures
        r is Some <==> is_match(string@, query@),
        r matches Some(n) ==> is_minimal_span_len(string@, query@, n as int),
{
    let len = string.len();
    let bounds = get_longest_match(string, query);
    proof {
        if let Some((lb, ub)) = bounds {
            lemma_minimal_span_gives_len(string@, query@, lb as int, ub as int);
        }
    }
    get_match_length(bounds)
}

/// The score of `choice` against `query`: 1 for the empty query, 0 where the
/// query does not match, and otherwise the number of query characters over
/// the length of the minimal span, over the length of the choice.
pub open spec fn score_of(choice: Seq<char>, query: Seq<char>) -> Rating {
    if query.len() == 0 {
        Rating::one()
    } else if !is_match(choice, query) {
        Rating::zero()
    } else {
        Rating {
            matched: query.len(),
            span: minimal_span_len(choice, query) as nat,
            length: choice.len(),
        }
    }
}

/// The pass-or-fail score of `choice` against `query`: 1 where the query
/// matches, 0 where it does not.
pub open spec fn filter_of(choice: Seq<char>, query: Seq<char>) -> Rating {
    if is_match(choice, query) {
        Rating::one()
    } else {
        Rating::zero()
    }
}

/// The score of `choice` against `query`.
pub fn score(choice: &str, query: &str) -> (r: Score)
    ensures
        r@ == score_of(choice@, query@),
        r@.wf(),
        r@.is_positive() <==> is_match(choice@, query@),
{
    if query.is_empty() {
        proof {
            lemma_empty_query_matches(choice@, query@);
        }
        return Score::one();
    }
    if choice.is_empty() {
        proof {
            lemma_longer_query_never_matches(choice@, query@);
        }
        return Score::zero();
    }
    let query = to_chars(query);
    let choice = to_chars(choice);

    match compute_match_length(choice.as_slice(), query.as_slice()) {
        None => Score::zero(),
        Some(match_length) => {
            proof {
                lemma_minimal_span_len_unique(choice@, query@, match_length as int);
            }
            Score { matched: query.len(), span: match_length, length: choice.len() }
        },
    }
}

/// Whether `query` matches `choice` at all, as the score 1 or 0.
pub fn filter(choice: &str, query: &str) -> (r: Score)
    ensures
        r@ == filter_of(choice@, query@),
        r@.wf(),
        r@.is_positive() <==> is_match(choice@, query@),
{
    if query.is_empty() {
        proof {
            lemma_empty_query_matches(choice@, query@);
        }
        return Score::one();
    }
    if choice.is_empty() {
        proof {
            lemma_longer_query_never_matches(choice@, query@);
        }
        return Score::zero();
    }
    let query = to_chars(query);
    let choice = to_chars(choice);

    match compute_match_length(choice.as_slice(), query.as_slice()) {
        None => Score::zero(),
        Some(_) => Score::one(),
    }
}

/// `pos` holds the positions to highlight in `choice` for `query`: nothing
/// where either is empty, and otherwise the greedy embedding that begins
/// where the minimal span begins. It ends where the minimal span ends.
pub open spec fn is_highlight(choice: Seq<char>, query: Seq<char>, pos: Seq<int>) -> bool {
    if query.len() == 0 || choice.len() == 0 {
        pos.len() == 0
    } else {
        &&& is_embedding(choice, query, pos)
        &&& is_minimal_span(choice, query, pos[0], pos.last())
        &&& is_greedy_after(choice, query.skip(1), pos[0], pos.skip(1))
    }
}

/// The positions to highlight in `choice` for `query`.
pub open spec fn highlight(choice: Seq<char>, query: Seq<char>) -> Seq<int> {
    choose|pos: Seq<int>| is_highlight(choice, query, pos)
}

/// The positions to highlight are unique, so `highlight` names them.
pub proof fn lemma_highlight_unique(choice: Seq<char>, query: Seq<char>, pos: Seq<int>)
    requires
        is_highlight(choice, query, pos),
    ensures
        highlight(choice, query) == pos,
{
    let other = highlight(choice, query);
    assert(is_highlight(choice, query, other));
    if query.len() == 0 || choice.len() == 0 {
        assert(other =~= pos);
    } else {
        lemma_minimal_span_unique(choice, query, pos[0], pos.last(), other[0], other.last());
        lemma_greedy_unique(choice, query.skip(1), pos[0], pos.skip(1), other.skip(1));
        assert forall|k: int| 0 <= k < pos.len() implies pos[k] == other[k] by {
            if k > 0 {
                assert(pos[k] == pos.skip(1)[k - 1]);
                assert(other[k] == other.skip(1)[k - 1]);
            }
        }
        assert(other =~= pos);
    }
}

/// The positions of the characters of `choice` that the minimal-span match of
/// `query` consumes, for highlighting. The query must match the choice,
/// unless one of the two is empty.
pub fn visual_score(choice: &str, query: &str) -> (r: Vec<usize>)
    requires
        query@.len() == 0 || choice@.len() == 0 || is_match(choice@, query@),
    ensures
        is_highlight(choice@, query@, positions(r@)),
        positions(r@) == highlight(choice@, query@),
        forall|j: int, k: int| 0 <= j < k < r@.len() ==> r@[j] < r@[k],
        forall|k: int| 0 <= k < r@.len() ==> r@[k] < choice@.len(),
{
    if query.is_empty() || choice.is_empty() {
        proof {
            lemma_highlight_unique(choice@, query@, Seq::<int>::empty());
            assert(positions(Seq::<usize>::empty()) =~= Seq::<int>::empty());
        }
        return Vec::new();
    }
    let query = to_chars(query);
    let choice = to_chars(choice);
    let ghost s = choice@;
    let ghost q = query@;

    let (first_idx, last_idx) = get_longest_match(choice.as_slice(), query.as_slice()).unwrap();
    let rest = slice_subrange(query.as_slice(), 1, query.len());
    proof {
        let e = choose|e: Seq<int>| #[trigger]
            is_embedding(s, q, e) && e[0] == first_idx && e.last() == last_idx;
        lemma_embedding_split(s, q, e);
        assert(is_embedding_after(s, rest@, first_idx as int, e.skip(1)));
    }
    let indices = get_match_indices(choice.as_slice(), rest, first_idx).unwrap();
    proof {
        let pos = positions(indices@);
        let tail = pos.skip(1);
        let e = choose|e: Seq<int>| #[trigger]
            is_embedding(s, q, e) && e[0] == first_idx && e.last() == last_idx;
        lemma_embedding_split(s, q, e);
        lemma_greedy_is_embedding(s, rest@, first_idx as int, tail);
        lemma_embedding_join(s, q, first_idx as int, tail);
        assert(pos =~= seq![first_idx as int] + tail);
        // The greedy embedding ends no later than `e` does, and no span is
        // shorter than that of `e`.
        assert(rest@.take(rest@.len() as int) == rest@);
        if rest@.len() > 0 {
            lemma_greedy_least(
                s,
                rest@,
                first_idx as int,
                rest@.len() as int,
                tail,
                e.skip(1),
                rest@.len() - 1,
            );
        }
        assert(span_beats(first_idx as int, last_idx as int, pos));
        assert(pos.last() == last_idx);
        lemma_highlight_unique(s, q, pos);
        assert forall|j: int, k: int| 0 <= j < k < indices@.len() implies indices@[j]
            < indices@[k] by {
            assert(pos[j] < pos[k]);
        }
        assert forall|k: int| 0 <= k < indices@.len() implies indices@[k] < s.len() by {
            assert(0 <= pos[k] < s.len());
        }
    }
    indices
}

/// The number of choices below which a batch of work is not split further
/// between threads.
pub const PARALLEL_MIN_LEN: usize = 100;

/// What a choice is worth against a query: its pass-or-fail score where only
/// filtering is asked for, its full score otherwise.
pub open spec fn evaluation_of(choice: Seq<char>, query: Seq<char>, filter_only: bool) -> Rating {
    if filter_only {
        filter_of(choice, query)
    } else {
        score_of(choice, query)
    }
}

/// Evaluates one choice against the query.
pub fn evaluate(choice: &str, query: &str, filter_only: bool) -> (r: Score)
    ensures
        r@ == evaluation_of(choice@, query@, filter_only),
        r@.wf(),
        r@.is_positive() <==> is_match(choice@, query@),
{
    if filter_only {
        filter(choice, query)
    } else {
        score(choice, query)
    }
}

/// Evaluates every choice against the query on rayon's thread pool:
/// `par_iter` over the slice, `with_min_len`, `map` and `collect` into a
/// `Vec`. Rayon collects an indexed parallel iterator in the order of its
/// input, so the result holds at each index what `evaluate` returns for the
/// choice at that index.
#[verifier::external_body]
fn par_evaluate(choices: &[&str], query: &str, filter_only: bool, min_len: usize) -> (scores: Vec<
    Score,
>)
    ensures
        scores@.len() == choices@.len(),
        forall|i: int|
            0 <= i < choices@.len() ==> (#[trigger] scores@[i])@ == evaluation_of(
                choices@[i]@,
                query@,
                filter_only,
            ),
{
    choices.par_iter().with_min_len(min_len).map(|choice| evaluate(choice, query, filter_only)).collect()
}

/// The texts of a sequence of strings.
pub open spec fn texts(v: Seq<&str>) -> Seq<Seq<char>> {
    Seq::new(v.len(), |i: int| v[i]@)
}

/// The scores of all `choices` against `query`.
pub open spec fn scores_of(choices: Seq<Seq<char>>, query: Seq<char>) -> Seq<Rating> {
    Seq::new(choices.len(), |i: int| score_of(choices[i], query))
}

/// The choices that `query` matches, best score first and, among equal
/// scores, in input order.
pub open spec fn ranked(choices: Seq<Seq<char>>, query: Seq<char>) -> Seq<Seq<char>> {
    ranking(scores_of(choices, query)).map_values(|i: int| choices[i])
}

/// The choices that `query` matches, in input order.
pub open spec fn filtered(choices: Seq<Seq<char>>, query: Seq<char>) -> Seq<Seq<char>> {
    choices.filter(|c: Seq<char>| is_match(c, query))
}

/// The choices that `query` matches: in input order where `filter_only` is
/// set, ranked by score otherwise.
pub fn compute_matches<'a>(choices: &[&'a str], query: &str, filter_only: bool) -> (r: Vec<&'a str>)
    ensures
        filter_only ==> texts(r@) == filtered(texts(choices@), query@),
        !filter_only ==> texts(r@) == ranked(texts(choices@), query@) && is_ranking(
            scores_of(texts(choices@), query@),
            ranking(scores_of(texts(choices@), query@)),
        ),
        forall|k: int| 0 <= k < r@.len() ==> is_match((#[trigger] r@[k])@, query@),
{
    let scores = par_evaluate(choices, query, filter_only, PARALLEL_MIN_LEN);
    let ghost all = texts(choices@);
    let ghost pred = |c: Seq<char>| is_match(c, query@);
    let mut result: Vec<&'a str> = Vec::new();

    if filter_only {
        let mut i: usize = 0;
        proof {
            assert(all.take(0) == Seq::<Seq<char>>::empty());
            reveal(Seq::filter);
            assert(texts(result@) == all.take(0).filter(pred));
        }
        while i < choices.len()
            invariant
                i <= choices@.len(),
                filter_only,
                all == texts(choices@),
                pred == |c: Seq<char>| is_match(c, query@),
                scores@.len() == choices@.len(),
                forall|m: int|
                    0 <= m < choices@.len() ==> (#[trigger] scores@[m])@ == evaluation_of(
                        choices@[m]@,
                        query@,
                        filter_only,
                    ),
                texts(result@) == all.take(i as int).filter(pred),
                forall|k: int| 0 <= k < result@.len() ==> is_match((#[trigger] result@[k])@, query@),
            decreases choices@.len() - i,
        {
            let ghost before = result@;
            proof {
                assert(all.take(i + 1) == all.take(i as int).push(all[i as int]));
                all.take(i as int).lemma_filter_push(all[i as int], pred);
                assert(pred(all[i as int]) == is_match(choices@[i as int]@, query@));
            }
            if scores[i].positive() {
                result.push(choices[i]);
                proof {
                    assert(texts(result@) == texts(before).push(all[i as int]));
                }
            }
            i += 1;
        }
        proof {
            assert(all.take(i as int) == all);
        }
        return result;
    }
    proof {
        assert forall|i: int| 0 <= i < scores@.len() implies (#[trigger] scores@[i])@.wf() by {
            lemma_positive_iff_match(choices@[i]@, query@);
        }
    }
    let order = rank_scores(&scores);
    proof {
        assert(ratings(scores@) == scores_of(all, query@));
    }
    let ghost pos = positions(order@);
    let mut k: usize = 0;
    while k < order.len()
        invariant
            k <= order@.len(),
            !filter_only,
            all == texts(choices@),
            pos == positions(order@),
            is_ranking(ratings(scores@), pos),
            scores@.len() == choices@.len(),
            forall|m: int|
                0 <= m < choices@.len() ==> (#[trigger] scores@[m])@ == evaluation_of(
                    choices@[m]@,
                    query@,
                    filter_only,
                ),
            result@.len() == k,
            forall|m: int| 0 <= m < k ==> (#[trigger] result@[m])@ == all[pos[m]],
            forall|m: int| 0 <= m < k ==> is_match((#[trigger] result@[m])@, query@),
        decreases order@.len() - k,
    {
        let idx = order[k];
        proof {
            assert(pos[k as int] == idx);
            assert(ratings(scores@)[idx as int].is_positive());
            if query@.len() == 0 {
                lemma_empty_query_matches(choices@[idx as int]@, query@);
            }
        }
        result.push(choices[idx]);
        k += 1;
    }
    proof {
        assert(texts(result@) =~= pos.map_values(|i: int| all[i]));
    }
    result
}

/// Against the empty query every choice scores 1.
pub proof fn lemma_empty_query_scores_one(choice: Seq<char>)
    ensures
        score_of(choice, Seq::<char>::empty()) == Rating::one(),
{
}

/// Against a non-empty query the empty choice scores 0.
pub proof fn lemma_empty_choice_scores_zero(query: Seq<char>)
    requires
        query.len() > 0,
    ensures
        score_of(Seq::<char>::empty(), query) == Rating::zero(),
{
    lemma_longer_query_never_matches(Seq::<char>::empty(), query);
}

/// A score is well formed, and it is positive exactly where the query occurs
/// in the choice as a smart-case subsequence.
pub proof fn lemma_positive_iff_match(choice: Seq<char>, query: Seq<char>)
    ensures
        score_of(choice, query).wf(),
        score_of(choice, query).is_positive() <==> is_match(choice, query),
{
    if query.len() == 0 {
        lemma_empty_query_matches(choice, query);
    } else if is_match(choice, query) {
        lemma_minimal_span_len_defined(choice, query);
    }
}

/// Tighter matches score higher: of two choices that the query matches, one
/// with a shorter minimal span and no greater length has the greater score.
/// So a choice that holds the query as a contiguous substring beats an equally
/// long one that holds it only scattered.
pub proof fn lemma_tighter_span_scores_higher(a: Seq<char>, b: Seq<char>, query: Seq<char>)
    requires
        query.len() > 0,
        is_match(a, query),
        is_match(b, query),
        minimal_span_len(a, query) < minimal_span_len(b, query),
        a.len() <= b.len(),
    ensures
        score_of(a, query).exceeds(score_of(b, query)),
{
    lemma_minimal_span_len_defined(a, query);
    lemma_minimal_span_len_defined(b, query);
    let n = query.len() as int;
    let sa = minimal_span_len(a, query);
    let sb = minimal_span_len(b, query);
    let la = a.len() as int;
    let lb = b.len() as int;
    assert(n * (sb * lb) - n * (sa * la) > 0) by (nonlinear_arith)
        requires
            n > 0,
            0 < sa < sb,
            0 < la <= lb,
    ;
}

/// Shorter choices score higher: of two choices with minimal spans of equal
/// length, the shorter choice has the greater score.
pub proof fn lemma_shorter_choice_scores_higher(a: Seq<char>, b: Seq<char>, query: Seq<char>)
    requires
        query.len() > 0,
        is_match(a, query),
        is_match(b, query),
        minimal_span_len(a, query) == minimal_span_len(b, query),
        a.len() < b.len(),
    ensures
        score_of(a, query).exceeds(score_of(b, query)),
{
    lemma_minimal_span_len_defined(a, query);
    lemma_minimal_span_len_defined(b, query);
    let n = query.len() as int;
    let sa = minimal_span_len(a, query);
    let la = a.len() as int;
    let lb = b.len() as int;
    assert(n * (sa * lb) - n * (sa * la) > 0) by (nonlinear_arith)
        requires
            n > 0,
            0 < sa,
            0 < la < lb,
    ;
}

} // verus!
