//! The vocabulary of matching: smart-case character comparison, embeddings
//! of a query into a choice as a subsequence, and greedy (leftmost)
//! embeddings.

use vstd::prelude::*;

verus! {

/// The ASCII lowercase form of a character: `'A'..='Z'` map to `'a'..='z'`,
/// every other character is unchanged.
pub open spec fn ascii_lower(c: char) -> char {
    if 'A' <= c && c <= 'Z' {
        ((c as u32) + 32) as char
    } else {
        c
    }
}

/// Smart-case match of a query character `q` against a choice character `c`:
/// a lowercase query character matches either case, an uppercase one only
/// itself.
pub open spec fn chars_match(q: char, c: char) -> bool {
    q == c || q == ascii_lower(c)
}

/// `pos` embeds `query` into `s`: one position of `s` per query character,
/// strictly increasing, each holding a character that the query character
/// matches.
pub open spec fn is_embedding(s: Seq<char>, query: Seq<char>, pos: Seq<int>) -> bool {
    &&& pos.len() == query.len()
    &&& forall|k: int|
        0 <= k < pos.len() ==> 0 <= #[trigger] pos[k] < s.len() && chars_match(
            query[k],
            s[pos[k]],
        )
    &&& forall|j: int, k: int| 0 <= j < k < pos.len() ==> #[trigger] pos[j] < #[trigger] pos[k]
}

/// `pos` embeds `query` into the part of `s` that lies strictly after `start`.
pub open spec fn is_embedding_after(
    s: Seq<char>,
    query: Seq<char>,
    start: int,
    pos: Seq<int>,
) -> bool {
    is_embedding(s, query, pos) && (pos.len() > 0 ==> pos[0] > start)
}

/// The query occurs in `s` as a smart-case subsequence.
pub open spec fn is_match(s: Seq<char>, query: Seq<char>) -> bool {
    exists|pos: Seq<int>| is_embedding(s, query, pos)
}

/// The position that precedes `pos[k]` in a walk which begins at `start`.
pub open spec fn predecessor(start: int, pos: Seq<int>, k: int) -> int {
    if k == 0 {
        start
    } else {
        pos[k - 1]
    }
}

/// `pos` is the greedy embedding of `query` after `start`: every query
/// character sits at the earliest position after its predecessor at which it
/// matches.
pub open spec fn is_greedy_after(
    s: Seq<char>,
    query: Seq<char>,
    start: int,
    pos: Seq<int>,
) -> bool {
    &&& pos.len() == query.len()
    &&& forall|k: int|
        0 <= k < pos.len() ==> #[trigger] predecessor(start, pos, k) < pos[k] < s.len()
            && chars_match(query[k], s[pos[k]])
    &&& forall|k: int, j: int|
        0 <= k < pos.len() && predecessor(start, pos, k) < j < pos[k] ==> !#[trigger] chars_match(
            query[k],
            s[j],
        )
}

/// The positions of a vector of indices, as mathematical integers.
pub open spec fn positions(v: Seq<usize>) -> Seq<int> {
    Seq::new(v.len(), |k: int| v[k] as int)
}

/// The last position of a walk that begins at `start` and continues through
/// `pos`.
pub open spec fn walk_end(start: int, pos: Seq<int>) -> int {
    if pos.len() == 0 {
        start
    } else {
        pos.last()
    }
}

/// A greedy embedding is strictly increasing from `start` on.
pub proof fn lemma_greedy_increasing(
    s: Seq<char>,
    query: Seq<char>,
    start: int,
    pos: Seq<int>,
    j: int,
    k: int,
)
    requires
        is_greedy_after(s, query, start, pos),
        0 <= j <= k < pos.len(),
    ensures
        start < pos[j] <= pos[k],
        j < k ==> pos[j] < pos[k],
    decreases k,
{
    if j < k {
        lemma_greedy_increasing(s, query, start, pos, j, k - 1);
        assert(predecessor(start, pos, k) == pos[k - 1]);
    } else {
        if j > 0 {
            lemma_greedy_increasing(s, query, start, pos, j - 1, j - 1);
            assert(predecessor(start, pos, j) == pos[j - 1]);
        } else {
            assert(predecessor(start, pos, 0) == start);
        }
    }
}

/// A greedy embedding after `start` is an embedding after `start`.
pub proof fn lemma_greedy_is_embedding(s: Seq<char>, query: Seq<char>, start: int, pos: Seq<int>)
    requires
        is_greedy_after(s, query, start, pos),
        start >= -1,
    ensures
        is_embedding_after(s, query, start, pos),
{
    assert forall|j: int, k: int| 0 <= j < k < pos.len() implies pos[j] < pos[k] by {
        lemma_greedy_increasing(s, query, start, pos, j, k);
    }
    assert forall|k: int| 0 <= k < pos.len() implies 0 <= #[trigger] pos[k] < s.len()
        && chars_match(query[k], s[pos[k]]) by {
        lemma_greedy_increasing(s, query, start, pos, k, k);
        assert(predecessor(start, pos, k) < pos[k]);
    }
    if pos.len() > 0 {
        lemma_greedy_increasing(s, query, start, pos, 0, 0);
    }
}

/// Embeddings are strictly increasing, so positions are at least as far apart
/// as their ranks.
pub proof fn lemma_embedding_spread(s: Seq<char>, query: Seq<char>, pos: Seq<int>, j: int, k: int)
    requires
        is_embedding(s, query, pos),
        0 <= j <= k < pos.len(),
    ensures
        pos[k] - pos[j] >= k - j,
    decreases k - j,
{
    if j < k {
        lemma_embedding_spread(s, query, pos, j, k - 1);
        assert(pos[k - 1] < pos[k]);
    }
}

/// The greedy embedding is pointwise the least: no embedding after `start`
/// reaches its `k`-th character earlier than a greedy embedding of a prefix of
/// the query does.
pub proof fn lemma_greedy_least(
    s: Seq<char>,
    query: Seq<char>,
    start: int,
    n: int,
    greedy: Seq<int>,
    other: Seq<int>,
    k: int,
)
    requires
        0 <= n <= query.len(),
        is_greedy_after(s, query.take(n), start, greedy),
        is_embedding_after(s, query, start, other),
        0 <= k < n,
    ensures
        greedy[k] <= other[k],
    decreases k,
{
    assert(query.take(n)[k] == query[k]);
    if k > 0 {
        lemma_greedy_least(s, query, start, n, greedy, other, k - 1);
        assert(other[k - 1] < other[k]);
        assert(predecessor(start, greedy, k) == greedy[k - 1]);
    } else {
        assert(predecessor(start, greedy, 0) == start);
    }
    if other[k] < greedy[k] {
        assert(chars_match(query.take(n)[k], s[other[k]]));
    }
}

/// A greedy embedding of the first `k` query characters, extended by the
/// earliest match of the next character, is the greedy embedding of the
/// first `k + 1`.
pub proof fn lemma_greedy_extend(
    s: Seq<char>,
    query: Seq<char>,
    start: int,
    k: int,
    greedy: Seq<int>,
    next: int,
)
    requires
        0 <= k < query.len(),
        is_greedy_after(s, query.take(k), start, greedy),
        walk_end(start, greedy) < next < s.len(),
        chars_match(query[k], s[next]),
        forall|j: int| walk_end(start, greedy) < j < next ==> !#[trigger] chars_match(query[k], s[j]),
    ensures
        is_greedy_after(s, query.take(k + 1), start, greedy.push(next)),
{
    let grown = greedy.push(next);
    let prefix = query.take(k + 1);
    assert forall|m: int| 0 <= m < grown.len() implies #[trigger] predecessor(start, grown, m)
        < grown[m] < s.len() && chars_match(prefix[m], s[grown[m]]) by {
        if m < k {
            assert(grown[m] == greedy[m]);
            assert(predecessor(start, grown, m) == predecessor(start, greedy, m));
            assert(prefix[m] == query.take(k)[m]);
        } else {
            assert(predecessor(start, grown, m) == walk_end(start, greedy));
        }
    }
    assert forall|m: int, j: int|
        0 <= m < grown.len() && predecessor(start, grown, m) < j
            < grown[m] implies !#[trigger] chars_match(prefix[m], s[j]) by {
        if m < k {
            assert(grown[m] == greedy[m]);
            assert(predecessor(start, grown, m) == predecessor(start, greedy, m));
            assert(prefix[m] == query.take(k)[m]);
        } else {
            assert(predecessor(start, grown, m) == walk_end(start, greedy));
        }
    }
}

/// Where no character after a greedy embedding of the first `k` query
/// characters matches the next one, the query has no embedding after `start`.
pub proof fn lemma_greedy_stuck(
    s: Seq<char>,
    query: Seq<char>,
    start: int,
    k: int,
    greedy: Seq<int>,
)
    requires
        0 <= k < query.len(),
        is_greedy_after(s, query.take(k), start, greedy),
        forall|j: int| walk_end(start, greedy) < j < s.len() ==> !#[trigger] chars_match(query[k], s[j]),
    ensures
        forall|e: Seq<int>| !#[trigger] is_embedding_after(s, query, start, e),
{
    assert forall|e: Seq<int>| !#[trigger] is_embedding_after(s, query, start, e) by {
        if is_embedding_after(s, query, start, e) {
            if k > 0 {
                lemma_greedy_least(s, query, start, k, greedy, e, k - 1);
                assert(e[k - 1] < e[k]);
            }
            assert(chars_match(query[k], s[e[k]]));
        }
    }
}

/// Two greedy embeddings of one query after one start are the same.
pub proof fn lemma_greedy_unique(
    s: Seq<char>,
    query: Seq<char>,
    start: int,
    a: Seq<int>,
    b: Seq<int>,
)
    requires
        is_greedy_after(s, query, start, a),
        is_greedy_after(s, query, start, b),
        start >= -1,
    ensures
        a == b,
{
    lemma_greedy_is_embedding(s, query, start, a);
    lemma_greedy_is_embedding(s, query, start, b);
    assert(query.take(query.len() as int) == query);
    assert forall|k: int| 0 <= k < a.len() implies a[k] == b[k] by {
        lemma_greedy_least(s, query, start, query.len() as int, a, b, k);
        lemma_greedy_least(s, query, start, query.len() as int, b, a, k);
    }
    assert(a =~= b);
}

/// The span of an embedding of a non-empty query: the number of positions from
/// its first to its last, both included.
pub open spec fn span_of(pos: Seq<int>) -> int {
    pos.last() - pos[0] + 1
}

/// The span `start..=end` is at least as good as that of the embedding `e`:
/// it is shorter, or equally long and begins no later.
pub open spec fn span_beats(start: int, end: int, e: Seq<int>) -> bool {
    span_of(e) > end - start + 1 || (span_of(e) == end - start + 1 && e[0] >= start)
}

/// `start..=end` is the minimal span of `query` in `s`: some embedding runs
/// from `start` to `end`, no embedding has a shorter span, and no embedding
/// with an equally short span begins before `start`.
pub open spec fn is_minimal_span(s: Seq<char>, query: Seq<char>, start: int, end: int) -> bool {
    &&& exists|e: Seq<int>| #[trigger]
        is_embedding(s, query, e) && e[0] == start && e.last() == end
    &&& forall|e: Seq<int>| #[trigger] is_embedding(s, query, e) ==> span_beats(start, end, e)
}

/// `n` is the length of the shortest span that an embedding of `query` in `s`
/// has.
pub open spec fn is_minimal_span_len(s: Seq<char>, query: Seq<char>, n: int) -> bool {
    &&& exists|e: Seq<int>| #[trigger] is_embedding(s, query, e) && span_of(e) == n
    &&& forall|e: Seq<int>| #[trigger] is_embedding(s, query, e) ==> span_of(e) >= n
}

/// The length of the shortest span of `query` in `s`, where the query is not
/// empty and matches.
pub open spec fn minimal_span_len(s: Seq<char>, query: Seq<char>) -> int {
    choose|n: int| is_minimal_span_len(s, query, n)
}

/// An embedding of a non-empty query, without its first position, embeds the
/// rest of the query after that position.
pub proof fn lemma_embedding_split(s: Seq<char>, query: Seq<char>, pos: Seq<int>)
    requires
        query.len() > 0,
        is_embedding(s, query, pos),
    ensures
        0 <= pos[0] < s.len(),
        chars_match(query[0], s[pos[0]]),
        is_embedding_after(s, query.skip(1), pos[0], pos.skip(1)),
        walk_end(pos[0], pos.skip(1)) == pos.last(),
{
    let rest = query.skip(1);
    let tail = pos.skip(1);
    assert forall|k: int| 0 <= k < tail.len() implies 0 <= #[trigger] tail[k] < s.len()
        && chars_match(rest[k], s[tail[k]]) by {
        assert(tail[k] == pos[k + 1]);
    }
    assert forall|j: int, k: int| 0 <= j < k < tail.len() implies #[trigger] tail[j]
        < #[trigger] tail[k] by {
        assert(pos[j + 1] < pos[k + 1]);
    }
    if tail.len() > 0 {
        assert(pos[0] < pos[1]);
    }
}

/// A position that matches the first query character, followed by an
/// embedding of the rest of the query after it, embeds the whole query.
pub proof fn lemma_embedding_join(s: Seq<char>, query: Seq<char>, first: int, tail: Seq<int>)
    requires
        query.len() > 0,
        0 <= first < s.len(),
        chars_match(query[0], s[first]),
        is_embedding_after(s, query.skip(1), first, tail),
    ensures
        is_embedding(s, query, seq![first] + tail),
        (seq![first] + tail)[0] == first,
        (seq![first] + tail).last() == walk_end(first, tail),
{
    let pos = seq![first] + tail;
    let rest = query.skip(1);
    assert forall|k: int| 0 <= k < pos.len() implies 0 <= #[trigger] pos[k] < s.len()
        && chars_match(query[k], s[pos[k]]) by {
        if k > 0 {
            assert(pos[k] == tail[k - 1]);
            assert(rest[k - 1] == query[k]);
        }
    }
    assert forall|j: int, k: int| 0 <= j < k < pos.len() implies #[trigger] pos[j]
        < #[trigger] pos[k] by {
        assert(pos[k] == tail[k - 1]);
        if j > 0 {
            assert(pos[j] == tail[j - 1]);
        } else {
            if k > 1 {
                assert(tail[0] < tail[k - 1]);
            }
        }
    }
}

/// The shortest span length is unique, so `minimal_span_len` names it.
pub proof fn lemma_minimal_span_len_unique(s: Seq<char>, query: Seq<char>, n: int)
    requires
        is_minimal_span_len(s, query, n),
    ensures
        minimal_span_len(s, query) == n,
        is_match(s, query),
{
    let m = minimal_span_len(s, query);
    assert(is_minimal_span_len(s, query, m));
    let e1 = choose|e: Seq<int>| #[trigger] is_embedding(s, query, e) && span_of(e) == n;
    let e2 = choose|e: Seq<int>| #[trigger] is_embedding(s, query, e) && span_of(e) == m;
    assert(span_of(e1) >= m);
    assert(span_of(e2) >= n);
}

/// The bounds of the minimal span give its length.
pub proof fn lemma_minimal_span_gives_len(s: Seq<char>, query: Seq<char>, start: int, end: int)
    requires
        is_minimal_span(s, query, start, end),
    ensures
        is_minimal_span_len(s, query, end - start + 1),
{
    let e = choose|e: Seq<int>| #[trigger]
        is_embedding(s, query, e) && e[0] == start && e.last() == end;
    assert(is_embedding(s, query, e) && span_of(e) == end - start + 1);
}

/// The empty query matches every choice.
pub proof fn lemma_empty_query_matches(s: Seq<char>, query: Seq<char>)
    requires
        query.len() == 0,
    ensures
        is_match(s, query),
{
    assert(is_embedding(s, query, Seq::<int>::empty()));
}

/// A non-empty query matches no choice that is shorter than it is; so none
/// matches the empty choice.
pub proof fn lemma_longer_query_never_matches(s: Seq<char>, query: Seq<char>)
    requires
        query.len() > s.len(),
    ensures
        !is_match(s, query),
{
    if is_match(s, query) {
        let e = choose|e: Seq<int>| is_embedding(s, query, e);
        lemma_embedding_spread(s, query, e, 0, query.len() - 1);
        assert(e[0] >= 0);
        assert(e[query.len() - 1] < s.len());
    }
}

/// Where some embedding has a span of at most `bound`, there is a shortest
/// span.
proof fn lemma_minimal_span_exists(s: Seq<char>, query: Seq<char>, bound: int)
    requires
        query.len() > 0,
        exists|e: Seq<int>| #[trigger] is_embedding(s, query, e) && span_of(e) <= bound,
    ensures
        exists|n: int| is_minimal_span_len(s, query, n),
    decreases bound,
{
    let e = choose|e: Seq<int>| #[trigger] is_embedding(s, query, e) && span_of(e) <= bound;
    lemma_embedding_spread(s, query, e, 0, query.len() - 1);
    assert(bound >= 1);
    if exists|f: Seq<int>| #[trigger] is_embedding(s, query, f) && span_of(f) <= bound - 1 {
        lemma_minimal_span_exists(s, query, bound - 1);
    } else {
        assert(is_embedding(s, query, e) && span_of(e) == bound);
        assert(is_minimal_span_len(s, query, bound));
    }
}

/// Where a non-empty query matches, `minimal_span_len` is the length of its
/// shortest span; it is at least the length of the query and at most the
/// length of the choice.
pub proof fn lemma_minimal_span_len_defined(s: Seq<char>, query: Seq<char>)
    requires
        query.len() > 0,
        is_match(s, query),
    ensures
        is_minimal_span_len(s, query, minimal_span_len(s, query)),
        query.len() <= minimal_span_len(s, query) <= s.len(),
{
    let e = choose|e: Seq<int>| is_embedding(s, query, e);
    assert(is_embedding(s, query, e) && span_of(e) <= span_of(e));
    lemma_minimal_span_exists(s, query, span_of(e));
    let n = minimal_span_len(s, query);
    let f = choose|f: Seq<int>| #[trigger] is_embedding(s, query, f) && span_of(f) == n;
    lemma_embedding_spread(s, query, f, 0, query.len() - 1);
    assert(f[0] >= 0);
    assert(f[query.len() - 1] < s.len());
}

/// The minimal span of a query in a choice is unique.
pub proof fn lemma_minimal_span_unique(
    s: Seq<char>,
    query: Seq<char>,
    start1: int,
    end1: int,
    start2: int,
    end2: int,
)
    requires
        is_minimal_span(s, query, start1, end1),
        is_minimal_span(s, query, start2, end2),
    ensures
        start1 == start2,
        end1 == end2,
{
    let e1 = choose|e: Seq<int>| #[trigger]
        is_embedding(s, query, e) && e[0] == start1 && e.last() == end1;
    let e2 = choose|e: Seq<int>| #[trigger]
        is_embedding(s, query, e) && e[0] == start2 && e.last() == end2;
    assert(span_beats(start1, end1, e2));
    assert(span_beats(start2, end2, e1));
}

} // verus!
