//! Editing text from its end: trimming line ends and deleting the last word.

use vstd::prelude::*;

verus! {

/// `String::push` of std: appends one character.
pub assume_specification[ String::push ](s: &mut String, c: char)
    ensures
        final(s)@ == old(s)@.push(c),
;

/// `String::pop` of std: removes the last character and returns it, or
/// returns `None` and changes nothing where the string is empty.
pub assume_specification[ String::pop ](s: &mut String) -> (r: Option<char>)
    ensures
        old(s)@.len() == 0 ==> r is None && final(s)@ == old(s)@,
        old(s)@.len() > 0 ==> r == Some(old(s)@.last()) && final(s)@ == old(s)@.drop_last(),
;

/// `String::clear` of std: removes every character.
pub assume_specification[ String::clear ](s: &mut String)
    ensures
        final(s)@ == Seq::<char>::empty(),
;

/// `s` without the characters at its end that satisfy `pred`: the longest
/// prefix of `s` that is empty or ends in a character which does not.
pub open spec fn without_trailing(s: Seq<char>, pred: spec_fn(char) -> bool) -> Seq<char>
    decreases s.len(),
{
    if s.len() > 0 && pred(s.last()) {
        without_trailing(s.drop_last(), pred)
    } else {
        s
    }
}

/// Whether a character ends a line: a line feed or a carriage return.
pub open spec fn is_line_end(c: char) -> bool {
    c == '\n' || c == '\r'
}

/// `s` without the line feeds and carriage returns at its end.
pub open spec fn trimmed(s: Seq<char>) -> Seq<char> {
    without_trailing(s, |c: char| is_line_end(c))
}

/// `s` without its last word: the spaces at its end go, and then the
/// characters before them up to, and not including, the next space.
pub open spec fn without_last_word(s: Seq<char>) -> Seq<char> {
    without_trailing(without_trailing(s, |c: char| c == ' '), |c: char| c != ' ')
}

/// What `without_trailing` returns: a prefix of `s`, after which only
/// characters that satisfy `pred` follow, and which is empty or ends in a
/// character that does not.
pub proof fn lemma_without_trailing(s: Seq<char>, pred: spec_fn(char) -> bool)
    ensures
        without_trailing(s, pred).is_prefix_of(s),
        forall|i: int| without_trailing(s, pred).len() <= i < s.len() ==> pred(#[trigger] s[i]),
        without_trailing(s, pred).len() > 0 ==> !pred(without_trailing(s, pred).last()),
    decreases s.len(),
{
    if s.len() > 0 && pred(s.last()) {
        let init = s.drop_last();
        lemma_without_trailing(init, pred);
        let r = without_trailing(init, pred);
        assert(r =~= s.subrange(0, r.len() as int));
        assert forall|i: int| r.len() <= i < s.len() implies pred(#[trigger] s[i]) by {
            if i < init.len() {
                assert(init[i] == s[i]);
            }
        }
    } else {
        assert(s =~= s.subrange(0, s.len() as int));
    }
}

/// Removes the line feeds and carriage returns at the end of `s`.
pub fn trim(s: &mut String)
    ensures
        final(s)@ == trimmed(old(s)@),
{
    let ghost pred = |c: char| is_line_end(c);
    loop
        invariant
            pred == |c: char| is_line_end(c),
            without_trailing(s@, pred) == trimmed(old(s)@),
        decreases s@.len(),
    {
        match s.pop() {
            Some(x) => {
                if x != '\n' && x != '\r' {
                    let ghost popped = s@;
                    s.push(x);
                    proof {
                        assert(s@.drop_last() == popped);
                        assert(!pred(x));
                    }
                    return;
                }
                proof {
                    assert(pred(x));
                }
            },
            None => {
                return;
            },
        }
    }
}

/// Removes the last word of `s`, and the spaces after it.
pub fn delete_last_word(s: &mut String)
    ensures
        final(s)@ == without_last_word(old(s)@),
{
    let ghost spaces = |c: char| c == ' ';
    let ghost letters = |c: char| c != ' ';
    let mut deleted_something = false;
    loop
        invariant
            spaces == |c: char| c == ' ',
            letters == |c: char| c != ' ',
            !deleted_something ==> without_last_word(s@) == without_last_word(old(s)@),
            deleted_something ==> without_trailing(s@, letters) == without_last_word(old(s)@),
        decreases s@.len(),
    {
        let ghost before = s@;
        match s.pop() {
            Some(x) => {
                if x == ' ' {
                    if deleted_something {
                        s.push(x);
                        proof {
                            assert(s@ == before);
                            assert(!letters(x));
                        }
                        return;
                    }
                    proof {
                        assert(spaces(x));
                        assert(without_trailing(before, spaces) == without_trailing(s@, spaces));
                    }
                } else {
                    proof {
                        assert(letters(x));
                        assert(!spaces(x));
                        if !deleted_something {
                            assert(without_trailing(before, spaces) == before);
                        }
                        assert(without_trailing(before, letters) == without_trailing(s@, letters));
                    }
                    deleted_something = true;
                }
            },
            None => {
                proof {
                    assert(without_trailing(s@, spaces) == s@);
                }
                return;
            },
        }
    }
}

} // verus!
