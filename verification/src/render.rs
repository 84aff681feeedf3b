//! Drawing a frame: the prompt line and the visible rows of matches, with
//! the matched characters highlighted and the row under the cursor inverted.

use unicode_width::UnicodeWidthStr;
use vstd::prelude::*;
use vstd::string::{StrSliceExecFns, StringSliceAdditionalSpecFns};
use vstd::utf8::encode_utf8;
use crate::ansi::{decimal_digits, format_decimal, hide_cursor_bytes, show_cursor_bytes};
use crate::matching::{highlight, texts, visual_score};
use crate::screen::{styled, Screen, ScreenModel, Style};
use crate::search::{lines, Search, SearchModel};
use crate::subsequence::{is_match, positions};

verus! {

/// The number of terminal columns that a text takes up, as
/// `UnicodeWidthStr::width` of the crate unicode-width computes it from the
/// characters of the text.
pub uninterp spec fn display_width(text: Seq<char>) -> nat;

/// `UnicodeWidthStr::width` of unicode-width: the displayed width of a string
/// in columns.
#[verifier::external_body]
fn text_width(s: &str) -> (w: usize)
    ensures
        w == display_width(s@),
{
    UnicodeWidthStr::width(s)
}

/// What differs between the platforms on which a frame is drawn.
pub struct Platform {
    /// The line terminator.
    pub newline: &'static str,
    /// The number of columns at the right edge that are left free.
    pub margin: u16,
    /// The character that marks a selected choice.
    pub check_mark: char,
}

impl Platform {
    /// A POSIX terminal: lines end in a line feed, rows use the full width,
    /// and selected choices are marked with a check mark.
    pub fn unix() -> (p: Platform)
        ensures
            p.margin == 0,
            p.check_mark == '\u{2713}',
            p.newline@ == seq!['\n'],
    {
        proof {
            reveal_strlit("\n");
        }
        Platform { newline: "\n", margin: 0, check_mark: '\u{2713}' }
    }

    /// A native console: lines end in a carriage return and a line feed, the
    /// last column is left free, and selected choices are marked with a
    /// square root sign.
    pub fn windows() -> (p: Platform)
        ensures
            p.margin == 1,
            p.check_mark == '\u{221A}',
            p.newline@ == seq!['\r', '\n'],
    {
        proof {
            reveal_strlit("\r\n");
        }
        Platform { newline: "\r\n", margin: 1, check_mark: '\u{221A}' }
    }
}

/// The part of `s` from the character at index `begin` up to, and not
/// including, the character at index `end`.
pub fn slice_chars(s: &str, begin: usize, end: usize) -> (r: &str)
    requires
        begin <= end <= s@.len(),
    ensures
        r@ == s@.subrange(begin as int, end as int),
{
    s.substring_char(begin, end)
}

/// The greatest number of characters, not above `n`, whose prefix of `text`
/// is at most `max_width` columns wide; or zero.
pub open spec fn fitting_prefix(text: Seq<char>, n: nat, max_width: nat) -> nat
    decreases n,
{
    if n == 0 || display_width(text.take(n as int)) <= max_width {
        n
    } else {
        fitting_prefix(text, (n - 1) as nat, max_width)
    }
}

/// How many characters of `text` are drawn in a row of `max_width` columns:
/// no more than there are columns, and so few that they fit.
pub open spec fn drawn_chars(text: Seq<char>, max_width: nat) -> nat {
    fitting_prefix(
        text,
        if text.len() <= max_width {
            text.len()
        } else {
            max_width
        },
        max_width,
    )
}

/// The style of a span: inverted on the row under the cursor, red where the
/// span is a matched character.
pub open spec fn span_style(selected: bool, matched: bool) -> Style {
    if selected {
        if matched {
            Style::RedInverted
        } else {
            Style::Inverted
        }
    } else {
        if matched {
            Style::Red
        } else {
            Style::Plain
        }
    }
}

/// The bytes of one row: the characters of `text` from `from` up to `limit`,
/// with the characters at `indices` drawn as matched and the stretches
/// between them as unmatched. The row breaks off where an index reaches the
/// limit.
pub open spec fn row_bytes(
    text: Seq<char>,
    indices: Seq<int>,
    from: int,
    limit: int,
    selected: bool,
) -> Seq<u8>
    decreases indices.len(),
{
    if indices.len() == 0 {
        styled(span_style(selected, false), encode_utf8(text.subrange(from, limit)))
    } else if from >= limit {
        Seq::empty()
    } else {
        let idx = if indices[0] < limit {
            indices[0]
        } else {
            limit
        };
        let unmatched = styled(span_style(selected, false), encode_utf8(text.subrange(from, idx)));
        if idx == limit {
            unmatched
        } else {
            unmatched + styled(
                span_style(selected, true),
                encode_utf8(text.subrange(idx, idx + 1)),
            ) + row_bytes(text, indices.drop_first(), idx + 1, limit, selected)
        }
    }
}

/// The width that is left for a row on a window of `cols` columns.
pub open spec fn row_width(cols: nat, margin: nat) -> nat {
    if cols >= margin {
        (cols - margin) as nat
    } else {
        0
    }
}

/// Draws one row: `choice`, cut to the width of the window, with the
/// characters at `indices` highlighted.
pub fn print_match(
    screen: &mut Screen,
    choice: &str,
    indices: &[usize],
    max_width: u16,
    selected: bool,
)
    requires
        forall|j: int, k: int| 0 <= j < k < indices@.len() ==> indices@[j] < indices@[k],
    ensures
        final(screen)@ == old(screen)@.written(
            row_bytes(
                choice@,
                positions(indices@),
                0,
                drawn_chars(choice@, max_width as nat) as int,
                selected,
            ),
        ),
{
    let ghost text = choice@;
    let ghost idxs = positions(indices@);
    let chars_in_choice = choice.unicode_len();
    let mut chars_to_draw = if chars_in_choice <= max_width as usize {
        chars_in_choice
    } else {
        max_width as usize
    };
    while chars_to_draw > 0 && text_width(slice_chars(choice, 0, chars_to_draw)) > max_width as usize
        invariant
            text == choice@,
            chars_to_draw <= text.len(),
            fitting_prefix(text, chars_to_draw as nat, max_width as nat) == drawn_chars(
                text,
                max_width as nat,
            ),
        decreases chars_to_draw,
    {
        proof {
            assert(text.subrange(0, chars_to_draw as int) == text.take(chars_to_draw as int));
        }
        chars_to_draw -= 1;
    }
    proof {
        assert(text.subrange(0, chars_to_draw as int) == text.take(chars_to_draw as int));
    }
    let ghost limit = chars_to_draw as int;
    proof {
        assert(limit == drawn_chars(text, max_width as nat));
    }
    let ghost whole = row_bytes(text, idxs, 0, limit, selected);
    let plain = if selected {
        Style::Inverted
    } else {
        Style::Plain
    };
    let matched = if selected {
        Style::RedInverted
    } else {
        Style::Red
    };
    let mut last_idx: usize = 0;
    let mut k: usize = 0;
    proof {
        assert(idxs.skip(0) == idxs);
        assert(screen@.out + whole == old(screen)@.out + whole);
    }
    while k < indices.len()
        invariant
            text == choice@,
            idxs == positions(indices@),
            limit == chars_to_draw,
            limit <= text.len(),
            limit == drawn_chars(text, max_width as nat),
            whole == row_bytes(text, idxs, 0, limit, selected),
            plain == span_style(selected, false),
            matched == span_style(selected, true),
            forall|j: int, m: int| 0 <= j < m < indices@.len() ==> indices@[j] < indices@[m],
            k <= indices@.len(),
            last_idx <= limit,
            k > 0 ==> last_idx == indices@[k - 1] + 1,
            k == 0 ==> last_idx == 0,
            screen@ == (ScreenModel { out: screen@.out, ..old(screen)@ }),
            screen@.out + row_bytes(text, idxs.skip(k as int), last_idx as int, limit, selected)
                == old(screen)@.out + whole,
        decreases indices@.len() - k,
    {
        let ghost rest = idxs.skip(k as int);
        let ghost before = screen@;
        proof {
            assert(rest[0] == indices@[k as int]);
            assert(rest.drop_first() == idxs.skip(k + 1));
            if k > 0 {
                assert(indices@[k - 1] < indices@[k as int]);
            }
        }
        let idx = if indices[k] < chars_to_draw {
            indices[k]
        } else {
            chars_to_draw
        };
        if last_idx >= chars_to_draw {
            proof {
                assert(screen@.out + Seq::<u8>::empty() == screen@.out);
                assert(old(screen)@.out + whole == old(screen)@.written(whole).out);
            }
            return;
        }
        screen.write_styled(slice_chars(choice, last_idx, idx), plain);
        let ghost unmatched = styled(
            plain,
            encode_utf8(text.subrange(last_idx as int, idx as int)),
        );
        if idx == chars_to_draw {
            proof {
                assert(screen@.out == before.out + unmatched);
                assert(old(screen)@.out + whole == old(screen)@.written(whole).out);
            }
            return;
        }
        screen.write_styled(slice_chars(choice, idx, idx + 1), matched);
        proof {
            let marked = styled(matched, encode_utf8(text.subrange(idx as int, idx + 1)));
            let tail = row_bytes(text, idxs.skip(k + 1), idx + 1, limit, selected);
            assert(screen@.out == before.out + unmatched + marked);
            assert(before.out + unmatched + marked + tail == before.out + (unmatched + marked
                + tail));
        }
        last_idx = idx + 1;
        k += 1;
    }
    let ghost before = screen@;
    screen.write_styled(slice_chars(choice, last_idx, chars_to_draw), plain);
    proof {
        assert(idxs.skip(k as int).len() == 0);
        assert(old(screen)@.out + whole == old(screen)@.written(whole).out);
    }
}

/// A choice as it is drawn: a selected choice is followed by a space and
/// the check mark.
pub open spec fn annotated(
    choice: Seq<char>,
    selections: Seq<Seq<char>>,
    check_mark: char,
) -> Seq<char> {
    if selections.contains(choice) {
        choice.push(' ').push(check_mark)
    } else {
        choice
    }
}

/// The bytes of the rows of matches from `row` on, the first of them on line
/// `line` of the reserved region: each match cut to the window, highlighted
/// for the query, and inverted on the line under the cursor. The rows are
/// separated by line terminators and end with the last visible line.
pub open spec fn rows_bytes(
    screen: ScreenModel,
    matches: Seq<Seq<char>>,
    query: Seq<char>,
    selections: Seq<Seq<char>>,
    cursor_index: int,
    row: int,
    line: int,
    newline: Seq<u8>,
    margin: nat,
    check_mark: char,
) -> Seq<u8>
    decreases matches.len() - row,
{
    if row < 0 || row >= matches.len() {
        Seq::empty()
    } else {
        let text = annotated(matches[row], selections, check_mark);
        let width = row_width(screen.cols, margin);
        let this = row_bytes(
            text,
            highlight(matches[row], query),
            0,
            drawn_chars(text, width) as int,
            line == cursor_index + 1,
        );
        if line >= screen.visible_choices() {
            this
        } else {
            this + newline + rows_bytes(
                screen,
                matches,
                query,
                selections,
                cursor_index,
                row + 1,
                line + 1,
                newline,
                margin,
                check_mark,
            )
        }
    }
}

/// Whether `text` is among the selections.
fn is_selected(selections: &[String], text: &String) -> (r: bool)
    ensures
        r == lines(selections@).contains(text@),
{
    let mut i: usize = 0;
    while i < selections.len()
        invariant
            i <= selections@.len(),
            forall|k: int| 0 <= k < i ==> lines(selections@)[k] != text@,
        decreases selections@.len() - i,
    {
        if selections[i] == *text {
            proof {
                assert(lines(selections@)[i as int] == text@);
            }
            return true;
        }
        i += 1;
    }
    false
}

/// Draws the visible rows of matches, beginning with the match at
/// `scroll_offset`.
pub fn print_matches(
    screen: &mut Screen,
    matches: &[&str],
    query: &str,
    scroll_offset: usize,
    cursor_index: usize,
    selections: &[String],
    platform: &Platform,
)
    requires
        scroll_offset <= matches@.len(),
        cursor_index < usize::MAX,
        forall|k: int|
            scroll_offset <= k < matches@.len() ==> query@.len() == 0 || (#[trigger] matches@[k])@.len()
                == 0 || is_match(matches@[k]@, query@),
    ensures
        final(screen)@ == old(screen)@.written(
            rows_bytes(
                old(screen)@,
                texts(matches@),
                query@,
                lines(selections@),
                cursor_index as int,
                scroll_offset as int,
                1,
                platform.newline.spec_bytes(),
                platform.margin as nat,
                platform.check_mark,
            ),
        ),
{
    let ghost start = old(screen)@;
    let ghost all = texts(matches@);
    let ghost sel = lines(selections@);
    let ghost newline = platform.newline.spec_bytes();
    let ghost margin = platform.margin as nat;
    let ghost mark = platform.check_mark;
    let ghost whole = rows_bytes(
        start,
        all,
        query@,
        sel,
        cursor_index as int,
        scroll_offset as int,
        1,
        newline,
        margin,
        mark,
    );
    let visible = screen.visible_choices() as usize;
    let mut i: usize = 1;
    let mut row: usize = scroll_offset;
    proof {
        assert(screen@.out + whole == start.out + whole);
    }
    while row < matches.len()
        invariant
            start == old(screen)@,
            all == texts(matches@),
            sel == lines(selections@),
            newline == platform.newline.spec_bytes(),
            margin == platform.margin as nat,
            mark == platform.check_mark,
            visible == start.visible_choices(),
            visible <= 65535,
            whole == rows_bytes(
                start,
                all,
                query@,
                sel,
                cursor_index as int,
                scroll_offset as int,
                1,
                newline,
                margin,
                mark,
            ),
            cursor_index < usize::MAX,
            scroll_offset <= row <= matches@.len(),
            1 <= i <= visible + 1,
            i <= 65536,
            forall|k: int|
                scroll_offset <= k < matches@.len() ==> query@.len() == 0 || (
                #[trigger] matches@[k])@.len() == 0 || is_match(matches@[k]@, query@),
            screen@ == (ScreenModel { out: screen@.out, ..start }),
            screen@.out + rows_bytes(
                start,
                all,
                query@,
                sel,
                cursor_index as int,
                row as int,
                i as int,
                newline,
                margin,
                mark,
            ) == start.out + whole,
        decreases matches@.len() - row,
    {
        let choice = matches[row];
        let ghost before = screen@;
        let indices = visual_score(choice, query);
        let cols = screen.width();
        let max_width = if cols >= platform.margin {
            cols - platform.margin
        } else {
            0
        };
        let mut annotated_choice = choice.to_owned();
        if is_selected(selections, &annotated_choice) {
            annotated_choice.push(' ');
            annotated_choice.push(platform.check_mark);
        }
        proof {
            assert(all[row as int] == choice@);
            assert(annotated_choice@ == annotated(all[row as int], sel, mark));
        }
        print_match(
            screen,
            annotated_choice.as_str(),
            indices.as_slice(),
            max_width,
            i == cursor_index + 1,
        );
        let ghost this = row_bytes(
            annotated_choice@,
            highlight(all[row as int], query@),
            0,
            drawn_chars(annotated_choice@, row_width(start.cols, margin)) as int,
            i == cursor_index + 1,
        );
        proof {
            assert(max_width as nat == row_width(start.cols, margin));
            assert(screen@.out == before.out + this);
            assert(rows_bytes(
                start,
                all,
                query@,
                sel,
                cursor_index as int,
                row as int,
                i as int,
                newline,
                margin,
                mark,
            ) == if i >= visible {
                this
            } else {
                this + newline + rows_bytes(
                    start,
                    all,
                    query@,
                    sel,
                    cursor_index as int,
                    row + 1,
                    i + 1,
                    newline,
                    margin,
                    mark,
                )
            });
        }
        if i >= visible {
            return;
        }
        screen.write(platform.newline);
        proof {
            let tail = rows_bytes(
                start,
                all,
                query@,
                sel,
                cursor_index as int,
                row + 1,
                i + 1,
                newline,
                margin,
                mark,
            );
            assert(screen@.out == before.out + this + newline);
            assert(before.out + this + newline + tail == before.out + (this + newline + tail));
        }
        i += 1;
        row += 1;
    }
    proof {
        assert(screen@.out + Seq::<u8>::empty() == screen@.out);
        assert(start.out + whole == start.written(whole).out);
    }
}

/// The column of the prompt line on which the cursor waits: behind the two
/// characters of the prompt and the query, and no further than the greatest
/// column that can be addressed.
pub open spec fn prompt_column(query: Seq<char>) -> u16 {
    if 2 + display_width(query) <= 0xFFFF {
        (2 + display_width(query)) as u16
    } else {
        0xFFFFu16
    }
}

/// The bytes of the prompt line: `> `, the query, and in parentheses the
/// number of matches over the number of choices, followed by ` choices`.
pub open spec fn prompt_bytes(search: SearchModel, newline: Seq<u8>) -> Seq<u8> {
    seq![0x3Eu8, 0x20u8] + encode_utf8(search.query) + seq![0x20u8, 0x28u8] + decimal_digits(
        search.matches.len(),
    ) + seq![0x2Fu8] + decimal_digits(search.choices.len()) + seq![
        0x20u8,
        0x63u8,
        0x68u8,
        0x6Fu8,
        0x69u8,
        0x63u8,
        0x65u8,
        0x73u8,
        0x29u8,
    ] + newline
}

/// The bytes of a frame: the cursor hidden, the reserved region cleared, the
/// prompt line, the visible rows of matches, the cursor put behind the query
/// on the prompt line, and the cursor shown.
pub open spec fn frame_bytes(
    screen: ScreenModel,
    search: SearchModel,
    newline: Seq<u8>,
    margin: nat,
    check_mark: char,
) -> Seq<u8> {
    hide_cursor_bytes() + screen.blank_screen_bytes() + prompt_bytes(search, newline)
        + rows_bytes(
        screen,
        search.matches,
        search.query,
        search.selections,
        search.cursor_index as int,
        search.scroll_offset as int,
        1,
        newline,
        margin,
        check_mark,
    ) + screen.prompt_cursor_bytes(prompt_column(search.query)) + show_cursor_bytes()
}

/// Draws the prompt line.
fn print_prompt(screen: &mut Screen, search: &Search, platform: &Platform)
    ensures
        final(screen)@ == old(screen)@.written(
            prompt_bytes(search@, platform.newline.spec_bytes()),
        ),
{
    let ghost start = screen@;
    let prompt: &'static [u8] = &[0x3E, 0x20];
    let open: &'static [u8] = &[0x20, 0x28];
    let slash: &'static [u8] = &[0x2F];
    let close: &'static [u8] = &[0x20, 0x63, 0x68, 0x6F, 0x69, 0x63, 0x65, 0x73, 0x29];
    let matches = search.matches();
    let choices = search.choices();
    proof {
        assert(matches@.len() == search@.matches.len());
        assert(choices@.len() == search@.choices.len());
    }
    screen.write_bytes(prompt);
    screen.write(search.query());
    screen.write_bytes(open);
    screen.write_bytes(format_decimal(matches.len() as u64).as_slice());
    screen.write_bytes(slash);
    screen.write_bytes(format_decimal(choices.len() as u64).as_slice());
    screen.write_bytes(close);
    screen.write(platform.newline);
    proof {
        assert(screen@.out == start.out + prompt_bytes(
            search@,
            platform.newline.spec_bytes(),
        ));
    }
}

/// Draws the session as one frame and hands the frame over, together with
/// whatever was buffered before it, for the caller to write to the terminal.
/// The matches must be up to date.
pub fn draw_screen(screen: &mut Screen, search: &Search, platform: &Platform) -> (frame: Vec<u8>)
    requires
        search@.wf(),
        !search@.stale,
    ensures
        frame@ == old(screen)@.out + frame_bytes(
            old(screen)@,
            search@,
            platform.newline.spec_bytes(),
            platform.margin as nat,
            platform.check_mark,
        ),
        final(screen)@ == (ScreenModel { out: Seq::empty(), ..old(screen)@ }),
{
    let ghost start = screen@;
    let ghost model = search@;
    let ghost newline = platform.newline.spec_bytes();
    screen.hide_cursor();
    screen.blank_screen();
    print_prompt(screen, search, platform);
    let ghost drawn = screen@;
    proof {
        assert(drawn == (ScreenModel { out: drawn.out, ..start }));
        assert(drawn.out == start.out + hide_cursor_bytes() + start.blank_screen_bytes()
            + prompt_bytes(model, newline));
    }
    let matches = search.matches();
    let count = matches.len();
    let scroll_offset = search.scroll_offset();
    let cursor_index = search.cursor_index();
    proof {
        assert forall|k: int| scroll_offset <= k < matches@.len() implies is_match(
            (#[trigger] matches@[k])@,
            model.query,
        ) by {
            assert(texts(matches@)[k] == matches@[k]@);
        }
        assert(matches@.len() == model.matches.len());
        assert(cursor_index < usize::MAX);
    }
    print_matches(
        screen,
        matches,
        search.query(),
        scroll_offset,
        cursor_index,
        search.selections(),
        platform,
    );
    let ghost rows = rows_bytes(
        start,
        model.matches,
        model.query,
        model.selections,
        model.cursor_index as int,
        model.scroll_offset as int,
        1,
        newline,
        platform.margin as nat,
        platform.check_mark,
    );
    proof {
        lemma_rows_ignore_output(
            drawn,
            start,
            model.matches,
            model.query,
            model.selections,
            model.cursor_index as int,
            model.scroll_offset as int,
            1,
            newline,
            platform.margin as nat,
            platform.check_mark,
        );
        assert(screen@.out == drawn.out + rows);
    }
    let width = text_width(search.query());
    let column: u16 = if width <= 0xFFFF - 2 {
        (2 + width) as u16
    } else {
        0xFFFF
    };
    screen.move_cursor_to_prompt_line(column);
    let frame = screen.show_cursor();
    proof {
        let head = hide_cursor_bytes() + start.blank_screen_bytes() + prompt_bytes(model, newline);
        let tail = start.prompt_cursor_bytes(column) + show_cursor_bytes();
        assert(frame@ == start.out + head + rows + start.prompt_cursor_bytes(column)
            + show_cursor_bytes());
        assert(start.out + head + rows + start.prompt_cursor_bytes(column) + show_cursor_bytes()
            == start.out + (head + rows + start.prompt_cursor_bytes(column)
            + show_cursor_bytes()));
    }
    frame
}

/// The rows depend on the size of the window, not on what is buffered.
proof fn lemma_rows_ignore_output(
    a: ScreenModel,
    b: ScreenModel,
    matches: Seq<Seq<char>>,
    query: Seq<char>,
    selections: Seq<Seq<char>>,
    cursor_index: int,
    row: int,
    line: int,
    newline: Seq<u8>,
    margin: nat,
    check_mark: char,
)
    requires
        a.cols == b.cols,
        a.rows == b.rows,
        a.desired_rows == b.desired_rows,
    ensures
        rows_bytes(
            a,
            matches,
            query,
            selections,
            cursor_index,
            row,
            line,
            newline,
            margin,
            check_mark,
        ) == rows_bytes(
            b,
            matches,
            query,
            selections,
            cursor_index,
            row,
            line,
            newline,
            margin,
            check_mark,
        ),
    decreases matches.len() - row,
{
    if 0 <= row < matches.len() {
        lemma_rows_ignore_output(
            a,
            b,
            matches,
            query,
            selections,
            cursor_index,
            row + 1,
            line + 1,
            newline,
            margin,
            check_mark,
        );
    }
}

} // verus!
