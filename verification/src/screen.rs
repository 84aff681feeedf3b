//! Logical key events, and the screen: a buffer of terminal output with the
//! rendering vocabulary of the reserved region below the prompt.

use vstd::prelude::*;
use vstd::string::StringSliceAdditionalSpecFns;
use crate::ansi::{
    clear_bytes, cursor_move, cursor_right, cursor_up, hide_cursor_bytes, inverse_bytes, red_bytes,
    reset_bytes, restore_cursor_bytes, save_cursor_bytes, show_cursor_bytes,
};

verus! {

/// A logical key event.
#[derive(Debug, PartialEq, Eq, Copy, Clone, Structural)]
pub enum Key {
    Char(char),
    Control(char),
    Enter,
    Backspace,
    Tab,
    ShiftTab,
    Nothing,
    Down,
    Up,
    Home,
    End,
    PgDown,
    PgUp,
    Resize,
}

/// The state of a screen, as mathematical values.
pub struct ScreenModel {
    /// The bytes written since the last flush.
    pub out: Seq<u8>,
    /// The width of the terminal window in columns.
    pub cols: nat,
    /// The height of the terminal window in rows.
    pub rows: nat,
    /// How many rows of choices the caller would like to see.
    pub desired_rows: nat,
}

/// `count` copies of `bytes`, one after the other.
pub open spec fn repeated(bytes: Seq<u8>, count: nat) -> Seq<u8>
    decreases count,
{
    if count == 0 {
        Seq::empty()
    } else {
        repeated(bytes, (count - 1) as nat) + bytes
    }
}

/// How a span of text is drawn.
#[derive(Debug, PartialEq, Eq, Copy, Clone, Structural)]
pub enum Style {
    Plain,
    Inverted,
    Red,
    RedInverted,
}

/// A span of text in a style: the attributes of the style, the text, and a
/// reset of all attributes right after it, so that what is written later is
/// not affected.
pub open spec fn styled(style: Style, text: Seq<u8>) -> Seq<u8> {
    match style {
        Style::Plain => text,
        Style::Inverted => inverse_bytes() + text + reset_bytes(),
        Style::Red => red_bytes() + text + reset_bytes(),
        Style::RedInverted => red_bytes() + inverse_bytes() + text + reset_bytes(),
    }
}

impl ScreenModel {
    /// The number of rows of choices that are shown: the lesser of the
    /// desired rows and the rows of the window less one, so that the prompt
    /// line always has room.
    pub open spec fn visible_choices(self) -> nat {
        let room = if self.rows >= 1 {
            (self.rows - 1) as nat
        } else {
            0
        };
        if self.desired_rows <= room {
            self.desired_rows
        } else {
            room
        }
    }

    /// The screen with `bytes` written at the end of its buffer.
    pub open spec fn written(self, bytes: Seq<u8>) -> ScreenModel {
        ScreenModel { out: self.out + bytes, ..self }
    }

    /// The bytes that bring the cursor to the top left of the reserved
    /// region: back to the anchor saved below the region, to the first
    /// column, and up by the number of visible rows.
    pub open spec fn reset_cursor_bytes(self) -> Seq<u8> {
        restore_cursor_bytes() + seq![0x0Du8] + cursor_move(self.visible_choices() as u16, 0x41)
    }

    /// The bytes that clear the reserved region: from its top left, one line
    /// of blanks for the prompt and one for each visible row, and back to its
    /// top left.
    pub open spec fn blank_screen_bytes(self) -> Seq<u8> {
        self.reset_cursor_bytes() + repeated(
            repeated(seq![0x20u8], self.cols),
            self.visible_choices() + 1,
        ) + self.reset_cursor_bytes()
    }

    /// The bytes that put the cursor on the prompt line, `col` columns from
    /// its start.
    pub open spec fn prompt_cursor_bytes(self, col: u16) -> Seq<u8> {
        self.reset_cursor_bytes() + cursor_move(col, 0x43)
    }

    /// The bytes with which a screen opens: a reset of all attributes, one
    /// line for each visible row to make room, and the anchor below them.
    pub open spec fn opening_bytes(self, newline: Seq<u8>) -> Seq<u8> {
        reset_bytes() + repeated(newline, self.visible_choices()) + save_cursor_bytes()
    }
}

/// A screen: the size of the terminal window and the output that waits to be
/// flushed to it.
pub struct Screen {
    out: Vec<u8>,
    cols: u16,
    rows: u16,
    desired_rows: u16,
}

impl View for Screen {
    type V = ScreenModel;

    closed spec fn view(&self) -> ScreenModel {
        ScreenModel {
            out: self.out@,
            cols: self.cols as nat,
            rows: self.rows as nat,
            desired_rows: self.desired_rows as nat,
        }
    }
}

impl Screen {
    /// Opens a screen on a window of `cols` columns and `rows` rows: resets
    /// the attributes, makes room for the visible rows by writing one line
    /// terminator for each, and saves the cursor position below them as the
    /// anchor of the reserved region.
    pub fn open_screen(desired_rows: u16, cols: u16, rows: u16, newline: &str) -> (screen: Screen)
        ensures
            screen@.cols == cols,
            screen@.rows == rows,
            screen@.desired_rows == desired_rows,
            screen@.out == screen@.opening_bytes(newline.spec_bytes()),
    {
        let mut screen = Screen { out: Vec::new(), cols, rows, desired_rows };
        screen.write_bytes(crate::ansi::reset());
        let visible_choices = screen.visible_choices();
        let ghost start = screen@.out;
        let mut i: u16 = 0;
        while i < visible_choices
            invariant
                i <= visible_choices,
                screen@.cols == cols,
                screen@.rows == rows,
                screen@.desired_rows == desired_rows,
                screen@.out == start + repeated(newline.spec_bytes(), i as nat),
            decreases visible_choices - i,
        {
            screen.write_bytes(newline.as_bytes());
            proof {
                assert(start + repeated(newline.spec_bytes(), i as nat) + newline.spec_bytes()
                    == start + repeated(newline.spec_bytes(), (i + 1) as nat));
            }
            i += 1;
        }
        screen.write_bytes(crate::ansi::save_cursor());
        screen
    }

    /// The window has changed its size.
    pub fn set_winsize(&mut self, cols: u16, rows: u16)
        ensures
            final(self)@ == (ScreenModel { cols: cols as nat, rows: rows as nat, ..old(self)@ }),
    {
        self.cols = cols;
        self.rows = rows;
    }

    /// How many rows of choices the caller would like to see.
    pub fn desired_rows(&self) -> (r: u16)
        ensures
            r == self@.desired_rows,
    {
        self.desired_rows
    }

    /// The height of the window in rows.
    pub fn rows(&self) -> (r: u16)
        ensures
            r == self@.rows,
    {
        self.rows
    }

    /// The width of the window in columns.
    pub fn width(&self) -> (r: u16)
        ensures
            r == self@.cols,
    {
        self.cols
    }

    /// The number of rows of choices that are shown.
    pub fn visible_choices(&self) -> (r: u16)
        ensures
            r == self@.visible_choices(),
    {
        let room = if self.rows >= 1 {
            self.rows - 1
        } else {
            0
        };
        if self.desired_rows <= room {
            self.desired_rows
        } else {
            room
        }
    }

    /// Writes `bytes` at the end of the buffer.
    pub fn write_bytes(&mut self, bytes: &[u8])
        ensures
            final(self)@ == old(self)@.written(bytes@),
    {
        let mut i: usize = 0;
        while i < bytes.len()
            invariant
                i <= bytes@.len(),
                self@ == old(self)@.written(bytes@.take(i as int)),
            decreases bytes@.len() - i,
        {
            self.out.push(bytes[i]);
            proof {
                assert(old(self)@.out + bytes@.take(i as int).push(bytes@[i as int]) == old(
                    self,
                )@.out + bytes@.take(i + 1));
            }
            i += 1;
        }
        proof {
            assert(bytes@.take(i as int) == bytes@);
        }
    }

    /// Hands over the buffered output, which the caller writes to the
    /// terminal, and empties the buffer.
    pub fn flush(&mut self) -> (frame: Vec<u8>)
        ensures
            frame@ == old(self)@.out,
            final(self)@ == (ScreenModel { out: Seq::empty(), ..old(self)@ }),
    {
        let mut frame: Vec<u8> = Vec::new();
        std::mem::swap(&mut frame, &mut self.out);
        frame
    }

    /// Puts the cursor on the prompt line, `col` columns from its start.
    pub fn move_cursor_to_prompt_line(&mut self, col: u16)
        ensures
            final(self)@ == old(self)@.written(old(self)@.prompt_cursor_bytes(col)),
    {
        self.reset_cursor();
        let mut buf = [0u8; 16];
        self.write_bytes(cursor_right(col, &mut buf));
        proof {
            let m = old(self)@;
            assert(m.out + m.reset_cursor_bytes() + cursor_move(col, 0x43) == m.out
                + m.prompt_cursor_bytes(col));
        }
    }

    /// Brings the cursor to the top left of the reserved region.
    pub fn reset_cursor(&mut self)
        ensures
            final(self)@ == old(self)@.written(old(self)@.reset_cursor_bytes()),
    {
        self.write_bytes(crate::ansi::restore_cursor());
        let carriage_return: &'static [u8] = &[0x0D];
        self.write_bytes(carriage_return);
        let num_lines = self.visible_choices();
        let mut buf = [0u8; 16];
        self.write_bytes(cursor_up(num_lines, &mut buf));
        proof {
            let m = old(self)@;
            assert(self@.out == m.out + restore_cursor_bytes() + seq![0x0Du8] + cursor_move(
                num_lines,
                0x41,
            ));
            assert(m.out + restore_cursor_bytes() + seq![0x0Du8] + cursor_move(num_lines, 0x41)
                == m.out + m.reset_cursor_bytes());
        }
    }

    /// Clears the reserved region, and nothing else.
    pub fn blank_screen(&mut self)
        ensures
            final(self)@ == old(self)@.written(old(self)@.blank_screen_bytes()),
    {
        self.reset_cursor();
        let ghost start = self@;
        let mut blank_line: Vec<u8> = Vec::new();
        let mut c: u16 = 0;
        while c < self.cols
            invariant
                c <= self.cols,
                self@ == start,
                blank_line@ == repeated(seq![0x20u8], c as nat),
            decreases self.cols - c,
        {
            blank_line.push(0x20);
            proof {
                assert(repeated(seq![0x20u8], c as nat).push(0x20u8) == repeated(
                    seq![0x20u8],
                    (c + 1) as nat,
                ));
            }
            c += 1;
        }
        let lines = self.visible_choices();
        let mut i: u16 = 0;
        // One line for the prompt, and one for each visible row.
        self.write_bytes(blank_line.as_slice());
        proof {
            assert(blank_line@ == repeated(blank_line@, 1)) by {
                assert(repeated(blank_line@, 0) + blank_line@ == blank_line@);
            }
        }
        while i < lines
            invariant
                i <= lines,
                lines == start.visible_choices(),
                blank_line@ == repeated(seq![0x20u8], start.cols),
                self@ == start.written(repeated(blank_line@, (i + 1) as nat)),
            decreases lines - i,
        {
            self.write_bytes(blank_line.as_slice());
            proof {
                assert(start.out + repeated(blank_line@, (i + 1) as nat) + blank_line@
                    == start.out + repeated(blank_line@, (i + 2) as nat));
            }
            i += 1;
        }
        self.reset_cursor();
        proof {
            let m = old(self)@;
            assert(m.out + m.reset_cursor_bytes() + repeated(
                repeated(seq![0x20u8], m.cols),
                m.visible_choices() + 1,
            ) + m.reset_cursor_bytes() == m.out + m.blank_screen_bytes());
        }
    }

    /// Shows the cursor and flushes: hands over the finished frame, which the
    /// caller writes to the terminal.
    pub fn show_cursor(&mut self) -> (frame: Vec<u8>)
        ensures
            frame@ == old(self)@.out + show_cursor_bytes(),
            final(self)@ == (ScreenModel { out: Seq::empty(), ..old(self)@ }),
    {
        self.write_bytes(crate::ansi::show_cursor());
        self.flush()
    }

    /// Hides the cursor.
    pub fn hide_cursor(&mut self)
        ensures
            final(self)@ == old(self)@.written(hide_cursor_bytes()),
    {
        self.write_bytes(crate::ansi::hide_cursor());
    }

    /// Clears the whole screen; for use after the window has changed its
    /// size, when positions within the reserved region no longer hold.
    pub fn blank_entire_screen(&mut self)
        ensures
            final(self)@ == old(self)@.written(clear_bytes()),
    {
        self.write_bytes(crate::ansi::blank_screen());
    }

    /// Writes text.
    pub fn write(&mut self, s: &str)
        ensures
            final(self)@ == old(self)@.written(s.spec_bytes()),
    {
        self.write_bytes(s.as_bytes());
    }

    /// Writes text in red on an inverted ground, and resets the attributes.
    pub fn write_red_inverted(&mut self, s: &str)
        ensures
            final(self)@ == old(self)@.written(styled(Style::RedInverted, s.spec_bytes())),
    {
        self.write_bytes(crate::ansi::red());
        self.write_bytes(crate::ansi::inverse());
        self.write(s);
        self.write_bytes(crate::ansi::reset());
        proof {
            let m = old(self)@;
            assert(m.out + red_bytes() + inverse_bytes() + s.spec_bytes() + reset_bytes() == m.out
                + styled(Style::RedInverted, s.spec_bytes()));
        }
    }

    /// Writes text in red, and resets the attributes.
    pub fn write_red(&mut self, s: &str)
        ensures
            final(self)@ == old(self)@.written(styled(Style::Red, s.spec_bytes())),
    {
        self.write_bytes(crate::ansi::red());
        self.write(s);
        self.write_bytes(crate::ansi::reset());
        proof {
            let m = old(self)@;
            assert(m.out + red_bytes() + s.spec_bytes() + reset_bytes() == m.out + styled(
                Style::Red,
                s.spec_bytes(),
            ));
        }
    }

    /// Writes text on an inverted ground, and resets the attributes.
    pub fn write_inverted(&mut self, s: &str)
        ensures
            final(self)@ == old(self)@.written(styled(Style::Inverted, s.spec_bytes())),
    {
        self.write_bytes(crate::ansi::inverse());
        self.write(s);
        self.write_bytes(crate::ansi::reset());
        proof {
            let m = old(self)@;
            assert(m.out + inverse_bytes() + s.spec_bytes() + reset_bytes() == m.out + styled(
                Style::Inverted,
                s.spec_bytes(),
            ));
        }
    }

    /// Writes text in the given style.
    pub fn write_styled(&mut self, s: &str, style: Style)
        ensures
            final(self)@ == old(self)@.written(styled(style, s.spec_bytes())),
    {
        match style {
            Style::Plain => self.write(s),
            Style::Inverted => self.write_inverted(s),
            Style::Red => self.write_red(s),
            Style::RedInverted => self.write_red_inverted(s),
        }
    }
}

} // verus!
