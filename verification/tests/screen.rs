use heatseeker::screen::{Screen, Style};

fn fresh(desired_rows: u16, cols: u16, rows: u16) -> Screen {
    let mut screen = Screen::open_screen(desired_rows, cols, rows, "\n");
    screen.flush();
    screen
}

#[test]
fn visible_choices_leaves_room_for_the_prompt() {
    assert_eq!(fresh(20, 80, 24).visible_choices(), 20);
    assert_eq!(fresh(20, 80, 21).visible_choices(), 20);
    assert_eq!(fresh(20, 80, 20).visible_choices(), 19);
    assert_eq!(fresh(999, 80, 24).visible_choices(), 23);
    assert_eq!(fresh(20, 80, 1).visible_choices(), 0);
    assert_eq!(fresh(20, 80, 0).visible_choices(), 0);
    assert_eq!(fresh(0, 80, 24).visible_choices(), 0);
    let screen = fresh(20, 80, 24);
    assert_eq!(screen.desired_rows(), 20);
    assert_eq!(screen.rows(), 24);
    assert_eq!(screen.width(), 80);
}

#[test]
fn opening_makes_room_and_saves_the_anchor() {
    let mut screen = Screen::open_screen(3, 80, 24, "\n");
    assert_eq!(screen.flush(), b"\x1b[0m\n\n\n\x1b7");
    let mut console = Screen::open_screen(20, 80, 3, "\r\n");
    assert_eq!(console.flush(), b"\x1b[0m\r\n\r\n\x1b7");
    let mut tiny = Screen::open_screen(20, 80, 1, "\n");
    assert_eq!(tiny.flush(), b"\x1b[0m\x1b7");
}

#[test]
fn output_is_buffered_until_flushed() {
    let mut screen = fresh(20, 80, 24);
    screen.write("abc");
    screen.write_bytes(b"de");
    screen.write("\u{e9}");
    assert_eq!(screen.flush(), "abcde\u{e9}".as_bytes());
    assert_eq!(screen.flush(), b"");
    screen.write("x");
    assert_eq!(screen.flush(), b"x");
}

#[test]
fn reset_cursor_returns_to_the_top_of_the_region() {
    let mut screen = fresh(20, 80, 24);
    screen.reset_cursor();
    assert_eq!(screen.flush(), b"\x1b8\r\x1b[20A");
    let mut small = fresh(20, 80, 6);
    small.reset_cursor();
    assert_eq!(small.flush(), b"\x1b8\r\x1b[5A");
    small.move_cursor_to_prompt_line(7);
    assert_eq!(small.flush(), b"\x1b8\r\x1b[5A\x1b[7C");
}

#[test]
fn blank_screen_clears_the_region_only() {
    let mut screen = fresh(2, 4, 24);
    screen.blank_screen();
    let mut expected: Vec<u8> = Vec::new();
    expected.extend_from_slice(b"\x1b8\r\x1b[2A");
    expected.extend_from_slice(b"    ");
    expected.extend_from_slice(b"    ");
    expected.extend_from_slice(b"    ");
    expected.extend_from_slice(b"\x1b8\r\x1b[2A");
    assert_eq!(screen.flush(), expected);

    let mut empty = fresh(0, 3, 24);
    empty.blank_screen();
    assert_eq!(empty.flush(), b"\x1b8\r\x1b[0A   \x1b8\r\x1b[0A");

    let mut whole = fresh(2, 4, 24);
    whole.blank_entire_screen();
    assert_eq!(whole.flush(), b"\x1b[2J");
}

#[test]
fn styled_spans_reset_their_attributes() {
    let mut screen = fresh(20, 80, 24);
    screen.write_inverted("a");
    assert_eq!(screen.flush(), b"\x1b[7ma\x1b[0m");
    screen.write_red("b");
    assert_eq!(screen.flush(), b"\x1b[31mb\x1b[0m");
    screen.write_red_inverted("c");
    assert_eq!(screen.flush(), b"\x1b[31m\x1b[7mc\x1b[0m");
    screen.write_styled("d", Style::Plain);
    screen.write_styled("e", Style::Inverted);
    screen.write_styled("f", Style::Red);
    screen.write_styled("g", Style::RedInverted);
    assert_eq!(
        screen.flush(),
        b"d\x1b[7me\x1b[0m\x1b[31mf\x1b[0m\x1b[31m\x1b[7mg\x1b[0m"
    );
    screen.write_inverted("");
    assert_eq!(screen.flush(), b"\x1b[7m\x1b[0m");
}

#[test]
fn cursor_visibility_and_flush() {
    let mut screen = fresh(20, 80, 24);
    screen.hide_cursor();
    screen.write("x");
    assert_eq!(screen.show_cursor(), b"\x1b[?25lx\x1b[?25h");
    assert_eq!(screen.flush(), b"");
}

#[test]
fn a_new_window_size_changes_the_visible_rows() {
    let mut screen = fresh(20, 80, 24);
    assert_eq!(screen.visible_choices(), 20);
    screen.write("kept");
    screen.set_winsize(40, 10);
    assert_eq!(screen.visible_choices(), 9);
    assert_eq!(screen.width(), 40);
    assert_eq!(screen.rows(), 10);
    assert_eq!(screen.desired_rows(), 20);
    assert_eq!(screen.flush(), b"kept");
}
