use heatseeker::screen::Key;
use heatseeker::search::{handle_key, handle_keys, Search, SearchState};

fn letters() -> Vec<&'static str> {
    vec!["a", "b", "c", "d", "e", "f", "g", "h", "i", "j", "k", "l"]
}

fn position(search: &Search) -> (usize, usize) {
    (search.scroll_offset(), search.cursor_index())
}

#[test]
fn new_session_shows_every_choice() {
    let choices = vec!["one", "two", "three"];
    let mut search = Search::new(&choices, String::new(), false);
    assert!(search.is_stale());
    assert_eq!(search.state(), SearchState::InProgress);
    assert_eq!(search.matches(), &choices[..]);
    assert_eq!(search.choices(), &choices[..]);
    assert_eq!(search.query(), "");
    assert!(search.selections().is_empty());
    search.recompute_matches();
    assert!(!search.is_stale());
    assert_eq!(search.matches(), &choices[..]);
    assert_eq!(position(&search), (0, 0));
}

#[test]
fn down_twelve_times_over_twelve_matches_returns_to_the_start() {
    let choices = letters();
    let mut search = Search::new(&choices, String::new(), false);
    search.recompute_matches();
    let start = position(&search);
    assert_eq!(start, (0, 0));
    let mut seen = Vec::new();
    for _ in 0..12 {
        search.down(5);
        seen.push(position(&search));
    }
    assert_eq!(
        seen,
        vec![
            (0, 1),
            (0, 2),
            (0, 3),
            (0, 4),
            (1, 4),
            (2, 4),
            (3, 4),
            (4, 4),
            (5, 4),
            (6, 4),
            (7, 4),
            (0, 0)
        ]
    );
    assert_eq!(position(&search), start);
}

#[test]
fn up_from_the_first_row_wraps_to_the_tail() {
    let choices = letters();
    let mut search = Search::new(&choices, String::new(), false);
    search.recompute_matches();
    search.up(5);
    assert_eq!(position(&search), (7, 4));
    assert_eq!(search.current_choice(), "l");
    search.up(5);
    assert_eq!(position(&search), (7, 3));
    for _ in 0..3 {
        search.up(5);
    }
    assert_eq!(position(&search), (7, 0));
    search.up(5);
    assert_eq!(position(&search), (6, 0));

    let few = vec!["x", "y", "z"];
    let mut short = Search::new(&few, String::new(), false);
    short.recompute_matches();
    short.up(5);
    assert_eq!(position(&short), (0, 2));
    short.down(5);
    assert_eq!(position(&short), (0, 0));
}

#[test]
fn home_end_and_pages() {
    let choices = letters();
    let mut search = Search::new(&choices, String::new(), false);
    search.recompute_matches();
    search.end(5);
    assert_eq!(position(&search), (7, 4));
    search.pgdown(5);
    assert_eq!(position(&search), (7, 4));
    search.pgup(5);
    assert_eq!(position(&search), (6, 0));
    search.pgup(5);
    assert_eq!(position(&search), (1, 0));
    search.pgup(5);
    assert_eq!(position(&search), (0, 0));
    search.pgup(5);
    assert_eq!(position(&search), (0, 0));
    search.pgdown(5);
    assert_eq!(position(&search), (1, 4));
    search.pgdown(5);
    assert_eq!(position(&search), (6, 4));
    search.pgdown(5);
    assert_eq!(position(&search), (7, 4));
    search.home();
    assert_eq!(position(&search), (0, 0));
}

#[test]
fn navigation_without_matches_or_rows_does_nothing() {
    let choices = vec!["abc", "abd"];
    let mut search = Search::new(&choices, "zzz".to_string(), false);
    search.recompute_matches();
    assert!(search.matches().is_empty());
    search.up(5);
    search.down(5);
    search.pgup(5);
    search.pgdown(5);
    search.end(5);
    search.home();
    assert_eq!(position(&search), (0, 0));
    assert_eq!(search.current_choice(), "");
    assert_eq!(search.get_selections("\n"), "");

    let mut other = Search::new(&choices, String::new(), false);
    other.recompute_matches();
    other.down(0);
    other.up(0);
    other.pgdown(0);
    other.end(0);
    assert_eq!(position(&other), (0, 0));
}

#[test]
fn editing_the_query_resets_the_cursor_and_marks_matches_stale() {
    let choices = vec!["apple", "apricot", "banana", "blueberry"];
    let mut search = Search::new(&choices, String::new(), false);
    search.recompute_matches();
    search.down(10);
    search.down(10);
    assert_eq!(position(&search), (0, 2));
    search.append('b');
    assert!(search.is_stale());
    assert_eq!(position(&search), (0, 0));
    assert_eq!(search.query(), "b");
    search.recompute_matches();
    assert_eq!(search.matches(), &["banana", "blueberry"][..]);
    search.down(10);
    search.backspace();
    assert!(search.is_stale());
    assert_eq!(position(&search), (0, 0));
    assert_eq!(search.query(), "");
    assert_eq!(search.matches(), &choices[..]);
    search.backspace();
    assert_eq!(search.query(), "");

    for c in "ap ri".chars() {
        search.append(c);
    }
    search.recompute_matches();
    search.delete_word();
    assert_eq!(search.query(), "ap ");
    assert!(search.is_stale());
    assert_eq!(position(&search), (0, 0));
    search.clear_query();
    assert_eq!(search.query(), "");
    assert!(search.is_stale());
    search.recompute_matches();
    assert_eq!(search.matches(), &choices[..]);
}

#[test]
fn recompute_narrows_the_current_matches_and_is_idempotent() {
    let choices = vec!["xab", "ab", "ba", "a.b"];
    let mut search = Search::new(&choices, "a".to_string(), false);
    search.recompute_matches();
    assert_eq!(search.matches(), &["ab", "ba", "xab", "a.b"][..]);
    search.recompute_matches();
    assert_eq!(search.matches(), &["ab", "ba", "xab", "a.b"][..]);
    search.append('b');
    search.recompute_matches();
    assert_eq!(search.matches(), &["ab", "xab", "a.b"][..]);

    let mut filtering = Search::new(&choices, "ab".to_string(), true);
    filtering.recompute_matches();
    assert_eq!(filtering.matches(), &["xab", "ab", "a.b"][..]);
}

#[test]
fn recompute_keeps_a_cursor_that_is_still_on_a_row() {
    let choices = vec!["ab", "abc", "b", "abd"];
    let mut search = Search::new(&choices, String::new(), true);
    search.recompute_matches();
    search.append('a');
    search.down(10);
    assert_eq!(position(&search), (0, 1));
    search.recompute_matches();
    assert_eq!(search.matches(), &["ab", "abc", "abd"][..]);
    assert_eq!(position(&search), (0, 1));
    search.append('d');
    search.down(10);
    search.down(10);
    assert_eq!(position(&search), (0, 2));
    search.recompute_matches();
    assert_eq!(search.matches(), &["abd"][..]);
    assert_eq!(position(&search), (0, 0));
}

#[test]
fn selections_persist_across_query_edits() {
    let choices = vec!["alpha", "beta", "gamma"];
    let mut search = Search::new(&choices, String::new(), false);
    search.recompute_matches();
    search.down(10);
    assert_eq!(search.current_choice(), "beta");
    search.toggle_selection();
    assert_eq!(search.selections(), &["beta".to_string()][..]);

    search.append('g');
    search.recompute_matches();
    assert_eq!(search.matches(), &["gamma"][..]);
    assert_eq!(search.selections(), &["beta".to_string()][..]);
    search.backspace();
    search.recompute_matches();
    assert_eq!(search.matches(), &choices[..]);
    search.done();
    assert_eq!(search.get_selections("\n"), "beta\n");
}

#[test]
fn selections_keep_the_order_in_which_they_were_made() {
    let choices = vec!["alpha", "beta", "gamma", "delta"];
    let mut search = Search::new(&choices, String::new(), true);
    search.end(10);
    search.toggle_selection();
    search.home();
    search.down(10);
    search.toggle_selection();
    search.home();
    search.toggle_selection();
    assert_eq!(
        search.selections(),
        &["delta".to_string(), "beta".to_string(), "alpha".to_string()][..]
    );
    search.down(10);
    search.toggle_selection();
    assert_eq!(search.selections(), &["delta".to_string(), "alpha".to_string()][..]);
    search.toggle_selection();
    assert_eq!(
        search.selections(),
        &["delta".to_string(), "alpha".to_string(), "beta".to_string()][..]
    );
    assert_eq!(search.get_selections("\r\n"), "delta\r\nalpha\r\nbeta\r\n");
    assert_eq!(search.get_selections("\n"), "delta\nalpha\nbeta\n");
}

#[test]
fn duplicate_choices_are_selected_once() {
    let choices = vec!["same", "same", "other"];
    let mut search = Search::new(&choices, String::new(), true);
    search.toggle_selection();
    search.down(10);
    assert_eq!(search.current_choice(), "same");
    search.toggle_selection();
    assert!(search.selections().is_empty());
    search.toggle_selection();
    assert_eq!(search.selections(), &["same".to_string()][..]);
}

#[test]
fn result_falls_back_to_the_highlighted_choice() {
    let choices = vec!["alpha", "beta", "gamma"];
    let mut search = Search::new(&choices, "a".to_string(), false);
    assert_eq!(search.get_selections("\n"), "beta");
    assert!(!search.is_stale());
    search.down(10);
    search.done();
    assert_eq!(search.state(), SearchState::Done);
    assert_eq!(search.get_selections("\n"), "alpha");
}

#[test]
fn cancellation_returns_the_empty_string() {
    let choices = vec!["alpha", "beta", "gamma"];
    let mut search = Search::new(&choices, String::new(), false);
    search.toggle_selection();
    search.down(10);
    search.toggle_selection();
    assert_eq!(search.selections().len(), 2);
    search.cancel();
    assert_eq!(search.state(), SearchState::Canceled);
    assert_eq!(search.get_selections("\n"), "");
    assert_eq!(search.selections().len(), 2);

    let mut untouched = Search::new(&choices, String::new(), false);
    untouched.cancel();
    assert_eq!(untouched.get_selections("\n"), "");
}

#[test]
fn keys_drive_the_session() {
    let choices = vec!["alpha", "beta", "gamma"];
    let mut search = Search::new(&choices, String::new(), false);
    search.recompute_matches();
    handle_key(&mut search, &Key::Char('a'), 10);
    handle_key(&mut search, &Key::Char('x'), 10);
    assert_eq!(search.query(), "ax");
    handle_key(&mut search, &Key::Backspace, 10);
    assert_eq!(search.query(), "a");
    handle_key(&mut search, &Key::Control('h'), 10);
    assert_eq!(search.query(), "");
    for c in "one two".chars() {
        handle_key(&mut search, &Key::Char(c), 10);
    }
    handle_key(&mut search, &Key::Control('w'), 10);
    assert_eq!(search.query(), "one ");
    handle_key(&mut search, &Key::Control('u'), 10);
    assert_eq!(search.query(), "");
    search.recompute_matches();

    handle_key(&mut search, &Key::Down, 10);
    assert_eq!(position(&search), (0, 1));
    handle_key(&mut search, &Key::Tab, 10);
    assert_eq!(position(&search), (0, 2));
    handle_key(&mut search, &Key::Control('n'), 10);
    assert_eq!(position(&search), (0, 0));
    handle_key(&mut search, &Key::Up, 10);
    assert_eq!(position(&search), (0, 2));
    handle_key(&mut search, &Key::ShiftTab, 10);
    assert_eq!(position(&search), (0, 1));
    handle_key(&mut search, &Key::Control('p'), 10);
    assert_eq!(position(&search), (0, 0));
    handle_key(&mut search, &Key::End, 10);
    assert_eq!(position(&search), (0, 2));
    handle_key(&mut search, &Key::Home, 10);
    assert_eq!(position(&search), (0, 0));
    handle_key(&mut search, &Key::PgDown, 2);
    assert_eq!(position(&search), (1, 1));
    handle_key(&mut search, &Key::PgUp, 1);
    assert_eq!(position(&search), (1, 0));
    handle_key(&mut search, &Key::Control('b'), 2);
    assert_eq!(position(&search), (0, 0));
    handle_key(&mut search, &Key::Control('f'), 2);
    assert_eq!(position(&search), (1, 1));
    handle_key(&mut search, &Key::Home, 10);

    handle_key(&mut search, &Key::Control('t'), 10);
    assert_eq!(search.selections(), &["alpha".to_string()][..]);
    assert_eq!(position(&search), (0, 1));
    handle_key(&mut search, &Key::Nothing, 10);
    handle_key(&mut search, &Key::Resize, 10);
    handle_key(&mut search, &Key::Control('r'), 10);
    handle_key(&mut search, &Key::Control('z'), 10);
    assert_eq!(position(&search), (0, 1));
    assert_eq!(search.state(), SearchState::InProgress);
    handle_key(&mut search, &Key::Enter, 10);
    assert_eq!(search.state(), SearchState::Done);
    assert_eq!(search.get_selections("\n"), "alpha\n");
}

#[test]
fn keys_after_the_end_of_the_session_are_discarded() {
    let choices = vec!["alpha", "beta", "gamma"];
    let mut search = Search::new(&choices, String::new(), false);
    search.recompute_matches();
    let keys = vec![Key::Down, Key::Control('g'), Key::Char('x'), Key::Enter, Key::Down];
    let next = handle_keys(&mut search, &keys, 0, 10);
    assert_eq!(next, keys.len());
    assert_eq!(search.state(), SearchState::Canceled);
    assert_eq!(search.query(), "");
    assert_eq!(position(&search), (0, 1));
    assert_eq!(search.get_selections("\n"), "");

    let mut other = Search::new(&choices, String::new(), false);
    handle_key(&mut other, &Key::Control('c'), 10);
    assert_eq!(other.state(), SearchState::Canceled);
    handle_key(&mut other, &Key::Enter, 10);
    assert_eq!(other.state(), SearchState::Canceled);
}

#[test]
fn a_resize_interrupts_a_batch_of_keys() {
    let choices = letters();
    let mut search = Search::new(&choices, String::new(), false);
    search.recompute_matches();
    let keys = vec![Key::Down, Key::Down, Key::Resize, Key::Down, Key::Resize, Key::Down];
    let next = handle_keys(&mut search, &keys, 0, 3);
    assert_eq!(next, 3);
    assert_eq!(position(&search), (0, 2));
    let next = handle_keys(&mut search, &keys, next, 2);
    assert_eq!(next, 5);
    assert_eq!(position(&search), (1, 2));
    let next = handle_keys(&mut search, &keys, next, 2);
    assert_eq!(next, 6);
    assert_eq!(position(&search), (2, 2));
    let next = handle_keys(&mut search, &keys, next, 2);
    assert_eq!(next, 6);
}
