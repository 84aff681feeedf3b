use heatseeker::args::{first_match, Args, Mode, DEFAULT_ROWS, FULL_SCREEN_ROWS};
use heatseeker::choices::ChoiceLoader;
use heatseeker::matching::PARALLEL_MIN_LEN;

fn args() -> Args {
    Args {
        initial_search: String::new(),
        help: false,
        use_first: false,
        version: false,
        full_screen: false,
        filter_only: false,
    }
}

#[test]
fn help_and_version_come_before_everything_else() {
    assert_eq!(args().mode(), Mode::Interactive);
    assert_eq!(Args { use_first: true, ..args() }.mode(), Mode::First);
    assert_eq!(Args { version: true, use_first: true, ..args() }.mode(), Mode::Version);
    assert_eq!(Args { help: true, version: true, use_first: true, ..args() }.mode(), Mode::Help);
    assert_eq!(Args { help: true, ..args() }.mode(), Mode::Help);
}

#[test]
fn full_screen_asks_for_more_rows_than_any_window_has() {
    assert_eq!(args().desired_rows(), 20);
    assert_eq!(Args { full_screen: true, ..args() }.desired_rows(), 999);
    assert_eq!(DEFAULT_ROWS, 20);
    assert_eq!(FULL_SCREEN_ROWS, 999);
    assert_eq!(PARALLEL_MIN_LEN, 100);
}

#[test]
fn first_match_is_the_best_match_or_nothing() {
    let choices = vec!["barbarbar", "bar", "baz"];
    assert_eq!(first_match(&choices, "bar", false), "bar");
    assert_eq!(first_match(&choices, "bar", true), "barbarbar");
    assert_eq!(first_match(&choices, "", false), "barbarbar");
    assert_eq!(first_match(&choices, "x", false), "");
    assert_eq!(first_match(&[], "", false), "");
}

#[test]
fn loader_trims_lines_and_keeps_their_order() {
    let mut loader = ChoiceLoader::new();
    loader.accept("one\n".to_string());
    loader.accept("two\r\n".to_string());
    loader.accept("".to_string());
    loader.accept("three".to_string());
    loader.accept(" spaced \n".to_string());
    assert_eq!(loader.first_error(), None);
    assert_eq!(loader.suppressed(), 0);
    assert_eq!(loader.into_choices(), vec!["one", "two", "", "three", " spaced "]);
}

#[test]
fn loader_reports_the_first_failure_and_counts_the_others() {
    let mut loader = ChoiceLoader::new();
    loader.accept("good\n".to_string());
    loader.reject("stream did not contain valid UTF-8".to_string());
    assert_eq!(loader.first_error(), Some("stream did not contain valid UTF-8"));
    assert_eq!(loader.suppressed(), 0);
    loader.accept("also good\n".to_string());
    loader.reject("second".to_string());
    loader.reject("third".to_string());
    assert_eq!(loader.first_error(), Some("stream did not contain valid UTF-8"));
    assert_eq!(loader.suppressed(), 2);
    assert_eq!(loader.into_choices(), vec!["good", "also good"]);
}
