use heatseeker::text::{delete_last_word, trim};

#[test]
fn trim_test() {
    fn should_become(before: &str, after: &str) {
        let mut x = before.to_string();
        trim(&mut x);
        assert_eq!(after.to_string(), x);
    }
    should_become("", "");
    should_become("\n", "");
    should_become("\n\n", "");
    should_become("asdf", "asdf");
    should_become("asdf\n", "asdf");
    should_become("asdf\nasdf\n", "asdf\nasdf");
    should_become("asdf\r\n", "asdf");
}

#[test]
fn delete_word_test() {
    fn should_become(before: &str, after: &str) {
        let mut x = before.to_string();
        delete_last_word(&mut x);
        assert_eq!(after.to_string(), x);
    }
    should_become("", "");
    should_become("a", "");
    should_become("asdf", "");
    should_become("asdf asdf asdf", "asdf asdf ");
    should_become("asdf asdf asdf ", "asdf asdf ");
    should_become("asdf asdf asdf  ", "asdf asdf ");
}

#[test]
fn trim_keeps_inner_line_ends_and_other_whitespace() {
    let mut x = "a\r\nb \t\r\r\n\n".to_string();
    trim(&mut x);
    assert_eq!(x, "a\r\nb \t");
    let mut y = "\r\n\r\n".to_string();
    trim(&mut y);
    assert_eq!(y, "");
    let mut z = "音\n".to_string();
    trim(&mut z);
    assert_eq!(z, "音");
}

#[test]
fn delete_word_handles_spaces_only_and_unicode() {
    let mut x = "   ".to_string();
    delete_last_word(&mut x);
    assert_eq!(x, "");
    let mut y = " word".to_string();
    delete_last_word(&mut y);
    assert_eq!(y, " ");
    let mut z = "πЯ 音æ∞ ".to_string();
    delete_last_word(&mut z);
    assert_eq!(z, "πЯ ");
    let mut t = "a\tb".to_string();
    delete_last_word(&mut t);
    assert_eq!(t, "");
}
