use heatseeker::matching::{
    chars_equal, compute_match_length, compute_matches, evaluate, filter, find_char_in_string,
    find_end_of_match, get_longest_match, get_match_indices, get_match_length, score,
    visual_score,
};
use heatseeker::score::Score;

fn chars(s: &str) -> Vec<char> {
    s.chars().collect()
}

fn value(s: Score) -> f64 {
    (s.matched as f64 / s.span as f64) / s.length as f64
}

#[test]
fn chars_equal_test() {
    assert!(chars_equal('a', 'a'));
    assert!(!chars_equal('a', 'b'));
    assert!(chars_equal('A', 'A'));
    assert!(!chars_equal('A', 'a'));
    assert!(chars_equal('a', 'A'));
}

#[test]
fn get_match_indices_test() {
    assert_eq!(
        get_match_indices(&chars("asdf"), &chars("sdf"), 0).unwrap(),
        vec![0, 1, 2, 3]
    );
    assert_eq!(
        get_match_indices(&chars("aoeuasdf"), &chars("sdf"), 4).unwrap(),
        vec![4, 5, 6, 7]
    );
    assert_eq!(
        get_match_indices(&chars(" a s d f"), &chars("sdf"), 1).unwrap(),
        vec![1, 3, 5, 7]
    );
}

#[test]
fn matching_find_end_of_match_test() {
    assert_eq!(find_end_of_match(&chars("a"), &chars("a"), 0), None);
    assert_eq!(find_end_of_match(&chars("ba"), &chars("a"), 1), None);
    assert_eq!(find_end_of_match(&chars("aaa"), &chars("aa"), 0), Some(2));
    assert_eq!(find_end_of_match(&chars("aaa"), &chars("b"), 0), None);
    assert_eq!(
        find_end_of_match(&chars("this is a long match"), &chars("this is a match"), 0),
        None
    );
    assert_eq!(
        find_end_of_match(&chars("this is a long match"), &chars("his is a match"), 0),
        Some(19)
    );
    assert_eq!(
        find_end_of_match(
            &chars(
                "./rust/x86_64-apple-darwin/test/run-pass/process-spawn-with-unicode-params-πЯ音æ∞/child.stage2-x86_64-apple-darwin"
            ),
            &chars("ust"),
            2
        ),
        Some(5)
    );
}

#[test]
fn selectric_find_end_of_match_test() {
    assert_eq!(find_end_of_match(&chars("a"), &chars("a"), 0), None);
    assert_eq!(find_end_of_match(&chars("ba"), &chars("a"), 1), None);
    assert_eq!(find_end_of_match(&chars("aaa"), &chars("aa"), 0), Some(2));
    assert_eq!(find_end_of_match(&chars("aaa"), &chars("b"), 0), None);
    assert_eq!(
        find_end_of_match(&chars("this is a long match"), &chars("this is a match"), 0),
        None
    );
    assert_eq!(
        find_end_of_match(&chars("this is a long match"), &chars("his is a match"), 0),
        Some(19)
    );
}

#[test]
fn unicode_boundary_handling_test() {
    score(
        "./rust/x86_64-apple-darwin/test/run-pass/process-spawn-with-unicode-params-πЯ音æ∞/child.stage2-x86_64-apple-darwin",
        "he",
    );
}

#[test]
fn matching_basic_scoring() {
    assert_eq!(value(score("", "a")), 0.0);
    assert_eq!(value(score("a", "")), 1.0);
    assert_eq!(value(score("short", "longer")), 0.0);
    assert_eq!(value(score("a", "b")), 0.0);
    assert_eq!(value(score("ab", "ac")), 0.0);

    assert!(value(score("a", "a")) > 0.0);
    assert!(value(score("ab", "a")) > 0.0);
    assert!(value(score("ba", "a")) > 0.0);
    assert!(value(score("bab", "a")) > 0.0);
    assert!(value(score("babababab", "aaaa")) > 0.0);

    assert_eq!(value(score("a", "a")), 1_f64 / "a".len() as f64);
    assert_eq!(value(score("ab", "ab")), 0.5);
    assert_eq!(
        value(score("a long string", "a long string")),
        1_f64 / "a long string".len() as f64
    );
    assert_eq!(
        value(score("spec/search_spec.rb", "sear")),
        1_f64 / "spec/search_spec.rb".len() as f64
    );
}

#[test]
fn selectric_basic_scoring() {
    assert_eq!(value(score("", "a")), 0.0);
    assert_eq!(value(score("a", "")), 1.0);
    assert_eq!(value(score("short", "longer")), 0.0);
    assert_eq!(value(score("a", "b")), 0.0);
    assert_eq!(value(score("ab", "ac")), 0.0);

    assert!(value(score("a", "a")) > 0.0);
    assert!(value(score("ab", "a")) > 0.0);
    assert!(value(score("ba", "a")) > 0.0);
    assert!(value(score("bab", "a")) > 0.0);
    assert!(value(score("babababab", "aaaa")) > 0.0);

    assert_eq!(value(score("a", "a")), 1_f64 / "a".len() as f64);
    assert_eq!(value(score("ab", "ab")), 0.5);
    assert_eq!(
        value(score("a long string", "a long string")),
        1_f64 / "a long string".len() as f64
    );
    assert_eq!(
        value(score("spec/search_spec.rb", "sear")),
        1_f64 / "spec/search_spec.rb".len() as f64
    );
}

#[test]
fn matching_character_matching() {
    assert!(value(score("/! symbols $^", "/!$^")) > 0.0);

    assert_eq!(value(score("a", "A")), 0.0);
    assert_eq!(value(score("A", "a")), 1.0);
    assert_eq!(value(score("A", "A")), 1.0);

    assert_eq!(value(score("a", "aa")), 0.0);
}

#[test]
fn matching_match_equality() {
    assert!(value(score("selecta.gemspec", "asp")) > value(score("algorithm4_spec.rb", "asp")));
    assert!(value(score("README.md", "em")) > value(score("benchmark.rb", "em")));
    assert!(value(score("search.rb", "sear")) > value(score("spec/search_spec.rb", "sear")));

    assert!(value(score("fbb", "fbb")) > value(score("foo bar baz", "fbb")));
    assert!(value(score("foo", "foo")) > value(score("longer foo", "foo")));
    assert!(value(score("foo", "foo")) > value(score("foo longer", "foo")));
    assert!(value(score("1/2/3/4", "1/2/3")) > value(score("1/9/2/3/4", "1/2/3")));

    assert!(value(score("long 12 long", "12")) > value(score("1 long 2", "12")));

    assert_eq!(value(score("121padding2", "12")), 1.0 / "121padding2".len() as f64);
    assert_eq!(value(score("1padding212", "12")), 1.0 / "1padding212".len() as f64);
}

#[test]
fn selectric_match_equality() {
    assert!(value(score("selecta.gemspec", "asp")) > value(score("algorithm4_spec.rb", "asp")));
    assert!(value(score("README.md", "em")) > value(score("benchmark.rb", "em")));
    assert!(value(score("search.rb", "sear")) > value(score("spec/search_spec.rb", "sear")));

    assert!(value(score("fbb", "fbb")) > value(score("foo bar baz", "fbb")));
    assert!(value(score("foo", "foo")) > value(score("longer foo", "foo")));
    assert!(value(score("foo", "foo")) > value(score("foo longer", "foo")));
    assert!(value(score("1/2/3/4", "1/2/3")) > value(score("1/9/2/3/4", "1/2/3")));

    assert!(value(score("long 12 long", "12")) > value(score("1 long 2", "12")));

    assert_eq!(value(score("121padding2", "12")), 1.0 / "121padding2".len() as f64);
    assert_eq!(value(score("1padding212", "12")), 1.0 / "1padding212".len() as f64);
}

#[test]
fn compute_matches_filter_only_preserves_order() {
    let choices = vec!["barbarbar", "bar", "baz"];
    let references = choices.iter().map(|s| *s).collect::<Vec<_>>();
    let result = compute_matches(&references, "bar", true);
    assert_eq!(result, vec!["barbarbar", "bar"]);
}

#[test]
fn compute_matches_ranks_by_score() {
    let choices = vec!["barbarbar", "bar", "baz"];
    let references = choices.iter().map(|s| *s).collect::<Vec<_>>();
    let result = compute_matches(&references, "bar", false);
    assert_eq!(result, vec!["bar", "barbarbar"]);
}

#[test]
fn score_components_are_exact() {
    assert_eq!(score("f.o.o", "foo"), Score { matched: 3, span: 5, length: 5 });
    assert_eq!(score("foo", "foo"), Score { matched: 3, span: 3, length: 3 });
    assert_eq!(score("xxfooxx", "foo"), Score { matched: 3, span: 3, length: 7 });
    assert_eq!(score("anything", ""), Score::one());
    assert_eq!(score("", "q"), Score::zero());
    assert_eq!(score("abc", "abcd"), Score::zero());
}

#[test]
fn empty_query_scores_one_for_every_choice() {
    for choice in ["", "a", "Hello, World", "πЯ音æ∞"] {
        assert_eq!(score(choice, ""), Score::one());
        assert_eq!(filter(choice, ""), Score::one());
    }
}

#[test]
fn empty_choice_scores_zero_for_every_query() {
    for query in ["a", "ab", "Z", "音"] {
        assert_eq!(score("", query), Score::zero());
        assert_eq!(filter("", query), Score::zero());
    }
}

#[test]
fn score_is_positive_exactly_for_subsequences() {
    assert!(score("a_b_c", "abc").positive());
    assert!(score("A_B_C", "abc").positive());
    assert!(!score("a_b_c", "ABC").positive());
    assert!(!score("a_b_c", "acb").positive());
    assert!(!score("ab", "abc").positive());
    assert!(filter("a_b_c", "abc").positive());
    assert!(!filter("a_b_c", "acb").positive());
}

#[test]
fn contiguous_match_beats_scattered_match() {
    let tight = score("foo", "foo");
    let loose = score("f.o.o", "foo");
    assert!(tight.greater_than(&loose));
    assert!(!loose.greater_than(&tight));
    assert!(!tight.equal_to(&loose));
    assert!(value(tight) > value(loose));
    // all else equal: the same length, a tighter span
    let a = score("xxfoo", "foo");
    let b = score("f.o.o", "foo");
    assert!(a.greater_than(&b));
}

#[test]
fn score_comparison_is_exact_for_large_counts() {
    let a = Score { matched: usize::MAX, span: usize::MAX, length: usize::MAX - 1 };
    let b = Score { matched: usize::MAX, span: usize::MAX - 1, length: usize::MAX };
    assert!(a.equal_to(&b));
    assert!(!a.greater_than(&b));
    let c = Score { matched: usize::MAX, span: usize::MAX - 1, length: usize::MAX - 1 };
    assert!(c.greater_than(&a));
    assert!(!a.greater_than(&c));
    let d = Score { matched: 1, span: 3, length: 5 };
    let e = Score { matched: 2, span: 5, length: 6 };
    assert!(d.equal_to(&e));
    let f = Score { matched: 2, span: 5, length: 7 };
    assert!(d.greater_than(&f));
}

#[test]
fn equal_scores_keep_input_order() {
    let choices = vec!["bar", "rab", "bar", "abr", "bar"];
    let result = compute_matches(&choices, "bar", false);
    assert_eq!(result.len(), 3);
    assert!(std::ptr::eq(result[0], choices[0]));
    assert!(std::ptr::eq(result[1], choices[2]));
    assert!(std::ptr::eq(result[2], choices[4]));

    let choices = vec!["xab", "abx", "a.b", "ab", "bax"];
    assert_eq!(compute_matches(&choices, "ab", false), vec!["ab", "xab", "abx", "a.b"]);
}

#[test]
fn large_pools_rank_like_small_ones() {
    let mut owned: Vec<String> = Vec::new();
    for i in 0..1000 {
        owned.push(format!("{}-item-{}", if i % 3 == 0 { "x" } else { "xy" }, i % 7));
    }
    let choices: Vec<&str> = owned.iter().map(|s| s.as_str()).collect();
    let ranked = compute_matches(&choices, "xit", false);
    let mut expected: Vec<(usize, Score)> = Vec::new();
    for (i, c) in choices.iter().enumerate() {
        let s = score(c, "xit");
        if s.positive() {
            expected.push((i, s));
        }
    }
    expected.sort_by(|a, b| {
        if a.1.greater_than(&b.1) {
            std::cmp::Ordering::Less
        } else if b.1.greater_than(&a.1) {
            std::cmp::Ordering::Greater
        } else {
            a.0.cmp(&b.0)
        }
    });
    assert_eq!(ranked.len(), expected.len());
    for (k, (i, _)) in expected.iter().enumerate() {
        assert!(std::ptr::eq(ranked[k], choices[*i]));
    }
    let filtered = compute_matches(&choices, "xyit", true);
    let by_hand: Vec<&str> = choices.iter().copied().filter(|c| c.starts_with("xy")).collect();
    assert_eq!(filtered, by_hand);
}

#[test]
fn empty_query_returns_every_choice_in_order() {
    let choices = vec!["b", "", "a", "c"];
    assert_eq!(compute_matches(&choices, "", false), choices);
    assert_eq!(compute_matches(&choices, "", true), choices);
}

#[test]
fn visual_score_marks_the_minimal_span() {
    assert_eq!(visual_score("foo bar baz", "fbb"), vec![0, 4, 8]);
    assert_eq!(visual_score("a-ab", "ab"), vec![2, 3]);
    assert_eq!(visual_score("ab-ab", "ab"), vec![0, 1]);
    assert_eq!(visual_score("axb ab", "ab"), vec![4, 5]);
    assert_eq!(visual_score("anything", ""), Vec::<usize>::new());
    assert_eq!(visual_score("", "q"), Vec::<usize>::new());
    assert_eq!(visual_score("πЯ音æ∞/child", "音c"), vec![2, 6]);
}

#[test]
fn longest_match_prefers_the_first_of_equal_spans() {
    assert_eq!(get_longest_match(&chars("a.b a.b"), &chars("ab")), Some((0, 2)));
    assert_eq!(get_longest_match(&chars("a..b ab"), &chars("ab")), Some((5, 6)));
    assert_eq!(get_longest_match(&chars("abc"), &chars("d")), None);
    assert_eq!(compute_match_length(&chars("a..b ab"), &chars("ab")), Some(2));
    assert_eq!(compute_match_length(&chars("a..b"), &chars("ab")), Some(4));
    assert_eq!(compute_match_length(&chars("a..b"), &chars("ba")), None);
    assert_eq!(get_match_length(Some((3, 7))), Some(5));
    assert_eq!(get_match_length(None), None);
}

#[test]
fn find_char_lists_every_matching_position() {
    assert_eq!(find_char_in_string(&chars("aAbA"), 'a'), vec![0, 1, 3]);
    assert_eq!(find_char_in_string(&chars("aAbA"), 'A'), vec![1, 3]);
    assert_eq!(find_char_in_string(&chars("aAbA"), 'c'), Vec::<usize>::new());
}

#[test]
fn evaluate_follows_the_mode() {
    assert_eq!(evaluate("f.o.o", "foo", true), Score::one());
    assert_eq!(evaluate("f.o.o", "foo", false), Score { matched: 3, span: 5, length: 5 });
    assert_eq!(evaluate("f.o.o", "fox", true), Score::zero());
    assert_eq!(evaluate("f.o.o", "fox", false), Score::zero());
}
