use teco::compare::{classify, count_words, diff, words_of_tokens, DiffLine};
use teco::model::{CaseFile, TecoCase, TecoResult};
use teco::token::{construct_string, tokenize, Token};

fn w(s: &str) -> Token {
    Token::Word(s.to_string())
}

fn run_case(expected: Option<&str>, actual: &str) -> teco::model::TecoExecution {
    let expected_tokens = expected.map(|e| tokenize(e.to_string()));
    let case = TecoCase {
        name: "t".to_string(),
        input_content: String::new(),
        expected_tokens,
    };
    let stdout_tokens = tokenize(actual.to_string());
    if let Some(e) = &case.expected_tokens {
        assert!(count_words(e) <= count_words(&stdout_tokens));
    }
    classify(case, stdout_tokens, String::new())
}

#[test]
fn tokenize_empty_is_empty() {
    assert_eq!(tokenize(String::new()), vec![]);
}

#[test]
fn tokenize_words_and_blank_line() {
    assert_eq!(
        tokenize("a  b\n\nc".to_string()),
        vec![w("a"), w("b"), Token::Newline, Token::Newline, w("c")]
    );
}

#[test]
fn tokenize_trailing_newline_no_phantom_line() {
    assert_eq!(tokenize("a\n".to_string()), vec![w("a")]);
}

#[test]
fn tokenize_crlf_line_ending() {
    assert_eq!(
        tokenize("a\r\nb".to_string()),
        vec![w("a"), Token::Newline, w("b")]
    );
}

#[test]
fn tokenize_surrounding_whitespace() {
    assert_eq!(
        tokenize("  alpha \t beta \n gamma ".to_string()),
        vec![w("alpha"), w("beta"), Token::Newline, w("gamma")]
    );
}

#[test]
fn construct_string_empty() {
    assert_eq!(construct_string(vec![]), "");
}

#[test]
fn construct_string_normalizes() {
    assert_eq!(
        construct_string(vec![w("a"), w("b"), Token::Newline, Token::Newline, w("c")]),
        "a b\n\nc"
    );
}

#[test]
fn retokenize_rendering_is_idempotent() {
    for x in ["", "a  b\n\nc", " x  y ", "a\nb c", "one", "\n a", "a\r\n b"] {
        let once = tokenize(x.to_string());
        let again = tokenize(construct_string(once.clone()));
        assert_eq!(again, once);
    }
}

#[test]
fn classify_pass_on_exact_match() {
    let exec = run_case(Some("1 2\n3"), "1 2\n3");
    assert!(matches!(exec.result, TecoResult::Pass));
    assert_eq!(exec.stdout_content, "1 2\n3");
}

#[test]
fn classify_whitespace_insensitive() {
    let exec = run_case(Some("1 2\n3"), "1    2\n   3");
    assert!(matches!(exec.result, TecoResult::Pass));
}

#[test]
fn classify_pulls_words_across_actual_lines() {
    // the expected stream dictates the shape: both actual words land on the
    // one expected line, and match positionally
    let exec = run_case(Some("1 2"), "1\n2");
    assert!(matches!(exec.result, TecoResult::Pass));
    assert_eq!(exec.stdout_content, "1 2");
}

#[test]
fn classify_fail_carries_expected_rendering() {
    let exec = run_case(Some("1  2"), "1 3");
    assert_eq!(exec.stdout_content, "1 3");
    match exec.result {
        TecoResult::Fail { expected_content } => assert_eq!(expected_content, "1 2"),
        _ => panic!("expected a fail verdict"),
    }
}

#[test]
fn classify_drops_extra_actual_words() {
    let exec = run_case(Some("a"), "a b");
    assert!(matches!(exec.result, TecoResult::Pass));
    assert_eq!(exec.stdout_content, "a");
}

#[test]
fn classify_unknown_without_expected() {
    for actual in ["", "anything at  all", "1 2\n3"] {
        let exec = run_case(None, actual);
        assert!(matches!(exec.result, TecoResult::Unknown));
    }
}

#[test]
fn classify_unknown_renders_actual() {
    let exec = run_case(None, "a   b\nc ");
    assert_eq!(exec.stdout_content, "a b\nc");
}

#[test]
fn classify_keeps_stderr() {
    let case = TecoCase {
        name: "t".to_string(),
        input_content: String::new(),
        expected_tokens: None,
    };
    let exec = classify(case, vec![], "boom".to_string());
    assert_eq!(exec.stderr_content, "boom");
    assert_eq!(exec.case.name, "t");
}

#[test]
fn count_words_skips_line_breaks() {
    let toks = tokenize("a b\n\nc".to_string());
    assert_eq!(count_words(&toks), 3);
    assert_eq!(count_words(&vec![]), 0);
}

#[test]
fn words_of_tokens_in_order() {
    let toks = tokenize("a b\nc".to_string());
    assert_eq!(
        words_of_tokens(&toks),
        vec!["a".to_string(), "b".to_string(), "c".to_string()]
    );
}

fn file(name: &str, content: &str) -> CaseFile {
    CaseFile {
        name: name.to_string(),
        content: content.to_string(),
    }
}

#[test]
fn repository_orders_and_pairs_cases() {
    let files = vec![
        file("b.in", "bee"),
        file("a.in", "ay"),
        file("a.out", "1 2"),
        file("c.in", "see"),
    ];
    let cases = TecoCase::from_listing(&files, "in", "out");
    assert_eq!(cases.len(), 3);
    assert_eq!(cases[0].name, "a");
    assert_eq!(cases[1].name, "b");
    assert_eq!(cases[2].name, "c");
    assert_eq!(cases[0].input_content, "ay");
    assert_eq!(cases[1].input_content, "bee");
    assert_eq!(cases[2].input_content, "see");
    assert_eq!(
        cases[0].expected_tokens,
        Some(tokenize("1 2".to_string()))
    );
    assert!(cases[1].expected_tokens.is_none());
    assert!(cases[2].expected_tokens.is_none());
}

#[test]
fn repository_ignores_unrelated_files() {
    let files = vec![file("read.me", "hi"), file("x.out", "1"), file("y.in", "z")];
    let cases = TecoCase::from_listing(&files, "in", "out");
    assert_eq!(cases.len(), 1);
    assert_eq!(cases[0].name, "y");
}

#[test]
fn repository_strips_the_suffix_once() {
    let files = vec![file("x.in.in", "data"), file("x.in.out", "ok")];
    let cases = TecoCase::from_listing(&files, "in", "out");
    assert_eq!(cases.len(), 1);
    assert_eq!(cases[0].name, "x.in");
    assert_eq!(cases[0].expected_tokens, Some(tokenize("ok".to_string())));
}

#[test]
fn repository_respects_custom_extensions() {
    let files = vec![file("t.txt", "in"), file("t.exp", "out words")];
    let cases = TecoCase::from_listing(&files, "txt", "exp");
    assert_eq!(cases.len(), 1);
    assert_eq!(cases[0].name, "t");
    assert_eq!(
        cases[0].expected_tokens,
        Some(tokenize("out words".to_string()))
    );
}

#[test]
fn diff_marks_matched_and_mismatched_lines() {
    let d = diff("x\ny", "x\nz");
    assert_eq!(
        d,
        vec![
            DiffLine::Same("x".to_string()),
            DiffLine::Mismatch {
                expected: "y".to_string(),
                actual: "z".to_string(),
            },
        ]
    );
}

#[test]
fn diff_trims_before_comparing() {
    let d = diff("  x  \ny", "x\n y ");
    assert_eq!(
        d,
        vec![DiffLine::Same("x".to_string()), DiffLine::Same("y".to_string())]
    );
}

#[test]
fn diff_truncates_to_shorter_text() {
    let d = diff("x\ny\nz", "x");
    assert_eq!(d, vec![DiffLine::Same("x".to_string())]);
}

#[test]
fn case_identity_and_order_use_the_name_alone() {
    let a1 = TecoCase {
        name: "a".to_string(),
        input_content: "x".to_string(),
        expected_tokens: None,
    };
    let a2 = TecoCase {
        name: "a".to_string(),
        input_content: "y".to_string(),
        expected_tokens: Some(vec![]),
    };
    let b = TecoCase {
        name: "b".to_string(),
        input_content: "x".to_string(),
        expected_tokens: None,
    };
    assert!(a1 == a2);
    assert!(a1 != b);
    assert!(a1 < b);
    assert!(b > a2);
    assert_eq!(
        a1.partial_cmp(&a2),
        Some(std::cmp::Ordering::Equal)
    );
}
