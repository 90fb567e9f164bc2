use karva::inline::rewrite_inline_source;
use karva::snapshot::{
    check_snapshot_arguments, compute_inline_snapshot_name, compute_named_snapshot,
    compute_snapshot_name, decide_file_snapshot, decide_inline_snapshot, equal_trimmed,
    snapshot_file_name, FileOutcome, InlineOutcome, SettingsStack, SnapshotContext, SnapshotError,
    SnapshotSettings,
};
use karva::storage::source_function_name;

#[test]
fn test_compute_snapshot_name_single() {
    assert_eq!(compute_snapshot_name("test_foo", 0, false), "test_foo");
}

#[test]
fn test_compute_snapshot_name_allow_duplicates() {
    assert_eq!(compute_snapshot_name("test_foo", 0, true), "test_foo-0");
    assert_eq!(compute_snapshot_name("test_foo", 1, true), "test_foo-1");
    assert_eq!(compute_snapshot_name("test_foo", 2, true), "test_foo-2");
}

#[test]
fn test_compute_snapshot_name_parametrized() {
    assert_eq!(
        compute_snapshot_name("test_foo(a=1, b=2)", 0, false),
        "test_foo(a=1, b=2)"
    );
    assert_eq!(
        compute_snapshot_name("test_foo(a=1, b=2)", 0, true),
        "test_foo-0(a=1, b=2)"
    );
}

#[test]
fn test_compute_named_snapshot() {
    assert_eq!(
        compute_named_snapshot("test_foo", "header"),
        "test_foo--header"
    );
}

#[test]
fn test_compute_named_snapshot_parametrized() {
    assert_eq!(
        compute_named_snapshot("test_foo(x=1)", "header"),
        "test_foo--header(x=1)"
    );
}

#[test]
fn snapshot_name_counter_has_many_digits() {
    assert_eq!(compute_snapshot_name("t", 1234, true), "t-1234");
    assert_eq!(compute_snapshot_name("t", 4294967295, true), "t-4294967295");
}

#[test]
fn inline_snapshot_name_carries_line() {
    assert_eq!(compute_inline_snapshot_name("test_hello", 5), "test_hello_inline_5");
    assert_eq!(compute_inline_snapshot_name("test_second", 12), "test_second_inline_12");
}

#[test]
fn snapshot_file_name_is_made_fs_safe() {
    assert_eq!(snapshot_file_name("test_example", "test_foo"), "test_example__test_foo.snap");
    assert_eq!(
        snapshot_file_name("mod", "TestClass::test_method"),
        "mod__TestClass__test_method.snap"
    );
    assert_eq!(snapshot_file_name("m", "a:::b"), "m__a__:b.snap");
}

#[test]
fn trailing_whitespace_does_not_count() {
    assert!(equal_trimmed("hello\n", "hello"));
    assert!(equal_trimmed("a b  \n\n", "a b"));
    assert!(!equal_trimmed(" hello", "hello"));
    assert!(!equal_trimmed("hello", "hellO"));
}

#[test]
fn file_snapshot_outcomes() {
    assert_eq!(decide_file_snapshot(Some("abc\n"), "abc", false), FileOutcome::Matched);
    assert_eq!(decide_file_snapshot(Some("abc"), "abd", false), FileOutcome::Mismatched);
    assert_eq!(decide_file_snapshot(Some("abc"), "abd", true), FileOutcome::Updated);
    assert_eq!(decide_file_snapshot(None, "abd", false), FileOutcome::New);
    assert_eq!(decide_file_snapshot(None, "abd", true), FileOutcome::Created);
    assert!(FileOutcome::Created.passes());
    assert!(!FileOutcome::New.passes());
    assert!(!FileOutcome::Mismatched.passes());
}

#[test]
fn snapshot_passes_twice_after_accept() {
    // First run: nothing stored, so a pending snapshot is written.
    let value = "hello world";
    assert_eq!(decide_file_snapshot(None, value, false), FileOutcome::New);
    // After accepting, the stored snapshot holds the value: both later runs pass.
    let stored = value.to_string();
    assert_eq!(decide_file_snapshot(Some(&stored), value, false), FileOutcome::Matched);
    assert_eq!(decide_file_snapshot(Some(&stored), value, true), FileOutcome::Matched);
}

#[test]
fn test_inline_snapshot_matches() {
    assert_eq!(
        decide_inline_snapshot("hello world", "hello world", false),
        InlineOutcome::Matched
    );
}

#[test]
fn test_inline_snapshot_mismatch_no_update() {
    assert_eq!(
        decide_inline_snapshot("goodbye", "hello", false),
        InlineOutcome::MismatchPending
    );
}

#[test]
fn test_inline_snapshot_multiline_matches() {
    // The value of `"""\` + newline + indented lines + closing indent.
    assert_eq!(
        decide_inline_snapshot("line 1\nline 2", "        line 1\n        line 2\n    ", false),
        InlineOutcome::Matched
    );
}

#[test]
fn empty_inline_literal_is_new() {
    assert_eq!(decide_inline_snapshot("x", "", false), InlineOutcome::NewPending);
    assert_eq!(decide_inline_snapshot("", "", false), InlineOutcome::NewPending);
    assert_eq!(decide_inline_snapshot("x", "", true), InlineOutcome::Rewrite);
    assert_eq!(decide_inline_snapshot("goodbye", "hello", true), InlineOutcome::Rewrite);
}

const HELLO_EMPTY: &str =
    "\nimport karva\n\ndef test_hello():\n    karva.assert_snapshot(\"hello world\", inline=\"\")\n";

#[test]
fn test_inline_snapshot_creates_value() {
    let source = rewrite_inline_source(HELLO_EMPTY, 5, "hello world", None).expect("rewrite");
    assert_eq!(
        source,
        "\nimport karva\n\ndef test_hello():\n    karva.assert_snapshot(\"hello world\", inline=\"hello world\")\n"
    );
}

#[test]
fn test_inline_snapshot_mismatch_updates_source() {
    let before =
        "\nimport karva\n\ndef test_hello():\n    karva.assert_snapshot(\"goodbye\", inline=\"hello\")\n";
    let source = rewrite_inline_source(before, 5, "goodbye", None).expect("rewrite");
    assert_eq!(
        source,
        "\nimport karva\n\ndef test_hello():\n    karva.assert_snapshot(\"goodbye\", inline=\"goodbye\")\n"
    );
}

#[test]
fn test_inline_snapshot_multiline() {
    let before = "\nimport karva\n\ndef test_lines():\n    karva.assert_snapshot(\"line 1\\nline 2\\nline 3\", inline=\"\")\n";
    let source = rewrite_inline_source(before, 5, "line 1\nline 2\nline 3", None).expect("rewrite");
    assert_eq!(
        source,
        "\nimport karva\n\ndef test_lines():\n    karva.assert_snapshot(\"line 1\\nline 2\\nline 3\", inline=\"\"\"\\\n        line 1\n        line 2\n        line 3\n    \"\"\")\n"
    );
}

#[test]
fn test_inline_snapshot_multiple_per_test() {
    let before = "\nimport karva\n\ndef test_multi():\n    with karva.snapshot_settings(allow_duplicates=True):\n        karva.assert_snapshot(\"first\", inline=\"\")\n        karva.assert_snapshot(\"second\", inline=\"\")\n";
    let once = rewrite_inline_source(before, 6, "first", None).expect("first");
    let twice = rewrite_inline_source(&once, 7, "second", None).expect("second");
    assert_eq!(
        twice,
        "\nimport karva\n\ndef test_multi():\n    with karva.snapshot_settings(allow_duplicates=True):\n        karva.assert_snapshot(\"first\", inline=\"first\")\n        karva.assert_snapshot(\"second\", inline=\"second\")\n"
    );
}

#[test]
fn test_inline_snapshot_with_quotes() {
    let before = "\nimport karva\n\ndef test_quotes():\n    karva.assert_snapshot('say \"hi\"', inline=\"\")\n";
    let source = rewrite_inline_source(before, 5, "say \"hi\"", None).expect("rewrite");
    assert!(
        source.contains("say \\\"hi\\\""),
        "Expected escaped double quotes in inline value, got: {source}"
    );
}

#[test]
fn inline_rewrite_with_backslash() {
    let before = "def test_backslash():\n    karva.assert_snapshot(\"p\", inline=\"\")\n";
    let source = rewrite_inline_source(before, 2, "path\\to\\file", None).expect("rewrite");
    assert_eq!(
        source,
        "def test_backslash():\n    karva.assert_snapshot(\"p\", inline=\"path\\\\to\\\\file\")\n"
    );
}

#[test]
fn inline_rewrite_of_correct_literal_changes_nothing() {
    let source = "def test_a():\n    karva.assert_snapshot(\"x\", inline=\"fixed\")\n";
    assert_eq!(
        rewrite_inline_source(source, 2, "fixed", None).expect("rewrite"),
        source
    );
    let multi = "def test_a():\n    karva.assert_snapshot(v, inline=\"\"\"\\\n        a\n        b\n    \"\"\")\n";
    assert_eq!(rewrite_inline_source(multi, 2, "a\nb", None).expect("rewrite"), multi);
}

#[test]
fn inline_rewrite_without_literal_is_none() {
    assert!(rewrite_inline_source("x = 1\n", 1, "v", None).is_none());
    assert!(rewrite_inline_source("x = 1\n", 0, "v", None).is_none());
    assert!(rewrite_inline_source("x = 1\n", 9, "v", None).is_none());
}

const THREE_TESTS: &str = "\nimport karva\n\ndef test_first():\n    karva.assert_snapshot(\"a\\nb\\nc\", inline=\"\")\n\ndef test_middle():\n    karva.assert_snapshot(\"fixed\", inline=\"fixed\")\n\ndef test_third():\n    karva.assert_snapshot(\"hello\", inline=\"\")\n";

#[test]
fn test_inline_multiline_accept_does_not_corrupt_intervening_inline() {
    // Accept the first (multi-line) snapshot, which shifts later lines by 4.
    let first = rewrite_inline_source(
        THREE_TESTS,
        5,
        "a\nb\nc",
        Some(source_function_name("test.py:5::test_first")),
    )
    .expect("first");
    // The third's pending snapshot still says line 11.
    let source = rewrite_inline_source(
        &first,
        11,
        "hello",
        Some(source_function_name("test.py:11::test_third")),
    )
    .expect("third");
    assert!(
        source.contains(r#"karva.assert_snapshot("fixed", inline="fixed")"#),
        "Middle inline was corrupted! Got:\n{source}"
    );
    assert!(
        source.contains(r#"karva.assert_snapshot("hello", inline="hello")"#),
        "Third inline not rewritten correctly! Got:\n{source}"
    );
    assert!(source.contains("inline=\"\"\"\\\n        a\n        b\n        c\n    \"\"\")"));
}

#[test]
fn stale_line_without_function_name_hits_the_wrong_call() {
    let first = rewrite_inline_source(THREE_TESTS, 5, "a\nb\nc", None).expect("first");
    let wrong = rewrite_inline_source(&first, 11, "hello", None).expect("third");
    assert!(wrong.contains(r#"karva.assert_snapshot("fixed", inline="hello")"#));
}

#[test]
fn source_function_names() {
    assert_eq!(source_function_name("test.py:5::test_foo"), "test_foo");
    assert_eq!(source_function_name("test.py:5::test_foo(x=1)"), "test_foo");
    assert_eq!(source_function_name("test_foo"), "test_foo");
}

#[test]
fn filter_stack_applies_outermost_first() {
    let mut stack = SettingsStack::new();
    assert!(!stack.allow_duplicates());
    stack.enter(SnapshotSettings::new(
        Some(vec![("\\d+".to_string(), "N".to_string())]),
        false,
    ));
    stack.enter(SnapshotSettings::new(
        Some(vec![("abc".to_string(), "X".to_string())]),
        true,
    ));
    assert!(stack.allow_duplicates());
    assert_eq!(
        stack.filters(),
        vec![
            ("\\d+".to_string(), "N".to_string()),
            ("abc".to_string(), "X".to_string())
        ]
    );
    stack.exit();
    assert!(!stack.allow_duplicates());
    assert_eq!(stack.filters(), vec![("\\d+".to_string(), "N".to_string())]);
    stack.exit();
    stack.exit();
    assert!(stack.filters().is_empty());
}

#[test]
fn unnamed_snapshots_are_counted() {
    let mut ctx = SnapshotContext::new("tests/test_a.py".to_string(), "test_foo".to_string());
    assert_eq!(ctx.next_unnamed(false), Ok("test_foo".to_string()));
    assert_eq!(ctx.next_unnamed(false), Err(SnapshotError::MultipleUnnamed));
    assert_eq!(ctx.counter, 2);
    let mut dup = SnapshotContext::new("tests/test_a.py".to_string(), "test_foo(x=1)".to_string());
    assert_eq!(dup.next_unnamed(true), Ok("test_foo-0(x=1)".to_string()));
    assert_eq!(dup.next_unnamed(true), Ok("test_foo-1(x=1)".to_string()));
}

#[test]
fn inline_and_name_are_exclusive() {
    assert_eq!(check_snapshot_arguments(true, true), Err(SnapshotError::InlineAndName));
    assert_eq!(check_snapshot_arguments(true, false), Ok(()));
    assert_eq!(check_snapshot_arguments(false, true), Ok(()));
}

#[test]
fn inline_literal_with_equal_value_in_other_quoting_is_kept() {
    let source = "def test_a():\n    karva.assert_snapshot(v, inline='x')\n";
    assert_eq!(rewrite_inline_source(source, 2, "x", None).expect("rewrite"), source);
    let escaped = "def test_a():\n    karva.assert_snapshot(v, inline=\"say \\\"hi\\\"\")\n";
    assert_eq!(
        rewrite_inline_source(escaped, 2, "say \"hi\"\n", None).expect("rewrite"),
        escaped
    );
    let changed = rewrite_inline_source(source, 2, "y", None).expect("rewrite");
    assert_eq!(changed, "def test_a():\n    karva.assert_snapshot(v, inline=\"y\")\n");
}

#[test]
fn inline_indent_comes_from_the_call_line() {
    // The hint points at the `def` line (column 0); the call is at column 4.
    let source = "def test_a():\n    karva.assert_snapshot(v, inline=\"\")\n";
    let out = rewrite_inline_source(source, 1, "a\nb", Some("test_a")).expect("rewrite");
    assert_eq!(
        out,
        "def test_a():\n    karva.assert_snapshot(v, inline=\"\"\"\\\n        a\n        b\n    \"\"\")\n"
    );
}
