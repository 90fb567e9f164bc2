use karva::fixtures::{
    awaits_result, setup_kind, teardown_problem, FinalizerCache, Finalizer, FixtureScope, SetupKind,
    TeardownStep,
};
use karva::format::SnapshotFile;

#[test]
fn test_write_and_read_snapshot() {
    let file = SnapshotFile {
        source: Some("test.py:3::test_foo".to_string()),
        inline_source: None,
        inline_line: None,
        content: "hello world\n".to_string(),
    };
    let text = file.serialize();
    assert_eq!(text, "source: test.py:3::test_foo\n\nhello world\n");
    let back = SnapshotFile::parse(&text).expect("parse");
    assert_eq!(back.source.as_deref(), Some("test.py:3::test_foo"));
    assert_eq!(back.inline_source, None);
    assert_eq!(back.inline_line, None);
    assert_eq!(back.content, "hello world\n");
}

#[test]
fn inline_metadata_round_trips() {
    let file = SnapshotFile {
        source: Some("test.py:5::test_hello".to_string()),
        inline_source: Some("/work/test.py".to_string()),
        inline_line: Some(5),
        content: "line 1\n\nline 3".to_string(),
    };
    let text = file.serialize();
    assert_eq!(
        text,
        "source: test.py:5::test_hello\ninline_source: /work/test.py\ninline_line: 5\n\nline 1\n\nline 3"
    );
    let back = SnapshotFile::parse(&text).expect("parse");
    assert_eq!(back.inline_source.as_deref(), Some("/work/test.py"));
    assert_eq!(back.inline_line, Some(5));
    assert_eq!(back.content, "line 1\n\nline 3");
}

#[test]
fn header_needs_a_blank_line() {
    assert!(SnapshotFile::parse("content").is_none());
    assert!(SnapshotFile::parse("source: a\n").is_none());
    let empty = SnapshotFile::parse("\n").expect("empty header");
    assert_eq!(empty.source, None);
    assert_eq!(empty.content, "");
}

#[test]
fn unknown_keys_and_bad_numbers_are_ignored() {
    let f = SnapshotFile::parse("kind: x\ninline_line: 12a\ninline_line: 99999999999\n\nbody")
        .expect("parse");
    assert_eq!(f.inline_line, None);
    assert_eq!(f.source, None);
    assert_eq!(f.content, "body");
    let g = SnapshotFile::parse("inline_line: 7\ninline_line: 4294967295\n\n").expect("parse");
    assert_eq!(g.inline_line, Some(4294967295));
}

#[test]
fn fixture_results_are_post_processed_by_kind() {
    assert_eq!(setup_kind(true, true, true, false), SetupKind::AsyncGenerator);
    assert_eq!(setup_kind(true, true, false, false), SetupKind::Generator);
    assert_eq!(setup_kind(false, false, false, true), SetupKind::BuiltInWithFinalizer);
    assert_eq!(setup_kind(true, false, true, true), SetupKind::Plain);
    assert!(awaits_result(true, false, true));
    assert!(!awaits_result(true, true, true));
}

#[test]
fn teardown_problems_are_reported() {
    assert_eq!(teardown_problem(TeardownStep::Exhausted), None);
    assert_eq!(
        teardown_problem(TeardownStep::YieldedAgain).as_deref(),
        Some("Fixture had more than one yield statement")
    );
    assert_eq!(
        teardown_problem(TeardownStep::Raised("boom".to_string())).as_deref(),
        Some("Failed to reset fixture: boom")
    );
}

#[test]
fn function_scope_finalizers_come_back() {
    let mut cache = FinalizerCache::new();
    let f = Finalizer { handle: 1, scope: FixtureScope::Function, fixture: 1 };
    let g = Finalizer { handle: 2, scope: FixtureScope::Package, fixture: 2 };
    assert_eq!(cache.route_finalizer(f), Some(f));
    assert_eq!(cache.route_finalizer(g), None);
    assert_eq!(cache.finalizers, vec![g]);
}
