use karva::cli::{is_python_source, python_changes};
use karva::fixtures::{
    call_arguments, generator_setup, variant_teardown_order, DependencySetup, FinalizerCache,
    Finalizer, FirstStep, FixtureCache, FixtureRef, FixtureScope, SetupAction, SetupError,
};
use karva::partition::aggregate_diagnostics;
use karva::paths::{module_name, snapshot_file_path, source_metadata};
use karva::snapshot::equal_trimmed;

fn fin(handle: u64, scope: FixtureScope) -> Finalizer {
    Finalizer { handle, scope, fixture: handle }
}

#[test]
fn generator_first_step() {
    match generator_setup(FirstStep::Yielded(9), 4, FixtureScope::Module, 2) {
        Ok((v, f)) => {
            assert_eq!(v, 9);
            assert_eq!(f, Finalizer { handle: 4, scope: FixtureScope::Module, fixture: 2 });
        }
        Err(_) => panic!("expected a value"),
    }
    assert!(matches!(
        generator_setup(FirstStep::Exhausted, 4, FixtureScope::Module, 2),
        Err(SetupError::YieldedNoValue)
    ));
    assert!(matches!(
        generator_setup(FirstStep::Raised("boom".to_string()), 4, FixtureScope::Module, 2),
        Err(SetupError::Raised(ref m)) if m == "boom"
    ));
}

#[test]
fn variant_finalizers_run_in_reverse() {
    let fs = vec![fin(1, FixtureScope::Function), fin(2, FixtureScope::Function), fin(3, FixtureScope::Function)];
    let order: Vec<u64> = variant_teardown_order(&fs).iter().map(|f| f.handle).collect();
    assert_eq!(order, vec![3, 2, 1]);
    assert!(variant_teardown_order(&vec![]).is_empty());
}

#[test]
fn parametrize_value_overrides_fixture() {
    let fixtures = vec![("x".to_string(), 10), ("f".to_string(), 20)];
    let params = vec![("x".to_string(), 1)];
    assert_eq!(
        call_arguments(fixtures, params),
        vec![("f".to_string(), 20), ("x".to_string(), 1)]
    );
}

fn dep(name: &str, scope: FixtureScope, user_defined: bool) -> FixtureRef {
    FixtureRef { name: name.to_string(), scope, user_defined }
}

#[test]
fn dependencies_are_set_up_in_order() {
    let mut cache = FixtureCache::new();
    let mut finalizers = FinalizerCache::new();
    cache.insert("a".to_string(), 1, FixtureScope::Session);
    let mut setup = DependencySetup::new(vec![
        dep("a", FixtureScope::Session, true),
        dep("b", FixtureScope::Module, true),
        dep("tmp_path", FixtureScope::Function, false),
    ]);
    assert_eq!(setup.step(&cache), SetupAction::Call(1));
    setup.record(&mut cache, &mut finalizers, Ok((2, Some(fin(7, FixtureScope::Module)))));
    assert_eq!(setup.step(&cache), SetupAction::Call(2));
    setup.record(&mut cache, &mut finalizers, Ok((3, None)));
    assert_eq!(setup.step(&cache), SetupAction::Done);
    assert_eq!(
        setup.arguments,
        vec![("a".to_string(), 1), ("b".to_string(), 2), ("tmp_path".to_string(), 3)]
    );
    // Only the user-defined fixture is cached.
    assert_eq!(cache.get(&"b".to_string(), FixtureScope::Module), Some(2));
    assert_eq!(cache.get(&"tmp_path".to_string(), FixtureScope::Function), None);
    assert_eq!(finalizers.finalizers, vec![fin(7, FixtureScope::Module)]);
}

#[test]
fn dependency_failure_stops_setup() {
    let mut cache = FixtureCache::new();
    let mut finalizers = FinalizerCache::new();
    let mut setup = DependencySetup::new(vec![
        dep("a", FixtureScope::Function, true),
        dep("b", FixtureScope::Function, true),
    ]);
    assert_eq!(setup.step(&cache), SetupAction::Call(0));
    setup.record(&mut cache, &mut finalizers, Err(SetupError::Raised("bad".to_string())));
    assert_eq!(setup.step(&cache), SetupAction::Failed);
    assert!(setup.arguments.is_empty());
}

#[test]
fn snapshot_paths_are_composed() {
    assert_eq!(module_name("tests/test_example.py"), "test_example");
    assert_eq!(
        snapshot_file_path("tests/test_example.py", "TestClass::test_foo(x=1)"),
        "tests/snapshots/test_example__TestClass__test_foo(x=1).snap"
    );
    assert_eq!(
        source_metadata("tests/test_example.py", Some(5), "test_foo"),
        "test_example.py:5::test_foo"
    );
    assert_eq!(
        source_metadata("tests/test_example.py", None, "test_foo"),
        "test_example.py::test_foo"
    );
}

#[test]
fn unicode_trailing_whitespace_is_dropped() {
    assert!(equal_trimmed("abc\u{a0}\u{3000}\u{2003}\n", "abc"));
    assert!(equal_trimmed("abc\u{85}", "abc "));
    assert!(!equal_trimmed("abc\u{2003}x", "abc x"));
}

#[test]
fn watch_keeps_source_changes_once() {
    assert!(is_python_source("/p/test_a.py"));
    assert!(!is_python_source("/p/.py"));
    assert!(!is_python_source("/p/notes.txt"));
    let paths = vec![
        "/p/b.py".to_string(),
        "/p/a.txt".to_string(),
        "/p/a.py".to_string(),
        "/p/b.py".to_string(),
    ];
    assert_eq!(python_changes(&paths), vec!["/p/b.py".to_string(), "/p/a.py".to_string()]);
}

#[test]
fn diagnostics_are_merged_in_worker_order() {
    let d = vec!["first\n".to_string(), String::new(), "third\n".to_string()];
    assert_eq!(aggregate_diagnostics(&d), "first\nthird\n");
}
