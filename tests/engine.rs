use karva::cli::{
    check_test_mode, matches_filter, test_run_status, worker_count, ExitStatus, TestModeError,
    Verbosity, VerbosityLevel,
};
use karva::fixtures::{FinalizerCache, Finalizer, FixtureCache, FixtureScope};
use karva::partition::{
    aggregate, estimated_durations, partition_tests, partitions, RunStats, DEFAULT_DURATION,
};
use karva::runner::{
    classify_test_result, decide_variant, fixtures_to_set_up, should_retry, variant_name,
    CallResult, FailureReport, RunProgress, TestOutcome, VariantDecision,
};
use karva::storage::{defines_function, UnreferencedReason};

/// Sets up a fixture through the cache: reuses a cached value, otherwise
/// "calls" it (counting the call) and stores the value.
fn use_fixture(cache: &mut FixtureCache, name: &str, scope: FixtureScope, calls: &mut u32) -> u64 {
    let key = name.to_string();
    match cache.get(&key, scope) {
        Some(v) => v,
        None => {
            *calls += 1;
            let v = 100 + u64::from(*calls);
            cache.insert(key, v, scope);
            v
        }
    }
}

#[test]
fn module_fixture_is_called_once_per_module() {
    let mut cache = FixtureCache::new();
    let mut calls = 0;
    let a = use_fixture(&mut cache, "counter", FixtureScope::Module, &mut calls);
    cache.clear_fixtures(FixtureScope::Function);
    let b = use_fixture(&mut cache, "counter", FixtureScope::Module, &mut calls);
    cache.clear_fixtures(FixtureScope::Function);
    assert_eq!(calls, 1);
    assert_eq!(a, b);
    cache.clear_fixtures(FixtureScope::Module);
    use_fixture(&mut cache, "counter", FixtureScope::Module, &mut calls);
    assert_eq!(calls, 2);
}

#[test]
fn function_fixture_is_called_once_per_variant() {
    let mut cache = FixtureCache::new();
    let mut calls = 0;
    let mut names = Vec::new();
    for x in ["1", "2"] {
        use_fixture(&mut cache, "f", FixtureScope::Function, &mut calls);
        names.push(variant_name("test", &vec![("x".to_string(), x.to_string())]));
        cache.clear_fixtures(FixtureScope::Function);
    }
    assert_eq!(calls, 2);
    assert_eq!(names, vec!["test(x=1)".to_string(), "test(x=2)".to_string()]);
}

#[test]
fn same_name_in_other_scope_is_another_value() {
    let mut cache = FixtureCache::new();
    cache.insert("f".to_string(), 1, FixtureScope::Session);
    cache.insert("f".to_string(), 2, FixtureScope::Module);
    assert_eq!(cache.get(&"f".to_string(), FixtureScope::Session), Some(1));
    assert_eq!(cache.get(&"f".to_string(), FixtureScope::Module), Some(2));
    cache.clear_fixtures(FixtureScope::Module);
    assert_eq!(cache.get(&"f".to_string(), FixtureScope::Module), None);
    assert_eq!(cache.get(&"f".to_string(), FixtureScope::Session), Some(1));
}

fn fin(handle: u64, scope: FixtureScope) -> Finalizer {
    Finalizer { handle, scope, fixture: handle }
}

#[test]
fn teardown_runs_in_reverse_setup_order() {
    let mut cache = FinalizerCache::new();
    cache.add_finalizer(fin(1, FixtureScope::Module));
    cache.add_finalizer(fin(2, FixtureScope::Session));
    cache.add_finalizer(fin(3, FixtureScope::Module));
    cache.add_finalizer(fin(4, FixtureScope::Module));
    let run: Vec<u64> = cache.take_scope(FixtureScope::Module).iter().map(|f| f.handle).collect();
    assert_eq!(run, vec![4, 3, 1]);
    assert_eq!(cache.finalizers, vec![fin(2, FixtureScope::Session)]);
    assert!(cache.take_scope(FixtureScope::Module).is_empty());
}

#[test]
fn generator_fixture_torn_down_once_after_test() {
    let mut cache = FinalizerCache::new();
    // The generator yielded "x"; its finalizer waits for the end of the test.
    cache.add_finalizer(fin(7, FixtureScope::Function));
    let mut torn_down = Vec::new();
    for f in cache.take_scope(FixtureScope::Function) {
        torn_down.push(f.handle);
    }
    for f in cache.take_scope(FixtureScope::Function) {
        torn_down.push(f.handle);
    }
    assert_eq!(torn_down, vec![7]);
}

#[test]
fn scopes_are_ordered() {
    assert!(FixtureScope::Function.may_depend_on(FixtureScope::Session));
    assert!(FixtureScope::Module.may_depend_on(FixtureScope::Module));
    assert!(!FixtureScope::Session.may_depend_on(FixtureScope::Function));
    assert!(!FixtureScope::Package.may_depend_on(FixtureScope::Module));
}

#[test]
fn filtered_variant_is_skipped_without_fixtures() {
    let deps = vec![1, 2, 3];
    let d = decide_variant(false, true, None);
    assert!(matches!(d, VariantDecision::Skip(None)));
    assert!(fixtures_to_set_up(&d, &deps).is_empty());
    let d = decide_variant(true, false, Some(Some("slow".to_string())));
    assert!(matches!(d, VariantDecision::Skip(None)));
    let d = decide_variant(true, true, Some(Some("slow".to_string())));
    assert!(matches!(d, VariantDecision::Skip(Some(ref r)) if r == "slow"));
    let d = decide_variant(true, true, None);
    assert!(matches!(d, VariantDecision::Run));
    assert_eq!(fixtures_to_set_up(&d, &deps), deps);
}

#[test]
fn results_are_classified() {
    assert!(matches!(
        classify_test_result(CallResult::Returned, false),
        (TestOutcome::Passed, FailureReport::Nothing)
    ));
    assert!(matches!(
        classify_test_result(CallResult::Returned, true),
        (TestOutcome::Failed, FailureReport::PassedOnExpectedFailure)
    ));
    assert!(matches!(
        classify_test_result(CallResult::Raised { missing_fixtures: false }, true),
        (TestOutcome::ExpectedFailure, FailureReport::Nothing)
    ));
    assert!(matches!(
        classify_test_result(CallResult::Raised { missing_fixtures: true }, false),
        (TestOutcome::Failed, FailureReport::MissingFixtures)
    ));
    assert!(matches!(
        classify_test_result(CallResult::Raised { missing_fixtures: false }, false),
        (TestOutcome::Failed, FailureReport::TestFailure)
    ));
    assert!(matches!(
        classify_test_result(CallResult::SkipRaised(Some("why".to_string())), true),
        (TestOutcome::Skipped(Some(_)), FailureReport::Nothing)
    ));
}

#[test]
fn retries_only_after_failure() {
    assert!(should_retry(false, 1));
    assert!(!should_retry(true, 3));
    assert!(!should_retry(false, 0));
}

#[test]
fn fail_fast_stops_after_first_failure() {
    let results = [true, true, false, true, true];
    let mut progress = RunProgress::new(true);
    let mut finalizers = FinalizerCache::new();
    let mut torn_down = Vec::new();
    for (i, ok) in results.iter().enumerate() {
        if !progress.may_continue() {
            break;
        }
        finalizers.add_finalizer(fin(i as u64 + 1, FixtureScope::Function));
        progress.record(*ok);
        for f in finalizers.take_scope(FixtureScope::Function) {
            torn_down.push(f.handle);
        }
    }
    assert_eq!(progress.run, 3);
    assert!(!progress.passed);
    assert_eq!(torn_down, vec![1, 2, 3]);
    let stats = RunStats { passed: 2, failed: 1, skipped: 0 };
    assert_eq!(test_run_status(stats.is_success(), true).to_i32(), 1);

    let mut all = RunProgress::new(false);
    for ok in results {
        assert!(all.may_continue());
        all.record(ok);
    }
    assert_eq!(all.run, 5);
}

#[test]
fn durations_fill_missing_with_mean() {
    assert_eq!(estimated_durations(&vec![Some(10), None, Some(20)]), vec![10, 15, 20]);
    assert_eq!(
        estimated_durations(&vec![None, None]),
        vec![DEFAULT_DURATION, DEFAULT_DURATION]
    );
    assert_eq!(estimated_durations(&vec![Some(u64::MAX), Some(u64::MAX), None])[2], u64::MAX / 2);
}

#[test]
fn partitions_cover_all_tests_once() {
    let durations = vec![5, 1, 8, 3, 3, 9, 2];
    let a = partition_tests(&durations, 3);
    let parts = partitions(&a, 3);
    let mut seen = vec![0; durations.len()];
    for p in &parts {
        for &t in p {
            seen[t] += 1;
        }
    }
    assert!(seen.iter().all(|&c| c == 1));
    // Longest first onto the least loaded worker: 9 | 8 | 5, then the 3s go
    // to the workers holding 5 and 8, the 2 to the one holding 5 + 3, the 1
    // to the one holding 9.
    assert_eq!(a, vec![2, 0, 1, 2, 1, 0, 2]);
    let loads: Vec<u64> = parts.iter().map(|p| p.iter().map(|&t| durations[t]).sum()).collect();
    assert_eq!(loads, vec![10, 11, 10]);
}

#[test]
fn partition_with_more_workers_than_tests() {
    let a = partition_tests(&vec![4, 4], 5);
    assert_eq!(a, vec![0, 1]);
    let parts = partitions(&a, 5);
    assert_eq!(parts, vec![vec![0], vec![1], vec![], vec![], vec![]]);
    assert!(partition_tests(&vec![], 2).is_empty());
}

#[test]
fn aggregate_sums_worker_counters() {
    let stats = vec![
        RunStats { passed: 3, failed: 1, skipped: 0 },
        RunStats { passed: 2, failed: 0, skipped: 4 },
    ];
    let total = aggregate(&stats);
    assert_eq!(total, RunStats { passed: 5, failed: 1, skipped: 4 });
    assert_eq!(total.total(), 10);
    assert!(!total.is_success());
    assert_eq!(aggregate(&vec![]), RunStats { passed: 0, failed: 0, skipped: 0 });
}

#[test]
fn exit_codes() {
    assert_eq!(ExitStatus::Success.to_i32(), 0);
    assert_eq!(ExitStatus::Failure.to_i32(), 1);
    assert_eq!(ExitStatus::Error.to_i32(), 2);
    assert_eq!(test_run_status(true, true), ExitStatus::Success);
    assert_eq!(test_run_status(true, false), ExitStatus::Failure);
}

#[test]
fn verbosity_levels() {
    assert_eq!(Verbosity { verbose: 0, quiet: 0 }.level(), VerbosityLevel::Default);
    assert_eq!(Verbosity { verbose: 1, quiet: 0 }.level(), VerbosityLevel::Verbose);
    assert_eq!(Verbosity { verbose: 2, quiet: 0 }.level(), VerbosityLevel::ExtraVerbose);
    assert_eq!(Verbosity { verbose: 7, quiet: 0 }.level(), VerbosityLevel::Trace);
    assert_eq!(Verbosity { verbose: 2, quiet: 1 }.level(), VerbosityLevel::Quiet);
}

#[test]
fn path_filters_match_by_prefix() {
    let filters = vec!["/p/tests/a".to_string(), "/p/other".to_string()];
    assert!(matches_filter("/p/tests/a/snapshots/x.snap", &filters));
    assert!(matches_filter("/p/other.snap", &filters));
    assert!(!matches_filter("/p/tests/b/x.snap", &filters));
    assert!(matches_filter("/anything", &vec![]));
}

#[test]
fn unreferenced_reasons_describe_themselves() {
    assert_eq!(UnreferencedReason::NoSource.describe(), "no source metadata");
    assert_eq!(
        UnreferencedReason::TestFileNotFound("test.py".to_string()).describe(),
        "test file not found: test.py"
    );
    assert_eq!(
        UnreferencedReason::FunctionNotFound {
            file: "test.py".to_string(),
            function: "test_foo".to_string()
        }
        .describe(),
        "function `test_foo` not found in test.py"
    );
}

#[test]
fn function_definitions_are_found_textually() {
    assert!(defines_function("def test_foo():\n    pass\n", "test_foo"));
    assert!(!defines_function("def test_other():\n    pass\n", "test_foo"));
    assert!(!defines_function("def test_foo_bar():\n", "test_foo"));
    assert!(defines_function("async def test_foo(x):\n", "test_foo"));
}

#[test]
fn test_watch_and_dry_run_conflict() {
    assert_eq!(check_test_mode(true, true), Err(TestModeError::WatchWithDryRun));
    assert_eq!(check_test_mode(true, false), Ok(()));
    assert_eq!(check_test_mode(false, true), Ok(()));
}

#[test]
fn worker_counts() {
    assert_eq!(worker_count(true, Some(8), 4), 1);
    assert_eq!(worker_count(false, Some(8), 4), 8);
    assert_eq!(worker_count(false, None, 4), 4);
}
