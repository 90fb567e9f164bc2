//! Decisions of the per-worker test runner: whether a variant runs, how a
//! finished test is classified, retries, fail-fast, and the name a variant is
//! reported under.
use vstd::prelude::*;
use vstd::string::*;
use crate::text::{empty_text, push_text, utf8};

verus! {

/// What becomes of a test variant before any of its fixtures is set up.
pub enum VariantDecision {
    /// Set up its fixtures and call it.
    Run,
    /// Report it skipped, with the skip tag's reason if any.
    Skip(Option<String>),
}

/// The decision for a variant: a failed tag filter or name filter skips it
/// without a reason; otherwise a skip tag skips it with its reason.
pub open spec fn variant_decision(
    tag_filter_matches: bool,
    name_filter_matches: bool,
    skip_tag: Option<Option<String>>,
) -> VariantDecision {
    if !tag_filter_matches || !name_filter_matches {
        VariantDecision::Skip(None)
    } else {
        match skip_tag {
            Some(reason) => VariantDecision::Skip(reason),
            None => VariantDecision::Run,
        }
    }
}

/// Decides whether a variant runs, from whether it matches the tag filter
/// and the name filter (each true when no filter is set) and its skip tag.
pub fn decide_variant(
    tag_filter_matches: bool,
    name_filter_matches: bool,
    skip_tag: Option<Option<String>>,
) -> (r: VariantDecision)
    ensures
        r == variant_decision(tag_filter_matches, name_filter_matches, skip_tag),
{
    if !tag_filter_matches || !name_filter_matches {
        VariantDecision::Skip(None)
    } else {
        match skip_tag {
            Some(reason) => VariantDecision::Skip(reason),
            None => VariantDecision::Run,
        }
    }
}

/// The fixtures set up for a variant: its dependencies when it runs, none
/// when it is skipped.
pub open spec fn setups_for(d: VariantDecision, deps: Seq<u64>) -> Seq<u64> {
    match d {
        VariantDecision::Run => deps,
        VariantDecision::Skip(_) => seq![],
    }
}

/// The fixtures to set up for a variant, in order.
pub fn fixtures_to_set_up(d: &VariantDecision, deps: &Vec<u64>) -> (r: Vec<u64>)
    ensures
        r@ == setups_for(*d, deps@),
{
    match d {
        VariantDecision::Run => {
            let mut out: Vec<u64> = Vec::new();
            let mut i: usize = 0;
            while i < deps.len()
                invariant
                    i <= deps@.len(),
                    out@ == deps@.take(i as int),
                decreases deps@.len() - i,
            {
                out.push(deps[i]);
                proof {
                    assert(deps@.take(i + 1) =~= deps@.take(i as int).push(deps@[i as int]));
                }
                i = i + 1;
            }
            proof {
                assert(deps@.take(i as int) =~= deps@);
            }
            out
        },
        VariantDecision::Skip(_) => Vec::new(),
    }
}

/// A variant that fails the tag filter or the name filter is reported as
/// skipped, without a reason, and none of its fixtures is set up.
pub proof fn law_filtered_variant_sets_up_nothing(
    tag_filter_matches: bool,
    name_filter_matches: bool,
    skip_tag: Option<Option<String>>,
    deps: Seq<u64>,
)
    requires
        !tag_filter_matches || !name_filter_matches,
    ensures
        variant_decision(tag_filter_matches, name_filter_matches, skip_tag) == VariantDecision::Skip(
            None,
        ),
        setups_for(variant_decision(tag_filter_matches, name_filter_matches, skip_tag), deps)
            == Seq::<u64>::empty(),
{
}

/// How the call of a test body ended.
pub enum CallResult {
    /// It returned.
    Returned,
    /// It raised the distinguished skip error, with its reason.
    SkipRaised(Option<String>),
    /// It raised another error; `missing_fixtures` when the error names
    /// arguments that no fixture provided.
    Raised { missing_fixtures: bool },
}

/// The result a test is counted under.
pub enum TestOutcome {
    Passed,
    Failed,
    Skipped(Option<String>),
    /// It failed, as its `expect_fail` tag expected; counted as a pass.
    ExpectedFailure,
}

/// The diagnostic reported with a result.
#[derive(Copy, Clone, Debug, PartialEq, Eq, Structural)]
pub enum FailureReport {
    Nothing,
    /// A test expected to fail passed.
    PassedOnExpectedFailure,
    /// The call was missing fixtures.
    MissingFixtures,
    /// The test failed.
    TestFailure,
}

/// The classification of a call's result, given whether the test carries an
/// `expect_fail` tag that expects failure.
pub open spec fn classification(result: CallResult, expect_fail: bool) -> (TestOutcome, FailureReport) {
    match result {
        CallResult::Returned => if expect_fail {
            (TestOutcome::Failed, FailureReport::PassedOnExpectedFailure)
        } else {
            (TestOutcome::Passed, FailureReport::Nothing)
        },
        CallResult::SkipRaised(reason) => (TestOutcome::Skipped(reason), FailureReport::Nothing),
        CallResult::Raised { missing_fixtures } => if expect_fail {
            (TestOutcome::ExpectedFailure, FailureReport::Nothing)
        } else if missing_fixtures {
            (TestOutcome::Failed, FailureReport::MissingFixtures)
        } else {
            (TestOutcome::Failed, FailureReport::TestFailure)
        },
    }
}

/// Classifies the result of a test call.
pub fn classify_test_result(result: CallResult, expect_fail: bool) -> (r: (TestOutcome, FailureReport))
    ensures
        r == classification(result, expect_fail),
{
    match result {
        CallResult::Returned => if expect_fail {
            (TestOutcome::Failed, FailureReport::PassedOnExpectedFailure)
        } else {
            (TestOutcome::Passed, FailureReport::Nothing)
        },
        CallResult::SkipRaised(reason) => (TestOutcome::Skipped(reason), FailureReport::Nothing),
        CallResult::Raised { missing_fixtures } => if expect_fail {
            (TestOutcome::ExpectedFailure, FailureReport::Nothing)
        } else if missing_fixtures {
            (TestOutcome::Failed, FailureReport::MissingFixtures)
        } else {
            (TestOutcome::Failed, FailureReport::TestFailure)
        },
    }
}

/// Whether a test body is called again: only after a call that did not
/// return, while retries remain.
pub fn should_retry(returned: bool, retries_left: u32) -> (r: bool)
    ensures
        r == (!returned && retries_left > 0),
{
    !returned && retries_left > 0
}

/// Progress through the variants a worker schedules, for fail-fast.
pub struct RunProgress {
    pub fail_fast: bool,
    /// Whether every variant so far passed.
    pub passed: bool,
    /// How many variants have run.
    pub run: usize,
}

impl RunProgress {
    pub fn new(fail_fast: bool) -> (r: Self)
        ensures
            r.fail_fast == fail_fast,
            r.passed,
            r.run == 0,
    {
        RunProgress { fail_fast, passed: true, run: 0 }
    }

    /// Records the result of a variant that ran.
    pub fn record(&mut self, passed: bool)
        requires
            old(self).run < usize::MAX,
        ensures
            final(self).fail_fast == old(self).fail_fast,
            final(self).passed == (old(self).passed && passed),
            final(self).run == old(self).run + 1,
    {
        self.passed = self.passed && passed;
        self.run = self.run + 1;
    }

    /// Whether another variant may be scheduled: always, unless fail-fast is
    /// on and something failed.
    pub fn may_continue(&self) -> (r: bool)
        ensures
            r == (!self.fail_fast || self.passed),
    {
        !self.fail_fast || self.passed
    }
}

/// The name of `base` followed by its parameters `(k=v, …)`; the name itself
/// when there are none.
pub open spec fn variant_name_bytes(base: Seq<u8>, params: Seq<(Seq<u8>, Seq<u8>)>) -> Seq<u8> {
    if params.len() == 0 {
        base
    } else {
        base + seq![0x28u8] + joined_params(params) + seq![0x29u8]
    }
}

/// `k=v` for each parameter, separated by `, `.
pub open spec fn joined_params(params: Seq<(Seq<u8>, Seq<u8>)>) -> Seq<u8>
    decreases params.len(),
{
    if params.len() == 0 {
        seq![]
    } else if params.len() == 1 {
        params[0].0 + seq![0x3du8] + params[0].1
    } else {
        joined_params(params.drop_last()) + seq![0x2cu8, 0x20u8] + params.last().0 + seq![0x3du8]
            + params.last().1
    }
}

pub open spec fn params_view(params: Seq<(String, String)>) -> Seq<(Seq<u8>, Seq<u8>)> {
    params.map_values(|p: (String, String)| (utf8(p.0@), utf8(p.1@)))
}

/// The name a variant is reported under: `test(x=1)`, or `test(a=1, b=2)`,
/// from the parameter names and the displayed values.
pub fn variant_name(base: &str, params: &Vec<(String, String)>) -> (r: String)
    ensures
        utf8(r@) == variant_name_bytes(base.spec_bytes(), params_view(params@)),
{
    let mut out = empty_text();
    push_text(&mut out, base);
    if params.len() == 0 {
        return out;
    }
    let ghost pv = params_view(params@);
    let open = "(";
    let eq = "=";
    let sep = ", ";
    let close = ")";
    proof {
        reveal_strlit("(");
        reveal_strlit("=");
        reveal_strlit(", ");
        reveal_strlit(")");
        crate::text::lemma_utf8_ascii(open@);
        crate::text::lemma_utf8_ascii(eq@);
        crate::text::lemma_utf8_ascii(sep@);
        crate::text::lemma_utf8_ascii(close@);
        assert(open.spec_bytes() =~= seq![0x28u8]);
        assert(eq.spec_bytes() =~= seq![0x3du8]);
        assert(sep.spec_bytes() =~= seq![0x2cu8, 0x20u8]);
        assert(close.spec_bytes() =~= seq![0x29u8]);
    }
    push_text(&mut out, open);
    let ghost head = utf8(out@);
    let mut i: usize = 0;
    while i < params.len()
        invariant
            pv == params_view(params@),
            eq.spec_bytes() == seq![0x3du8],
            sep.spec_bytes() == seq![0x2cu8, 0x20u8],
            i <= params@.len(),
            utf8(out@) == head + joined_params(pv.take(i as int)),
        decreases params@.len() - i,
    {
        let ghost before = utf8(out@);
        if i > 0 {
            push_text(&mut out, sep);
        }
        push_text(&mut out, params[i].0.as_str());
        push_text(&mut out, eq);
        push_text(&mut out, params[i].1.as_str());
        proof {
            assert(pv.take(i + 1).drop_last() =~= pv.take(i as int));
            assert(pv.take(i + 1).last() == pv[i as int]);
            if i == 0 {
                assert(joined_params(pv.take(0)) =~= Seq::<u8>::empty());
            }
            assert(utf8(out@) =~= head + joined_params(pv.take(i + 1)));
        }
        i = i + 1;
    }
    push_text(&mut out, close);
    proof {
        assert(pv.take(i as int) =~= pv);
        assert(utf8(out@) =~= variant_name_bytes(base.spec_bytes(), pv));
    }
    out
}

/// Whether all passed, and how many ran, when variants with the given
/// results are scheduled one after another through `RunProgress`: each
/// runs only while `may_continue` holds, and is then recorded.
pub open spec fn run_through(results: Seq<bool>, fail_fast: bool) -> (bool, nat)
    decreases results.len(),
{
    if results.len() == 0 {
        (true, 0)
    } else {
        let prev = run_through(results.drop_last(), fail_fast);
        if !fail_fast || prev.0 {
            (prev.0 && results.last(), prev.1 + 1)
        } else {
            prev
        }
    }
}

/// With fail-fast on, the variants up to and including the first failing
/// one run and nothing after it does; with it off, all of them run.
pub proof fn law_fail_fast_stops_after_first_failure(results: Seq<bool>, first_failure: int)
    requires
        0 <= first_failure < results.len(),
        !results[first_failure],
        forall|k: int| 0 <= k < first_failure ==> results[k],
    ensures
        run_through(results, true) == (false, (first_failure + 1) as nat),
        run_through(results, false).1 == results.len(),
    decreases results.len(),
{
    lemma_all_run(results);
    if first_failure < results.len() - 1 {
        law_fail_fast_stops_after_first_failure(results.drop_last(), first_failure);
    } else {
        lemma_all_pass(results.drop_last());
    }
}

proof fn lemma_all_run(results: Seq<bool>)
    ensures
        run_through(results, false).1 == results.len(),
    decreases results.len(),
{
    if results.len() > 0 {
        lemma_all_run(results.drop_last());
    }
}

proof fn lemma_all_pass(results: Seq<bool>)
    requires
        forall|k: int| 0 <= k < results.len() ==> results[k],
    ensures
        run_through(results, true) == (true, results.len()),
    decreases results.len(),
{
    if results.len() > 0 {
        lemma_all_pass(results.drop_last());
    }
}

} // verus!
