//! The command surface as plain data: exit statuses, verbosity, output
//! format and the snapshot subcommands, with the decisions made from them.
use vstd::prelude::*;
use vstd::string::*;
use crate::text::utf8;

verus! {

/// How a run of the tool ended, as reported to the operating system.
#[derive(Copy, Clone, Debug, PartialEq, Eq, Structural)]
pub enum ExitStatus {
    /// Everything ran and nothing failed.
    Success,
    /// Everything ran, but something failed.
    Failure,
    /// The run could not be carried out.
    Error,
}

impl ExitStatus {
    /// The process exit code: 0, 1 or 2.
    pub fn to_i32(self) -> (r: i32)
        ensures
            r == match self {
                ExitStatus::Success => 0i32,
                ExitStatus::Failure => 1i32,
                ExitStatus::Error => 2i32,
            },
    {
        match self {
            ExitStatus::Success => 0,
            ExitStatus::Failure => 1,
            ExitStatus::Error => 2,
        }
    }
}

/// The status of a test run: success only when no test failed and discovery
/// reported nothing.
pub fn test_run_status(tests_succeeded: bool, discovery_clean: bool) -> (r: ExitStatus)
    ensures
        r == if tests_succeeded && discovery_clean {
            ExitStatus::Success
        } else {
            ExitStatus::Failure
        },
{
    if tests_succeeded && discovery_clean {
        ExitStatus::Success
    } else {
        ExitStatus::Failure
    }
}

/// How much the tool prints.
#[derive(Copy, Clone, Debug, PartialEq, Eq, Structural)]
pub enum VerbosityLevel {
    Quiet,
    Default,
    Verbose,
    ExtraVerbose,
    Trace,
}

/// The counts of `-v` and `-q` flags.
#[derive(Copy, Clone, Debug, PartialEq, Eq, Structural, Default)]
pub struct Verbosity {
    pub verbose: u8,
    pub quiet: u8,
}

impl Verbosity {
    /// Any `-q` makes the output quiet; otherwise one, two or more `-v`
    /// raise it step by step.
    pub fn level(&self) -> (r: VerbosityLevel)
        ensures
            r == if self.quiet > 0 {
                VerbosityLevel::Quiet
            } else if self.verbose == 0 {
                VerbosityLevel::Default
            } else if self.verbose == 1 {
                VerbosityLevel::Verbose
            } else if self.verbose == 2 {
                VerbosityLevel::ExtraVerbose
            } else {
                VerbosityLevel::Trace
            },
    {
        if self.quiet > 0 {
            return VerbosityLevel::Quiet;
        }
        match self.verbose {
            0 => VerbosityLevel::Default,
            1 => VerbosityLevel::Verbose,
            2 => VerbosityLevel::ExtraVerbose,
            _ => VerbosityLevel::Trace,
        }
    }
}

/// The diagnostic output format.
#[derive(Copy, Clone, Debug, PartialEq, Eq, Structural)]
pub enum OutputFormat {
    /// Diagnostics with context and hints.
    Full,
    /// One diagnostic per line.
    Concise,
}

/// Optional paths that select snapshots.
pub struct SnapshotFilterArgs {
    pub paths: Vec<String>,
}

/// Paths for `prune`, and whether only to show what would go.
pub struct SnapshotPruneArgs {
    pub paths: Vec<String>,
    pub dry_run: bool,
}

/// Paths for `delete`, and whether only to show what would go.
pub struct SnapshotDeleteArgs {
    pub paths: Vec<String>,
    pub dry_run: bool,
}

/// The snapshot subcommands.
pub enum SnapshotAction {
    Accept(SnapshotFilterArgs),
    Reject(SnapshotFilterArgs),
    Pending(SnapshotFilterArgs),
    Review(SnapshotFilterArgs),
    Prune(SnapshotPruneArgs),
    Delete(SnapshotDeleteArgs),
}

/// `snapshot <action>`.
pub struct SnapshotCommand {
    pub action: SnapshotAction,
}

/// The bytes of `p` begin `s`.
pub open spec fn is_prefix(p: Seq<u8>, s: Seq<u8>) -> bool {
    p.len() <= s.len() && s.subrange(0, p.len() as int) == p
}

fn starts_with_bytes(s: &[u8], p: &[u8]) -> (r: bool)
    ensures
        r == is_prefix(p@, s@),
{
    if p.len() > s.len() {
        return false;
    }
    let mut k: usize = 0;
    while k < p.len()
        invariant
            p@.len() <= s@.len(),
            k <= p@.len(),
            forall|j: int| 0 <= j < k ==> s@[j] == p@[j],
        decreases p@.len() - k,
    {
        if s[k] != p[k] {
            proof {
                assert(s@.subrange(0, p@.len() as int)[k as int] != p@[k as int]);
            }
            return false;
        }
        k = k + 1;
    }
    proof {
        assert(s@.subrange(0, p@.len() as int) =~= p@);
    }
    true
}

/// Whether a snapshot path is selected: with no filters every path is,
/// otherwise one whose text begins with one of the (absolute) filter paths.
pub fn matches_filter(snapshot_path: &str, filters: &Vec<String>) -> (r: bool)
    ensures
        r == (filters@.len() == 0 || exists|i: int|
            0 <= i < filters@.len() && is_prefix(
                utf8((#[trigger] filters@[i])@),
                snapshot_path.spec_bytes(),
            )),
{
    if filters.len() == 0 {
        return true;
    }
    let s = snapshot_path.as_bytes();
    let mut i: usize = 0;
    while i < filters.len()
        invariant
            s@ == snapshot_path.spec_bytes(),
            i <= filters@.len(),
            forall|j: int|
                0 <= j < i ==> !is_prefix(
                    utf8((#[trigger] filters@[j])@),
                    snapshot_path.spec_bytes(),
                ),
        decreases filters@.len() - i,
    {
        let f = filters[i].as_str();
        if starts_with_bytes(s, f.as_bytes()) {
            return true;
        }
        i = i + 1;
    }
    false
}

/// Why a `test` invocation is refused before anything runs.
#[derive(Copy, Clone, Debug, PartialEq, Eq, Structural)]
pub enum TestModeError {
    /// `--watch` and `--dry-run` were both given.
    WatchWithDryRun,
}

/// Refuses watch mode together with a dry run.
pub fn check_test_mode(watch: bool, dry_run: bool) -> (r: Result<(), TestModeError>)
    ensures
        r is Err <==> watch && dry_run,
        r matches Err(e) ==> e == TestModeError::WatchWithDryRun,
{
    if watch && dry_run {
        Err(TestModeError::WatchWithDryRun)
    } else {
        Ok(())
    }
}

/// How many workers run: one with `--no-parallel`, otherwise the number
/// asked for, or else the available parallelism.
pub fn worker_count(no_parallel: bool, requested: Option<usize>, available: usize) -> (r: usize)
    ensures
        r == if no_parallel {
            1
        } else {
            match requested {
                Some(n) => n,
                None => available,
            }
        },
{
    if no_parallel {
        1
    } else {
        match requested {
            Some(n) => n,
            None => available,
        }
    }
}

/// A path whose final component ends in `.py` after at least one other
/// character: a guest-language source file.
pub open spec fn is_python_path(p: Seq<u8>) -> bool {
    let n = p.len();
    n >= 4 && p[n - 3] == 0x2eu8 && p[n - 2] == 0x70u8 && p[n - 1] == 0x79u8 && p[n - 4]
        != 0x2fu8
}

/// Whether a changed path is a guest-language source file.
pub fn is_python_source(path: &str) -> (r: bool)
    ensures
        r == is_python_path(path.spec_bytes()),
{
    let b = path.as_bytes();
    let n = b.len();
    n >= 4 && b[n - 3] == 0x2eu8 && b[n - 2] == 0x70u8 && b[n - 1] == 0x79u8 && b[n - 4]
        != 0x2fu8
}

/// The source files among the first `k` changed paths, each once, in the
/// order they first appear.
pub open spec fn python_changes_of(paths: Seq<Seq<char>>, k: int) -> Seq<Seq<char>>
    decreases k,
{
    if k <= 0 {
        seq![]
    } else {
        let before = python_changes_of(paths, k - 1);
        let p = paths[k - 1];
        if is_python_path(utf8(p)) && !before.contains(p) {
            before.push(p)
        } else {
            before
        }
    }
}

pub open spec fn texts(v: Seq<String>) -> Seq<Seq<char>> {
    v.map_values(|t: String| t@)
}

/// The changed paths a watcher batch reports that call for a new run: the
/// source files, each once.
pub fn python_changes(paths: &Vec<String>) -> (r: Vec<String>)
    ensures
        texts(r@) == python_changes_of(texts(paths@), paths@.len() as int),
{
    let ghost pv = texts(paths@);
    let mut out: Vec<String> = Vec::new();
    let mut i: usize = 0;
    while i < paths.len()
        invariant
            i <= paths@.len(),
            pv == texts(paths@),
            texts(out@) == python_changes_of(pv, i as int),
        decreases paths@.len() - i,
    {
        let p = &paths[i];
        assert(pv[i as int] == p@);
        if is_python_source(p.as_str()) {
            let mut seen = false;
            let mut j: usize = 0;
            while j < out.len()
                invariant
                    j <= out@.len(),
                    seen == exists|k: int| 0 <= k < j && (#[trigger] texts(out@)[k]) == p@,
                decreases out@.len() - j,
            {
                if out[j] == *p {
                    seen = true;
                }
                assert(texts(out@)[j as int] == out@[j as int]@);
                j = j + 1;
            }
            proof {
                if texts(out@).contains(p@) {
                    let k = choose|k: int| 0 <= k < texts(out@).len() && texts(out@)[k] == p@;
                    assert(texts(out@)[k] == p@);
                }
            }
            if !seen {
                let ghost before = out@;
                out.push(p.clone());
                proof {
                    assert(texts(out@) =~= texts(before).push(p@));
                }
            }
        }
        i = i + 1;
    }
    out
}

} // verus!
