//! Snapshot naming, the compare/write decision of a snapshot assertion, and
//! the scoped settings that shape it.
use vstd::prelude::*;
use vstd::string::*;
use vstd::utf8::*;
use crate::inline::{lemma_paren_or_end_bounds, paren_or_end};
use crate::literal::{dedent, dedented};
use crate::scan::is_space;
use crate::storage::inline_marker;
use crate::text::{empty_text, lemma_ascii_boundaries, lemma_utf8_ascii, push_ascii, push_range, push_text, utf8};

verus! {

broadcast use vstd::utf8::group_utf8_lib;

/// The decimal digits of `n`.
pub open spec fn decimal(n: nat) -> Seq<u8>
    decreases n,
{
    if n < 10 {
        seq![(0x30 + n) as u8]
    } else {
        decimal(n / 10) + seq![(0x30 + n % 10) as u8]
    }
}

/// Appends the decimal digits of `n`.
pub fn push_decimal(out: &mut String, n: u32)
    ensures
        utf8(final(out)@) == utf8(old(out)@) + decimal(n as nat),
    decreases n,
{
    if n >= 10 {
        push_decimal(out, n / 10);
    }
    let d = (n % 10) as u8;
    push_ascii(out, 0x30u8 + d);
    proof {
        assert(utf8(out@) =~= utf8(old(out)@) + decimal(n as nat));
    }
}

/// Where the parameter part `(…)` of a test name starts, or its length.
pub open spec fn params_start(s: Seq<u8>) -> int {
    paren_or_end(s, 0, s.len() as int)
}

/// The snapshot name of the `counter`-th unnamed snapshot of a test: the
/// test name, or with duplicates allowed `base-counter(params)`.
pub open spec fn unnamed_snapshot_name(s: Seq<u8>, counter: nat, allow_duplicates: bool) -> Seq<u8> {
    let p = params_start(s);
    if allow_duplicates {
        s.subrange(0, p) + seq![0x2du8] + decimal(counter) + s.subrange(p, s.len() as int)
    } else {
        s
    }
}

/// The snapshot name for an explicit `name=`: `base--name(params)`.
pub open spec fn named_snapshot_name(s: Seq<u8>, name: Seq<u8>) -> Seq<u8> {
    let p = params_start(s);
    s.subrange(0, p) + seq![0x2du8, 0x2du8] + name + s.subrange(p, s.len() as int)
}

/// The name of the pending snapshot of an inline assertion on line `line`.
pub open spec fn inline_snapshot_name(s: Seq<u8>, line: nat) -> Seq<u8> {
    s + inline_marker() + decimal(line)
}

proof fn lemma_params_start(s: Seq<u8>)
    requires
        valid_utf8(s),
    ensures
        0 <= params_start(s) <= s.len(),
        is_char_boundary(s, params_start(s)),
{
    lemma_paren_or_end_bounds(s, 0, s.len() as int);
    is_char_boundary_start_end_of_seq(s);
    if params_start(s) < s.len() {
        lemma_ascii_boundaries(s, params_start(s));
    }
}

fn find_params_start(b: &[u8]) -> (r: usize)
    ensures
        r == params_start(b@),
{
    let len = b.len();
    let mut j: usize = 0;
    while j < len && b[j] != 0x28u8
        invariant
            j <= len == b@.len(),
            paren_or_end(b@, j as int, len as int) == paren_or_end(b@, 0, len as int),
        decreases len - j,
    {
        j = j + 1;
    }
    j
}

/// The snapshot name of the `counter`-th unnamed snapshot in a test. With
/// `allow_duplicates` every one is numbered, `test-0`, `test-1`, …, with the
/// parameters kept last; otherwise the test name itself.
pub fn compute_snapshot_name(test_name: &str, counter: u32, allow_duplicates: bool) -> (r: String)
    ensures
        utf8(r@) == unnamed_snapshot_name(test_name.spec_bytes(), counter as nat, allow_duplicates),
{
    let b = test_name.as_bytes();
    let len = b.len();
    let p = find_params_start(b);
    proof {
        lemma_params_start(b@);
        is_char_boundary_start_end_of_seq(b@);
    }
    let mut out = empty_text();
    if allow_duplicates {
        push_range(&mut out, test_name, 0, p);
        push_ascii(&mut out, 0x2du8);
        push_decimal(&mut out, counter);
        push_range(&mut out, test_name, p, len);
    } else {
        push_range(&mut out, test_name, 0, len);
        proof {
            assert(b@.subrange(0, len as int) =~= b@);
        }
    }
    proof {
        assert(utf8(out@) =~= unnamed_snapshot_name(b@, counter as nat, allow_duplicates));
    }
    out
}

/// The snapshot name for an explicit name: `test--name`, or
/// `test--name(params)` for a parametrized test.
pub fn compute_named_snapshot(test_name: &str, custom_name: &str) -> (r: String)
    ensures
        utf8(r@) == named_snapshot_name(test_name.spec_bytes(), custom_name.spec_bytes()),
{
    let b = test_name.as_bytes();
    let len = b.len();
    let p = find_params_start(b);
    proof {
        lemma_params_start(b@);
        is_char_boundary_start_end_of_seq(b@);
    }
    let mut out = empty_text();
    push_range(&mut out, test_name, 0, p);
    push_ascii(&mut out, 0x2du8);
    push_ascii(&mut out, 0x2du8);
    push_text(&mut out, custom_name);
    push_range(&mut out, test_name, p, len);
    proof {
        assert(utf8(out@) =~= named_snapshot_name(b@, custom_name.spec_bytes()));
    }
    out
}

/// The name of the pending snapshot written for an inline assertion on line
/// `line`: `test_inline_line`.
pub fn compute_inline_snapshot_name(test_name: &str, line: u32) -> (r: String)
    ensures
        utf8(r@) == inline_snapshot_name(test_name.spec_bytes(), line as nat),
{
    let mut out = empty_text();
    push_text(&mut out, test_name);
    let marker = "_inline_";
    proof {
        reveal_strlit("_inline_");
        lemma_utf8_ascii(marker@);
        assert(marker.spec_bytes() =~= inline_marker());
    }
    push_text(&mut out, marker);
    push_decimal(&mut out, line);
    proof {
        assert(utf8(out@) =~= inline_snapshot_name(test_name.spec_bytes(), line as nat));
    }
    out
}

/// A three-byte UTF-8 encoding of a Unicode white-space character:
/// U+1680, U+2000 to U+200A, U+2028, U+2029, U+202F, U+205F or U+3000.
pub open spec fn is_wide_space(x: u8, y: u8, z: u8) -> bool {
    (x == 0xe1u8 && y == 0x9au8 && z == 0x80u8) || (x == 0xe2u8 && y == 0x80u8 && ((0x80u8
        <= z <= 0x8au8) || z == 0xa8u8 || z == 0xa9u8 || z == 0xafu8)) || (x == 0xe2u8 && y
        == 0x81u8 && z == 0x9fu8) || (x == 0xe3u8 && y == 0x80u8 && z == 0x80u8)
}

/// How many bytes the white-space character that ends `s[..e]` takes, or 0
/// when `s[..e]` does not end in white space. White space is Unicode's:
/// the ASCII ones, U+0085, U+00A0 and the three-byte ones.
pub open spec fn trailing_space_len(s: Seq<u8>, e: int) -> int {
    if e >= 1 && is_space(s[e - 1]) {
        1
    } else if e >= 2 && s[e - 2] == 0xc2u8 && (s[e - 1] == 0x85u8 || s[e - 1] == 0xa0u8) {
        2
    } else if e >= 3 && is_wide_space(s[e - 3], s[e - 2], s[e - 1]) {
        3
    } else {
        0
    }
}

/// Where `s[..e]` ends once trailing white space is dropped.
pub open spec fn trim_end_at(s: Seq<u8>, e: int) -> int
    decreases e,
{
    if e <= 0 || e > s.len() {
        0
    } else if trailing_space_len(s, e) > 0 {
        trim_end_at(s, e - trailing_space_len(s, e))
    } else {
        e
    }
}

/// `s` without trailing white space.
pub open spec fn trim_end(s: Seq<u8>) -> Seq<u8> {
    s.subrange(0, trim_end_at(s, s.len() as int))
}

fn space_len_before(b: &[u8], e: usize) -> (r: usize)
    requires
        e <= b@.len(),
    ensures
        r == trailing_space_len(b@, e as int),
{
    if e >= 1 && crate::scan::is_space_byte(b[e - 1]) {
        1
    } else if e >= 2 && b[e - 2] == 0xc2u8 && (b[e - 1] == 0x85u8 || b[e - 1] == 0xa0u8) {
        2
    } else if e >= 3 && ((b[e - 3] == 0xe1u8 && b[e - 2] == 0x9au8 && b[e - 1] == 0x80u8) || (b[e
        - 3] == 0xe2u8 && b[e - 2] == 0x80u8 && ((0x80u8 <= b[e - 1] && b[e - 1] <= 0x8au8) || b[e
        - 1] == 0xa8u8 || b[e - 1] == 0xa9u8 || b[e - 1] == 0xafu8)) || (b[e - 3] == 0xe2u8 && b[e
        - 2] == 0x81u8 && b[e - 1] == 0x9fu8) || (b[e - 3] == 0xe3u8 && b[e - 2] == 0x80u8 && b[e
        - 1] == 0x80u8)) {
        3
    } else {
        0
    }
}

fn trimmed_len(b: &[u8]) -> (r: usize)
    ensures
        r == trim_end_at(b@, b@.len() as int),
        r <= b@.len(),
{
    let mut e = b.len();
    loop
        invariant
            e <= b@.len(),
            trim_end_at(b@, e as int) == trim_end_at(b@, b@.len() as int),
        decreases e,
    {
        let k = space_len_before(b, e);
        if e == 0 || k == 0 {
            return e;
        }
        e = e - k;
    }
}

/// Whether two texts are equal once trailing whitespace is dropped.
pub fn equal_trimmed(a: &str, b: &str) -> (r: bool)
    ensures
        r == (trim_end(a.spec_bytes()) == trim_end(b.spec_bytes())),
{
    let x = a.as_bytes();
    let y = b.as_bytes();
    let n = trimmed_len(x);
    let m = trimmed_len(y);
    if n != m {
        proof {
            assert(trim_end(x@).len() != trim_end(y@).len());
        }
        return false;
    }
    let mut k: usize = 0;
    while k < n
        invariant
            x@ == a.spec_bytes(),
            y@ == b.spec_bytes(),
            n == m,
            n == trim_end_at(x@, x@.len() as int),
            m == trim_end_at(y@, y@.len() as int),
            n <= x@.len(),
            m <= y@.len(),
            k <= n,
            forall|j: int| 0 <= j < k ==> x@[j] == y@[j],
        decreases n - k,
    {
        if x[k] != y[k] {
            proof {
                assert(trim_end(x@)[k as int] != trim_end(y@)[k as int]);
                assert(trim_end(x@) != trim_end(y@));
            }
            return false;
        }
        k = k + 1;
    }
    proof {
        assert(trim_end(x@) =~= trim_end(y@));
    }
    true
}

/// What a file-based snapshot assertion does.
#[derive(Copy, Clone, Debug, PartialEq, Eq, Structural)]
pub enum FileOutcome {
    /// The stored snapshot matches: pass.
    Matched,
    /// It differs and updates are on: overwrite the `.snap` and pass.
    Updated,
    /// There is none and updates are on: write the `.snap` and pass.
    Created,
    /// It differs: write the `.snap.new` and fail with a diff.
    Mismatched,
    /// There is none: write the `.snap.new` and fail.
    New,
}

impl FileOutcome {
    /// Whether the assertion passes.
    pub fn passes(self) -> (r: bool)
        ensures
            r == (self is Matched || self is Updated || self is Created),
    {
        match self {
            FileOutcome::Matched | FileOutcome::Updated | FileOutcome::Created => true,
            _ => false,
        }
    }
}

/// The outcome of asserting the serialized value `v` against the stored
/// snapshot `existing`: compared without trailing whitespace.
pub open spec fn file_outcome(existing: Option<Seq<u8>>, v: Seq<u8>, update: bool) -> FileOutcome {
    match existing {
        Some(e) => if trim_end(e) == trim_end(v) {
            FileOutcome::Matched
        } else if update {
            FileOutcome::Updated
        } else {
            FileOutcome::Mismatched
        },
        None => if update {
            FileOutcome::Created
        } else {
            FileOutcome::New
        },
    }
}

/// The content of an optional stored snapshot.
pub open spec fn stored(o: Option<&str>) -> Option<Seq<u8>> {
    match o {
        Some(t) => Some(t.spec_bytes()),
        None => None,
    }
}

/// Decides what asserting `serialized` against the stored snapshot content
/// `existing` does, in update mode or not.
pub fn decide_file_snapshot(existing: Option<&str>, serialized: &str, update_mode: bool) -> (r:
    FileOutcome)
    ensures
        r == file_outcome(stored(existing), serialized.spec_bytes(), update_mode),
{
    match existing {
        Some(e) => if equal_trimmed(e, serialized) {
            FileOutcome::Matched
        } else if update_mode {
            FileOutcome::Updated
        } else {
            FileOutcome::Mismatched
        },
        None => if update_mode {
            FileOutcome::Created
        } else {
            FileOutcome::New
        },
    }
}

/// The stored `.snap` and pending `.snap.new` contents after an assertion of
/// `v`.
pub open spec fn after_file_assert(
    snap: Option<Seq<u8>>,
    pending: Option<Seq<u8>>,
    v: Seq<u8>,
    update: bool,
) -> (Option<Seq<u8>>, Option<Seq<u8>>) {
    match file_outcome(snap, v, update) {
        FileOutcome::Matched => (snap, pending),
        FileOutcome::Updated | FileOutcome::Created => (Some(v), pending),
        FileOutcome::Mismatched | FileOutcome::New => (snap, Some(v)),
    }
}

/// The stored contents after accepting: a pending snapshot replaces the
/// committed one.
pub open spec fn after_accept(state: (Option<Seq<u8>>, Option<Seq<u8>>)) -> (
    Option<Seq<u8>>,
    Option<Seq<u8>>,
) {
    match state.1 {
        Some(p) => (Some(p), None),
        None => state,
    }
}

/// Asserting a value, accepting what is pending, then asserting the same
/// value twice more: both later assertions pass and leave the stored
/// snapshots exactly as they were.
pub proof fn law_snapshot_idempotence(
    snap: Option<Seq<u8>>,
    v: Seq<u8>,
    first_update: bool,
    second_update: bool,
    third_update: bool,
)
    ensures
        ({
            let s1 = after_accept(after_file_assert(snap, None, v, first_update));
            let s2 = after_file_assert(s1.0, s1.1, v, second_update);
            let s3 = after_file_assert(s2.0, s2.1, v, third_update);
            &&& file_outcome(s1.0, v, second_update) == FileOutcome::Matched
            &&& file_outcome(s2.0, v, third_update) == FileOutcome::Matched
            &&& s2 == s1
            &&& s3 == s1
        }),
{
}

/// What an inline snapshot assertion does.
#[derive(Copy, Clone, Debug, PartialEq, Eq, Structural)]
pub enum InlineOutcome {
    /// The dedented literal matches: pass.
    Matched,
    /// Updates are on: rewrite the literal in the source and pass.
    Rewrite,
    /// The literal is empty: write a pending snapshot and fail.
    NewPending,
    /// The literal differs: write a pending snapshot and fail with a diff.
    MismatchPending,
}

/// The outcome of an inline assertion of `actual` against the literal's
/// value `inline_value`. An empty literal never matches.
pub open spec fn inline_outcome(actual: Seq<u8>, inline_value: Seq<u8>, update: bool) -> InlineOutcome {
    if inline_value.len() > 0 && trim_end(dedented(inline_value)) == trim_end(actual) {
        InlineOutcome::Matched
    } else if update {
        InlineOutcome::Rewrite
    } else if inline_value.len() == 0 {
        InlineOutcome::NewPending
    } else {
        InlineOutcome::MismatchPending
    }
}

/// Decides what an inline assertion of `actual` against the value of its
/// `inline=` literal does.
pub fn decide_inline_snapshot(actual: &str, inline_value: &str, update_mode: bool) -> (r:
    InlineOutcome)
    ensures
        r == inline_outcome(actual.spec_bytes(), inline_value.spec_bytes(), update_mode),
{
    let expected = dedent(inline_value);
    let empty = inline_value.as_bytes().len() == 0;
    if !empty && equal_trimmed(expected.as_str(), actual) {
        InlineOutcome::Matched
    } else if update_mode {
        InlineOutcome::Rewrite
    } else if empty {
        InlineOutcome::NewPending
    } else {
        InlineOutcome::MismatchPending
    }
}

/// Settings opened by one `snapshot_settings(...)` scope.
pub struct SnapshotSettings {
    /// Regex substitutions `(pattern, replacement)` applied to serialized
    /// values, in order.
    pub filters: Vec<(String, String)>,
    /// Whether several unnamed snapshots may be taken in one test.
    pub allow_duplicates: bool,
}

impl SnapshotSettings {
    /// Settings with the given filters (none when absent).
    pub fn new(filters: Option<Vec<(String, String)>>, allow_duplicates: bool) -> (r: Self)
        ensures
            r.allow_duplicates == allow_duplicates,
            r.filters@ == match filters {
                Some(f) => f@,
                None => Seq::<(String, String)>::empty(),
            },
    {
        let filters = match filters {
            Some(f) => f,
            None => Vec::new(),
        };
        SnapshotSettings { filters, allow_duplicates }
    }
}

/// The filters of a stack of settings scopes, outermost first.
pub open spec fn stacked_filters(frames: Seq<SnapshotSettings>) -> Seq<(String, String)>
    decreases frames.len(),
{
    if frames.len() == 0 {
        seq![]
    } else {
        stacked_filters(frames.drop_last()) + frames.last().filters@
    }
}

/// The settings scopes that are open, outermost first.
pub struct SettingsStack {
    pub frames: Vec<SnapshotSettings>,
}

impl SettingsStack {
    pub fn new() -> (r: Self)
        ensures
            r.frames@.len() == 0,
    {
        SettingsStack { frames: Vec::new() }
    }

    /// Opens a scope.
    pub fn enter(&mut self, settings: SnapshotSettings)
        ensures
            final(self).frames@ == old(self).frames@.push(settings),
    {
        self.frames.push(settings);
    }

    /// Closes the innermost scope, if any.
    pub fn exit(&mut self)
        ensures
            final(self).frames@ == if old(self).frames@.len() == 0 {
                old(self).frames@
            } else {
                old(self).frames@.drop_last()
            },
    {
        if self.frames.len() > 0 {
            self.frames.pop();
        }
    }

    /// Duplicates are allowed when any open scope allows them.
    pub fn allow_duplicates(&self) -> (r: bool)
        ensures
            r == exists|i: int| 0 <= i < self.frames@.len() && #[trigger] self.frames@[i].allow_duplicates,
    {
        let mut k: usize = 0;
        while k < self.frames.len()
            invariant
                k <= self.frames@.len(),
                forall|i: int| 0 <= i < k ==> !#[trigger] self.frames@[i].allow_duplicates,
            decreases self.frames@.len() - k,
        {
            if self.frames[k].allow_duplicates {
                return true;
            }
            k = k + 1;
        }
        false
    }

    /// The filters of every open scope, outermost first.
    pub fn filters(&self) -> (r: Vec<(String, String)>)
        ensures
            r@ == stacked_filters(self.frames@),
    {
        let mut out: Vec<(String, String)> = Vec::new();
        let mut i: usize = 0;
        while i < self.frames.len()
            invariant
                i <= self.frames@.len(),
                out@ == stacked_filters(self.frames@.take(i as int)),
            decreases self.frames@.len() - i,
        {
            let frame = &self.frames[i];
            let ghost before = out@;
            let mut j: usize = 0;
            while j < frame.filters.len()
                invariant
                    j <= frame.filters@.len(),
                    out@ == before + frame.filters@.take(j as int),
                decreases frame.filters@.len() - j,
            {
                let pair = &frame.filters[j];
                out.push((pair.0.clone(), pair.1.clone()));
                proof {
                    assert(frame.filters@.take(j + 1) =~= frame.filters@.take(j as int).push(*pair));
                }
                j = j + 1;
            }
            proof {
                assert(frame.filters@.take(j as int) =~= frame.filters@);
                assert(self.frames@.take(i + 1).drop_last() =~= self.frames@.take(i as int));
            }
            i = i + 1;
        }
        proof {
            assert(self.frames@.take(i as int) =~= self.frames@);
        }
        out
    }
}

/// Why a snapshot assertion is refused before anything is compared.
#[derive(Copy, Clone, Debug, PartialEq, Eq, Structural)]
pub enum SnapshotError {
    /// `inline=` and `name=` were both given.
    InlineAndName,
    /// A second unnamed snapshot in one test, without duplicates allowed.
    MultipleUnnamed,
}

/// Refuses `inline=` together with `name=`.
pub fn check_snapshot_arguments(has_inline: bool, has_name: bool) -> (r: Result<(), SnapshotError>)
    ensures
        r is Err <==> has_inline && has_name,
        r matches Err(e) ==> e == SnapshotError::InlineAndName,
{
    if has_inline && has_name {
        Err(SnapshotError::InlineAndName)
    } else {
        Ok(())
    }
}

/// The test a snapshot assertion runs in, and how many unnamed snapshots it
/// has taken.
pub struct SnapshotContext {
    pub test_file: String,
    pub test_name: String,
    pub counter: u32,
}

impl SnapshotContext {
    /// The context installed before a test runs.
    pub fn new(test_file: String, test_name: String) -> (r: Self)
        ensures
            r.test_file == test_file,
            r.test_name == test_name,
            r.counter == 0,
    {
        SnapshotContext { test_file, test_name, counter: 0 }
    }

    /// Takes the next unnamed snapshot: counts it, and names it, or refuses
    /// a second one when duplicates are not allowed.
    pub fn next_unnamed(&mut self, allow_duplicates: bool) -> (r: Result<String, SnapshotError>)
        requires
            old(self).counter < u32::MAX,
        ensures
            final(self).counter == old(self).counter + 1,
            final(self).test_name == old(self).test_name,
            final(self).test_file == old(self).test_file,
            match r {
                Ok(n) => (old(self).counter == 0 || allow_duplicates) && utf8(n@)
                    == unnamed_snapshot_name(
                    utf8(old(self).test_name@),
                    old(self).counter as nat,
                    allow_duplicates,
                ),
                Err(e) => old(self).counter > 0 && !allow_duplicates && e
                    == SnapshotError::MultipleUnnamed,
            },
    {
        let c = self.counter;
        self.counter = c + 1;
        if c > 0 && !allow_duplicates {
            return Err(SnapshotError::MultipleUnnamed);
        }
        Ok(compute_snapshot_name(self.test_name.as_str(), c, allow_duplicates))
    }
}

/// A snapshot name made safe for file systems: each `::` (from the left, not
/// overlapping) becomes `__`.
pub open spec fn fs_safe(s: Seq<u8>) -> Seq<u8>
    decreases s.len(),
{
    if s.len() == 0 {
        seq![]
    } else if s.len() >= 2 && s[0] == 0x3au8 && s[1] == 0x3au8 {
        seq![0x5fu8, 0x5fu8] + fs_safe(s.subrange(2, s.len() as int))
    } else {
        seq![s[0]] + fs_safe(s.drop_first())
    }
}

/// `.snap`
pub open spec fn snap_extension() -> Seq<u8> {
    seq![0x2eu8, 0x73u8, 0x6eu8, 0x61u8, 0x70u8]
}

/// The file name of a snapshot: `module__name.snap`, with `::` in the name
/// made `__`.
pub open spec fn snapshot_file_name_bytes(module: Seq<u8>, name: Seq<u8>) -> Seq<u8> {
    module + seq![0x5fu8, 0x5fu8] + fs_safe(name) + snap_extension()
}

/// The file name under which a snapshot is stored in the `snapshots`
/// directory beside its test file.
pub fn snapshot_file_name(module_name: &str, snapshot_name: &str) -> (r: String)
    ensures
        utf8(r@) == snapshot_file_name_bytes(module_name.spec_bytes(), snapshot_name.spec_bytes()),
{
    let mut out = empty_text();
    push_text(&mut out, module_name);
    push_ascii(&mut out, 0x5fu8);
    push_ascii(&mut out, 0x5fu8);
    let b = snapshot_name.as_bytes();
    let ghost bs = b@;
    let end = b.len();
    let ghost target = utf8(out@) + fs_safe(bs);
    proof {
        is_char_boundary_start_end_of_seq(bs);
        assert(bs.subrange(0, end as int) =~= bs);
    }
    let mut seg: usize = 0;
    let mut i: usize = 0;
    while i < end
        invariant
            b@ == bs,
            bs == snapshot_name.spec_bytes(),
            valid_utf8(bs),
            seg <= i <= end == bs.len(),
            is_char_boundary(bs, seg as int),
            is_char_boundary(bs, end as int),
            utf8(out@) + bs.subrange(seg as int, i as int) + fs_safe(bs.subrange(i as int, end as int))
                == target,
        decreases end - i,
    {
        let ghost rest = bs.subrange(i as int, end as int);
        if end - i >= 2 && b[i] == 0x3au8 && b[i + 1] == 0x3au8 {
            proof {
                lemma_ascii_boundaries(bs, i as int);
                lemma_ascii_boundaries(bs, i + 1);
                assert(rest.subrange(2, rest.len() as int) =~= bs.subrange(i + 2, end as int));
            }
            push_range(&mut out, snapshot_name, seg, i);
            push_ascii(&mut out, 0x5fu8);
            push_ascii(&mut out, 0x5fu8);
            i = i + 2;
            seg = i;
            proof {
                assert(bs.subrange(seg as int, i as int) =~= Seq::<u8>::empty());
                assert(utf8(out@) + bs.subrange(seg as int, i as int) + fs_safe(
                    bs.subrange(i as int, end as int),
                ) =~= target);
            }
        } else {
            proof {
                assert(rest[0] == bs[i as int]);
                assert(rest.drop_first() =~= bs.subrange(i + 1, end as int));
                assert(bs.subrange(seg as int, i + 1) =~= bs.subrange(seg as int, i as int) + seq![
                    bs[i as int],
                ]);
            }
            i = i + 1;
            proof {
                assert(utf8(out@) + bs.subrange(seg as int, i as int) + fs_safe(
                    bs.subrange(i as int, end as int),
                ) =~= target);
            }
        }
    }
    proof {
        assert(fs_safe(bs.subrange(i as int, end as int)) =~= Seq::<u8>::empty());
    }
    push_range(&mut out, snapshot_name, seg, end);
    let ext = ".snap";
    proof {
        reveal_strlit(".snap");
        lemma_utf8_ascii(ext@);
        assert(ext.spec_bytes() =~= snap_extension());
    }
    push_text(&mut out, ext);
    proof {
        assert(utf8(out@) =~= snapshot_file_name_bytes(
            module_name.spec_bytes(),
            snapshot_name.spec_bytes(),
        ));
    }
    out
}

} // verus!
