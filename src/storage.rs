//! Pure parts of snapshot storage: reading a snapshot's `source` metadata,
//! recovering the test function a snapshot name belongs to, and matching
//! snapshot paths against filters.
use vstd::prelude::*;
use vstd::string::*;
use vstd::utf8::*;
use crate::scan::{occurs_at, occurs_at_pos, widen};
use crate::text::{lemma_ascii_boundaries, slice};

verus! {

broadcast use vstd::utf8::group_utf8_lib;

/// The first position in `[i, end)` where `p` occurs and ends by `end`.
pub open spec fn find_from(s: Seq<u8>, i: int, end: int, p: Seq<u8>) -> Option<int>
    decreases end + 1 - i,
{
    if i < 0 || i + p.len() > end {
        None
    } else if occurs_at(s, i, p) {
        Some(i)
    } else {
        find_from(s, i + 1, end, p)
    }
}

/// The last position `i >= start` where `p` occurs and ends by `end`.
pub open spec fn rfind_to(s: Seq<u8>, start: int, end: int, p: Seq<u8>) -> Option<int>
    decreases end + 1 - start,
{
    if end - p.len() < start {
        None
    } else if occurs_at(s, end - p.len(), p) {
        Some(end - p.len())
    } else {
        rfind_to(s, start, end - 1, p)
    }
}

pub open spec fn is_digit(b: u8) -> bool {
    0x30u8 <= b <= 0x39u8
}

/// All bytes in `[i, end)` are ASCII digits.
pub open spec fn all_digits(s: Seq<u8>, i: int, end: int) -> bool {
    forall|k: int| i <= k < end ==> is_digit(#[trigger] s[k])
}

/// Where the run of digits that ends at `end` starts, looking no further
/// back than `start`.
pub open spec fn digits_start(s: Seq<u8>, start: int, end: int) -> int
    decreases end + 1 - start,
{
    if end <= start || !is_digit(s[end - 1]) {
        end
    } else {
        digits_start(s, start, end - 1)
    }
}

pub open spec fn colons() -> Seq<u8> {
    seq![0x3au8, 0x3au8]
}

pub open spec fn colon() -> Seq<u8> {
    seq![0x3au8]
}

pub open spec fn dashes() -> Seq<u8> {
    seq![0x2du8, 0x2du8]
}

pub open spec fn dash() -> Seq<u8> {
    seq![0x2du8]
}

pub open spec fn open_paren() -> Seq<u8> {
    seq![0x28u8]
}

/// `_inline_`
pub open spec fn inline_marker() -> Seq<u8> {
    seq![0x5fu8, 0x69u8, 0x6eu8, 0x6cu8, 0x69u8, 0x6eu8, 0x65u8, 0x5fu8]
}

/// The file and snapshot-name ranges of a `source` value such as
/// `test.py:5::test_foo`: split at the first `::`, drop a `:line` suffix from
/// the file part; both parts must be non-empty.
pub open spec fn parsed_source(s: Seq<u8>) -> Option<((int, int), (int, int))> {
    match find_from(s, 0, s.len() as int, colons()) {
        None => None,
        Some(p) => {
            let file_end = match rfind_to(s, 0, p, colon()) {
                Some(q) => q,
                None => p,
            };
            if file_end == 0 || p + 2 == s.len() {
                None
            } else {
                Some(((0, file_end), (p + 2, s.len() as int)))
            }
        },
    }
}

/// The range of the base function name within the snapshot name `[x, y)`:
/// after the last `::`; before the first `--`; before the first `(`; without
/// a `-` and digits at the end; and without an `_inline_` and digits at the
/// end.
pub open spec fn base_name_range(s: Seq<u8>, x: int, y: int) -> (int, int) {
    let x1 = match rfind_to(s, x, y, colons()) {
        Some(q) => q + 2,
        None => x,
    };
    let y2 = match find_from(s, x1, y, dashes()) {
        Some(q) => q,
        None => y,
    };
    let y3 = match find_from(s, x1, y2, open_paren()) {
        Some(q) => q,
        None => y2,
    };
    let y4 = match rfind_to(s, x1, y3, dash()) {
        Some(q) => if all_digits(s, q + 1, y3) {
            q
        } else {
            y3
        },
        None => y3,
    };
    let d = digits_start(s, x1, y4);
    if d < y4 && d - 8 >= x1 && occurs_at(s, d - 8, inline_marker()) {
        (x1, d - 8)
    } else {
        (x1, y4)
    }
}

proof fn lemma_find_from(s: Seq<u8>, i: int, end: int, p: Seq<u8>)
    requires
        p.len() > 0,
    ensures
        find_from(s, i, end, p) matches Some(q) ==> 0 <= i <= q && q + p.len() <= end
            && occurs_at(s, q, p),
    decreases end + 1 - i,
{
    if i >= 0 && i + p.len() <= end && !occurs_at(s, i, p) {
        lemma_find_from(s, i + 1, end, p);
    }
}

proof fn lemma_rfind_to(s: Seq<u8>, start: int, end: int, p: Seq<u8>)
    requires
        p.len() > 0,
    ensures
        rfind_to(s, start, end, p) matches Some(q) ==> start <= q && q + p.len() <= end
            && occurs_at(s, q, p),
    decreases end + 1 - start,
{
    if end - p.len() >= start && !occurs_at(s, end - p.len(), p) {
        lemma_rfind_to(s, start, end - 1, p);
    }
}

proof fn lemma_digits_start(s: Seq<u8>, start: int, end: int)
    requires
        start <= end,
    ensures
        start <= digits_start(s, start, end) <= end,
        all_digits(s, digits_start(s, start, end), end),
    decreases end + 1 - start,
{
    if end > start && is_digit(s[end - 1]) {
        lemma_digits_start(s, start, end - 1);
    }
}

fn find_from_exec(b: &[u8], i: usize, end: usize, p: &[u8]) -> (r: Option<usize>)
    requires
        end <= b@.len(),
        i <= end,
        p@.len() > 0,
    ensures
        widen(r) == find_from(b@, i as int, end as int, p@),
{
    let mut j = i;
    while j <= end && end - j >= p.len()
        invariant
            i <= j,
            end <= b@.len(),
            p@.len() > 0,
            find_from(b@, j as int, end as int, p@) == find_from(b@, i as int, end as int, p@),
        decreases end + 1 - j,
    {
        if occurs_at_pos(b, j, p) {
            return Some(j);
        }
        j = j + 1;
    }
    None
}

fn rfind_to_exec(b: &[u8], start: usize, end: usize, p: &[u8]) -> (r: Option<usize>)
    requires
        start <= end <= b@.len(),
        p@.len() > 0,
    ensures
        widen(r) == rfind_to(b@, start as int, end as int, p@),
{
    let mut e = end;
    while e >= p.len() && e - p.len() >= start
        invariant
            start <= e <= end <= b@.len(),
            p@.len() > 0,
            rfind_to(b@, start as int, e as int, p@) == rfind_to(
                b@,
                start as int,
                end as int,
                p@,
            ),
        decreases e,
    {
        if occurs_at_pos(b, e - p.len(), p) {
            return Some(e - p.len());
        }
        e = e - 1;
    }
    None
}

fn all_digits_exec(b: &[u8], i: usize, end: usize) -> (r: bool)
    requires
        i <= end <= b@.len(),
    ensures
        r == all_digits(b@, i as int, end as int),
{
    let mut k = i;
    while k < end
        invariant
            i <= k <= end <= b@.len(),
            all_digits(b@, i as int, k as int),
        decreases end - k,
    {
        if !(0x30u8 <= b[k] && b[k] <= 0x39u8) {
            return false;
        }
        k = k + 1;
    }
    true
}

fn digits_start_exec(b: &[u8], start: usize, end: usize) -> (r: usize)
    requires
        start <= end <= b@.len(),
    ensures
        r == digits_start(b@, start as int, end as int),
{
    let mut e = end;
    while e > start && 0x30u8 <= b[e - 1] && b[e - 1] <= 0x39u8
        invariant
            start <= e <= end <= b@.len(),
            digits_start(b@, start as int, e as int) == digits_start(
                b@,
                start as int,
                end as int,
            ),
        decreases e,
    {
        e = e - 1;
    }
    e
}

/// Splits a snapshot's `source` metadata into `(file_name, snapshot_name)`.
///
/// Handles `test.py:5::test_name` and `test.py::test_name`; `None` when there
/// is no `::` or either part is empty.
pub fn parse_source(source: &str) -> (r: Option<(&str, &str)>)
    ensures
        match r {
            Some((f, n)) => parsed_source(source.spec_bytes()) matches Some((fr, nr))
                && f.spec_bytes() == source.spec_bytes().subrange(fr.0, fr.1)
                && n.spec_bytes() == source.spec_bytes().subrange(nr.0, nr.1),
            None => parsed_source(source.spec_bytes()) is None,
        },
{
    let b = source.as_bytes();
    let len = b.len();
    let cc = vec![0x3au8, 0x3au8];
    let c = vec![0x3au8];
    assert(cc@ =~= colons());
    assert(c@ =~= colon());
    proof {
        lemma_find_from(b@, 0, len as int, colons());
        is_char_boundary_start_end_of_seq(b@);
    }
    match find_from_exec(b, 0, len, cc.as_slice()) {
        None => None,
        Some(p) => {
            proof {
                lemma_rfind_to(b@, 0, p as int, colon());
            }
            let file_end = match rfind_to_exec(b, 0, p, c.as_slice()) {
                Some(q) => q,
                None => p,
            };
            if file_end == 0 || p + 2 == len {
                None
            } else {
                proof {
                    assert(b@[file_end as int] == 0x3au8);
                    lemma_ascii_boundaries(b@, file_end as int);
                    assert(b@[p + 1] == 0x3au8);
                    lemma_ascii_boundaries(b@, p + 1);
                }
                Some((slice(source, 0, file_end), slice(source, p + 2, len)))
            }
        },
    }
}

/// Strips the suffixes a snapshot name carries to get the name of the test
/// function it came from: a class prefix `TestClass::`, a `--name` part,
/// parameters `(x=1)`, a number `-2`, and an inline marker `_inline_5`.
#[verifier::rlimit(60)]
pub fn base_function_name(name: &str) -> (r: &str)
    ensures
        r.spec_bytes() == name.spec_bytes().subrange(
            base_name_range(name.spec_bytes(), 0, name.spec_bytes().len() as int).0,
            base_name_range(name.spec_bytes(), 0, name.spec_bytes().len() as int).1,
        ),
{
    let b = name.as_bytes();
    let ghost bs = b@;
    let y = b.len();
    let cc = vec![0x3au8, 0x3au8];
    let dd = vec![0x2du8, 0x2du8];
    let pa = vec![0x28u8];
    let d1 = vec![0x2du8];
    let mk = vec![0x5fu8, 0x69u8, 0x6eu8, 0x6cu8, 0x69u8, 0x6eu8, 0x65u8, 0x5fu8];
    assert(cc@ =~= colons());
    assert(dd@ =~= dashes());
    assert(pa@ =~= open_paren());
    assert(d1@ =~= dash());
    assert(mk@ =~= inline_marker());
    proof {
        is_char_boundary_start_end_of_seq(bs);
        lemma_rfind_to(bs, 0, y as int, colons());
    }
    let x1 = match rfind_to_exec(b, 0, y, cc.as_slice()) {
        Some(q) => {
            proof {
                assert(bs[q + 1] == 0x3au8);
                lemma_ascii_boundaries(bs, q + 1);
            }
            q + 2
        },
        None => 0,
    };
    proof {
        lemma_find_from(bs, x1 as int, y as int, dashes());
    }
    let y2 = match find_from_exec(b, x1, y, dd.as_slice()) {
        Some(q) => {
            proof {
                assert(bs[q as int] == 0x2du8);
                lemma_ascii_boundaries(bs, q as int);
            }
            q
        },
        None => y,
    };
    proof {
        lemma_find_from(bs, x1 as int, y2 as int, open_paren());
    }
    let y3 = match find_from_exec(b, x1, y2, pa.as_slice()) {
        Some(q) => {
            proof {
                assert(bs[q as int] == 0x28u8);
                lemma_ascii_boundaries(bs, q as int);
            }
            q
        },
        None => y2,
    };
    proof {
        lemma_rfind_to(bs, x1 as int, y3 as int, dash());
    }
    let y4 = match rfind_to_exec(b, x1, y3, d1.as_slice()) {
        Some(q) => if all_digits_exec(b, q + 1, y3) {
            proof {
                assert(bs[q as int] == 0x2du8);
                lemma_ascii_boundaries(bs, q as int);
            }
            q
        } else {
            y3
        },
        None => y3,
    };
    let d = digits_start_exec(b, x1, y4);
    proof {
        lemma_digits_start(bs, x1 as int, y4 as int);
    }
    if d < y4 && d >= 8 && d - 8 >= x1 && occurs_at_pos(b, d - 8, mk.as_slice()) {
        proof {
            assert(bs[d - 8] == inline_marker()[0]);
            lemma_ascii_boundaries(bs, d - 8);
        }
        slice(name, x1, d - 8)
    } else {
        slice(name, x1, y4)
    }
}

/// Why a snapshot is considered unreferenced.
#[derive(Debug, Clone, PartialEq, Eq)]
pub enum UnreferencedReason {
    /// Its `source` metadata is missing or unreadable.
    NoSource,
    /// The test file it names does not exist.
    TestFileNotFound(String),
    /// The file exists but defines no such function.
    FunctionNotFound { file: String, function: String },
}

impl UnreferencedReason {
    /// The reason as a line of text.
    pub fn describe(&self) -> (r: String)
        ensures
            r@ == match self {
                UnreferencedReason::NoSource => "no source metadata"@,
                UnreferencedReason::TestFileNotFound(file) => "test file not found: "@ + file@,
                UnreferencedReason::FunctionNotFound { file, function } => "function `"@
                    + function@ + "` not found in "@ + file@,
            },
    {
        match self {
            UnreferencedReason::NoSource => String::from_str("no source metadata"),
            UnreferencedReason::TestFileNotFound(file) => {
                let mut r = String::from_str("test file not found: ");
                r.append(file.as_str());
                r
            },
            UnreferencedReason::FunctionNotFound { file, function } => {
                let mut r = String::from_str("function `");
                r.append(function.as_str());
                r.append("` not found in ");
                r.append(file.as_str());
                r
            },
        }
    }
}

/// The text `def name(` whose presence marks a function definition.
pub open spec fn def_pattern(name: Seq<u8>) -> Seq<u8> {
    seq![0x64u8, 0x65u8, 0x66u8, 0x20u8] + name + seq![0x28u8]
}

/// Whether the source text `content` holds `def name(` anywhere; a purely
/// textual check.
pub fn defines_function(content: &str, name: &str) -> (r: bool)
    ensures
        r == exists|i: int| occurs_at(content.spec_bytes(), i, def_pattern(name.spec_bytes())),
{
    let b = content.as_bytes();
    let nb = name.as_bytes();
    let mut pat: Vec<u8> = vec![0x64u8, 0x65u8, 0x66u8, 0x20u8];
    let mut k: usize = 0;
    while k < nb.len()
        invariant
            k <= nb@.len(),
            pat@ == seq![0x64u8, 0x65u8, 0x66u8, 0x20u8] + nb@.take(k as int),
        decreases nb@.len() - k,
    {
        pat.push(nb[k]);
        proof {
            assert(nb@.take(k + 1) =~= nb@.take(k as int).push(nb@[k as int]));
        }
        k = k + 1;
    }
    pat.push(0x28u8);
    proof {
        assert(nb@.take(k as int) =~= nb@);
        assert(pat@ =~= def_pattern(nb@));
    }
    let len = b.len();
    let mut i: usize = 0;
    while i < len
        invariant
            len == b@.len(),
            b@ == content.spec_bytes(),
            nb@ == name.spec_bytes(),
            pat@ == def_pattern(nb@),
            i <= len,
            forall|j: int| 0 <= j < i ==> !occurs_at(b@, j, pat@),
        decreases len - i,
    {
        if occurs_at_pos(b, i, pat.as_slice()) {
            proof {
                assert(occurs_at(content.spec_bytes(), i as int, def_pattern(name.spec_bytes())));
            }
            return true;
        }
        i = i + 1;
    }
    proof {
        assert forall|j: int| !occurs_at(b@, j, pat@) by {
            if j >= len {
                assert(pat@.len() > 0);
            }
        }
    }
    false
}

/// The range of the test function a `source` value names: the part after
/// its last `::`, up to the first `(`.
pub open spec fn source_function_range(s: Seq<u8>) -> (int, int) {
    let x = match rfind_to(s, 0, s.len() as int, colons()) {
        Some(q) => q + 2,
        None => 0,
    };
    let y = match find_from(s, x, s.len() as int, open_paren()) {
        Some(q) => q,
        None => s.len() as int,
    };
    (x, y)
}

/// The test function a snapshot's `source` value names, such as `test_foo`
/// for `test.py:5::test_foo(x=1)`; it tells an inline rewrite which function
/// the call must be in.
pub fn source_function_name(source: &str) -> (r: &str)
    ensures
        r.spec_bytes() == source.spec_bytes().subrange(
            source_function_range(source.spec_bytes()).0,
            source_function_range(source.spec_bytes()).1,
        ),
{
    let b = source.as_bytes();
    let ghost bs = b@;
    let len = b.len();
    let cc = vec![0x3au8, 0x3au8];
    let pa = vec![0x28u8];
    assert(cc@ =~= colons());
    assert(pa@ =~= open_paren());
    proof {
        is_char_boundary_start_end_of_seq(bs);
        lemma_rfind_to(bs, 0, len as int, colons());
    }
    let x = match rfind_to_exec(b, 0, len, cc.as_slice()) {
        Some(q) => {
            proof {
                assert(bs[q + 1] == 0x3au8);
                lemma_ascii_boundaries(bs, q + 1);
            }
            q + 2
        },
        None => 0,
    };
    proof {
        lemma_find_from(bs, x as int, len as int, open_paren());
    }
    let y = match find_from_exec(b, x, len, pa.as_slice()) {
        Some(q) => {
            proof {
                assert(bs[q as int] == 0x28u8);
                lemma_ascii_boundaries(bs, q as int);
            }
            q
        },
        None => len,
    };
    slice(source, x, y)
}

} // verus!
