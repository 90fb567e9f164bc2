//! Where snapshot files live: a `snapshots` directory beside the test file.
//! Path arithmetic is camino's; the paths are handled here as text.
use vstd::prelude::*;
use vstd::string::*;
use vstd::utf8::*;
use crate::snapshot::{decimal, push_decimal, snapshot_file_name, snapshot_file_name_bytes};
use crate::text::{empty_text, push_ascii, push_text, utf8};

verus! {

broadcast use vstd::utf8::group_utf8_lib;

/// The parent of a path as camino's `Utf8Path::parent` gives it.
pub uninterp spec fn path_parent(p: Seq<char>) -> Option<Seq<char>>;

/// A path adjoined to another as camino's `Utf8Path::join` gives it.
pub uninterp spec fn path_join(base: Seq<char>, rel: Seq<char>) -> Seq<char>;

/// Relies on `camino::Utf8Path::parent`: the path without its final
/// component, or `None` when it ends in a root or prefix (or is empty).
#[verifier::external_body]
fn parent_of(path: &str) -> (r: Option<String>)
    ensures
        match r {
            Some(q) => path_parent(path@) == Some(q@),
            None => path_parent(path@) is None,
        },
{
    camino::Utf8Path::new(path).parent().map(|p| p.as_str().to_string())
}

/// Relies on `camino::Utf8Path::join`: `rel` adjoined to `base`.
#[verifier::external_body]
fn join_paths(base: &str, rel: &str) -> (r: String)
    ensures
        r@ == path_join(base@, rel@),
{
    camino::Utf8Path::new(base).join(rel).into_string()
}

/// The snapshots directory of a test file: `snapshots` in the test file's
/// directory, or `snapshots` itself when the path has no parent.
pub open spec fn snapshot_dir_of(test_file: Seq<char>) -> Seq<char> {
    match path_parent(test_file) {
        Some(p) => path_join(p, "snapshots"@),
        None => "snapshots"@,
    }
}

/// The snapshots directory for a test file: for `tests/test_example.py`,
/// `tests/snapshots`.
pub fn snapshot_dir(test_file: &str) -> (r: String)
    ensures
        r@ == snapshot_dir_of(test_file@),
{
    match parent_of(test_file) {
        Some(p) => join_paths(p.as_str(), "snapshots"),
        None => String::from_str("snapshots"),
    }
}

/// The path of a snapshot file: `{test_dir}/snapshots/{module}__{name}.snap`.
pub fn snapshot_path(test_file: &str, module_name: &str, snapshot_name: &str) -> (r: String)
    ensures
        r@ == path_join(
            snapshot_dir_of(test_file@),
            module_name@ + "__"@ + snapshot_name@ + ".snap"@,
        ),
{
    let dir = snapshot_dir(test_file);
    let mut file = String::from_str(module_name);
    file.append("__");
    file.append(snapshot_name);
    file.append(".snap");
    join_paths(dir.as_str(), file.as_str())
}

/// The path of the pending snapshot beside a snapshot: `{snap_path}.new`.
pub fn pending_path(snap_path: &str) -> (r: String)
    ensures
        r@ == snap_path@ + ".new"@,
{
    let mut r = String::from_str(snap_path);
    r.append(".new");
    r
}

/// The stem of a path's file name as camino's `Utf8Path::file_stem` gives
/// it.
pub uninterp spec fn path_file_stem(p: Seq<char>) -> Option<Seq<char>>;

/// A path's file name as camino's `Utf8Path::file_name` gives it.
pub uninterp spec fn path_file_name(p: Seq<char>) -> Option<Seq<char>>;

/// Relies on `camino::Utf8Path::file_stem`: the file name without its
/// extension, or `None` when the path has no file name.
#[verifier::external_body]
fn stem_of(path: &str) -> (r: Option<String>)
    ensures
        match r {
            Some(q) => path_file_stem(path@) == Some(q@),
            None => path_file_stem(path@) is None,
        },
{
    camino::Utf8Path::new(path).file_stem().map(|p| p.to_string())
}

/// Relies on `camino::Utf8Path::file_name`: the final component, or `None`
/// when the path ends in `..` (or has no component).
#[verifier::external_body]
fn file_name_of(path: &str) -> (r: Option<String>)
    ensures
        match r {
            Some(q) => path_file_name(path@) == Some(q@),
            None => path_file_name(path@) is None,
        },
{
    camino::Utf8Path::new(path).file_name().map(|p| p.to_string())
}

/// The module a test file stands for: its file stem, or `unknown`.
pub open spec fn module_of(test_file: Seq<char>) -> Seq<char> {
    match path_file_stem(test_file) {
        Some(s) => s,
        None => "unknown"@,
    }
}

/// The module name of a test file, as snapshot file names use it.
pub fn module_name(test_file: &str) -> (r: String)
    ensures
        r@ == module_of(test_file@),
{
    match stem_of(test_file) {
        Some(s) => s,
        None => String::from_str("unknown"),
    }
}

/// Where the snapshot `snapshot_name` of a test in `test_file` is stored:
/// `module__name.snap` (with `::` in the name made `__`) in the snapshots
/// directory of the test file.
pub fn snapshot_file_path(test_file: &str, snapshot_name: &str) -> (r: String)
    ensures
        r@ == path_join(
            snapshot_dir_of(test_file@),
            decode_utf8(snapshot_file_name_bytes(utf8(module_of(test_file@)), utf8(snapshot_name@))),
        ),
{
    let module = module_name(test_file);
    let file = snapshot_file_name(module.as_str(), snapshot_name);
    proof {
        encode_utf8_decode_utf8(file@);
    }
    let dir = snapshot_dir(test_file);
    join_paths(dir.as_str(), file.as_str())
}

/// The test file as a snapshot's `source` names it: its file name, or the
/// whole path when it has none.
pub open spec fn relative_test_file(test_file: Seq<char>) -> Seq<char> {
    match path_file_name(test_file) {
        Some(n) => n,
        None => test_file,
    }
}

/// The `source` metadata of a snapshot: `file:line::test`, or `file::test`
/// when the line is unknown.
pub open spec fn source_text(test_file: Seq<char>, line: Option<u32>, test_name: Seq<char>) -> Seq<u8> {
    utf8(relative_test_file(test_file)) + (match line {
        Some(n) => seq![0x3au8] + decimal(n as nat),
        None => seq![],
    }) + seq![0x3au8, 0x3au8] + utf8(test_name)
}

/// The `source` metadata written into a snapshot taken by `test_name` in
/// `test_file` on line `line`.
pub fn source_metadata(test_file: &str, line: Option<u32>, test_name: &str) -> (r: String)
    ensures
        utf8(r@) == source_text(test_file@, line, test_name@),
{
    let mut out = empty_text();
    match file_name_of(test_file) {
        Some(n) => push_text(&mut out, n.as_str()),
        None => push_text(&mut out, test_file),
    }
    let ghost head = utf8(out@);
    match line {
        Some(n) => {
            push_ascii(&mut out, 0x3au8);
            push_decimal(&mut out, n);
        },
        None => {},
    }
    push_ascii(&mut out, 0x3au8);
    push_ascii(&mut out, 0x3au8);
    push_text(&mut out, test_name);
    proof {
        assert(utf8(out@) =~= source_text(test_file@, line, test_name@));
    }
    out
}

} // verus!
