//! Locating the `inline=` literal of a snapshot call in guest source, and
//! splicing a replacement into it.
use vstd::prelude::*;
use vstd::string::*;
use vstd::utf8::*;
use crate::scan::{
    close_paren_from, find_keyword_in_call, find_line_end, find_matching_close_paren,
    find_single_quote_end, find_triple_quote_end, is_quote, is_space, is_space_byte,
    keyword_from, lemma_line_end_after, lemma_quote_end_after, lemma_skip_string_after,
    lemma_triple_quote_end_after, line_end, occurs_at, occurs_at_pos, quote_end, skip_string,
    triple_at, triple_quote_end, widen,
};
use crate::literal::{
    dedent, dedented, generate_inline_literal, inline_literal, literal_body, literal_value,
    push_unescaped,
};
use crate::snapshot::{equal_trimmed, trim_end};
use crate::text::{empty_text, lemma_ascii_boundaries, push_range, push_text, slice, utf8};

verus! {

broadcast use vstd::utf8::group_utf8_lib;

/// Location of an inline snapshot string literal in source code.
pub struct InlineLocation {
    /// Byte offset of string literal start (including quotes).
    pub start: usize,
    /// Byte offset of string literal end (including quotes).
    pub end: usize,
    /// Column indentation of the line the search started on.
    pub indent: usize,
}

impl InlineLocation {
    pub open spec fn view(&self) -> (int, int, int) {
        (self.start as int, self.end as int, self.indent as int)
    }
}

/// An optional location as a triple of integers.
pub open spec fn location_view(o: Option<InlineLocation>) -> Option<(int, int, int)> {
    match o {
        Some(l) => Some(l.view()),
        None => None,
    }
}

/// The bytes of an optional function name.
pub open spec fn name_bytes(o: Option<&str>) -> Option<Seq<u8>> {
    match o {
        Some(f) => Some(f.spec_bytes()),
        None => None,
    }
}

/// The three snapshot call openers, by index: `assert_snapshot(`,
/// `assert_json_snapshot(` and `assert_cmd_snapshot(`.
pub open spec fn call_pattern(k: int) -> Seq<u8> {
    if k == 0 {
        seq![0x61u8, 0x73u8, 0x73u8, 0x65u8, 0x72u8, 0x74u8, 0x5fu8, 0x73u8, 0x6eu8, 0x61u8, 0x70u8, 0x73u8, 0x68u8, 0x6fu8, 0x74u8, 0x28u8]
    } else if k == 1 {
        seq![
            0x61u8, 0x73u8, 0x73u8, 0x65u8, 0x72u8, 0x74u8, 0x5fu8, 0x6au8, 0x73u8, 0x6fu8, 0x6eu8, 0x5fu8,
            0x73u8, 0x6eu8, 0x61u8, 0x70u8, 0x73u8, 0x68u8, 0x6fu8, 0x74u8, 0x28u8,
        ]
    } else {
        seq![
            0x61u8, 0x73u8, 0x73u8, 0x65u8, 0x72u8, 0x74u8, 0x5fu8, 0x63u8, 0x6du8, 0x64u8, 0x5fu8,
            0x73u8, 0x6eu8, 0x61u8, 0x70u8, 0x73u8, 0x68u8, 0x6fu8, 0x74u8, 0x28u8,
        ]
    }
}

/// The keyword that introduces the inline literal: `inline=`.
pub open spec fn inline_keyword() -> Seq<u8> {
    seq![0x69u8, 0x6eu8, 0x6cu8, 0x69u8, 0x6eu8, 0x65u8, 0x3du8]
}

/// `def `
pub open spec fn def_keyword() -> Seq<u8> {
    seq![0x64u8, 0x65u8, 0x66u8, 0x20u8]
}

/// `async def `
pub open spec fn async_def_keyword() -> Seq<u8> {
    seq![0x61u8, 0x73u8, 0x79u8, 0x6eu8, 0x63u8, 0x20u8, 0x64u8, 0x65u8, 0x66u8, 0x20u8]
}

/// Which call opener, if any, starts at `i`.
pub open spec fn call_at(s: Seq<u8>, i: int) -> Option<int> {
    if occurs_at(s, i, call_pattern(0)) {
        Some(0)
    } else if occurs_at(s, i, call_pattern(1)) {
        Some(1)
    } else if occurs_at(s, i, call_pattern(2)) {
        Some(2)
    } else {
        None
    }
}

/// The first snapshot call opener at or after `i`: its position and which one.
pub open spec fn first_call(s: Seq<u8>, i: int) -> Option<(int, int)>
    decreases s.len() + 1 - i,
{
    if i < 0 || i >= s.len() {
        None
    } else {
        match call_at(s, i) {
            Some(k) => Some((i, k)),
            None => first_call(s, i + 1),
        }
    }
}

/// The start of the line that holds position `i`.
pub open spec fn line_start_of(s: Seq<u8>, i: int) -> int
    decreases i,
{
    if i <= 0 {
        0
    } else if s[i - 1] == 0x0au8 {
        i
    } else {
        line_start_of(s, i - 1)
    }
}

/// The start of line `k` (counting from zero), counting lines from the one
/// that starts at `i`; a line exists only if it holds at least one byte.
pub open spec fn nth_line_start(s: Seq<u8>, i: int, k: int) -> Option<int>
    decreases s.len() + 1 - i,
{
    if i < 0 || i >= s.len() {
        None
    } else if k <= 0 {
        Some(i)
    } else {
        proof {
            lemma_line_end_after(s, i);
        }
        if line_end(s, i) >= s.len() {
            None
        } else {
            nth_line_start(s, line_end(s, i) + 1, k - 1)
        }
    }
}

/// The end of the text of the line starting at `ls`: its newline, less a
/// carriage return before it.
pub open spec fn line_text_end(s: Seq<u8>, ls: int) -> int {
    let e = line_end(s, ls);
    if e < s.len() && e > ls && s[e - 1] == 0x0du8 {
        e - 1
    } else {
        e
    }
}

/// How many whitespace bytes follow `i`, stopping at `end`.
pub open spec fn spaces_from(s: Seq<u8>, i: int, end: int) -> int
    decreases end - i,
{
    if i < 0 || i >= end || i >= s.len() || !is_space(s[i]) {
        0
    } else {
        1 + spaces_from(s, i + 1, end)
    }
}

/// The first position at or after `i` that is not whitespace, or the end.
pub open spec fn skip_spaces(s: Seq<u8>, i: int) -> int {
    i + spaces_from(s, i, s.len() as int)
}

/// The first `(` in `[i, end)`, or `end`.
pub open spec fn paren_or_end(s: Seq<u8>, i: int, end: int) -> int
    decreases end - i,
{
    if i < 0 || i >= end || i >= s.len() {
        end
    } else if s[i] == 0x28u8 {
        i
    } else {
        paren_or_end(s, i + 1, end)
    }
}

/// `p` occurs at `i` and ends no later than `end`.
pub open spec fn prefix_within(s: Seq<u8>, i: int, end: int, p: Seq<u8>) -> bool {
    i + p.len() <= end && occurs_at(s, i, p)
}

/// The byte range of the function name when the line `[ls, le)` is a
/// `def` or `async def` line.
pub open spec fn def_name_in_line(s: Seq<u8>, ls: int, le: int) -> Option<(int, int)> {
    let t = ls + spaces_from(s, ls, le);
    if prefix_within(s, t, le, def_keyword()) {
        Some((t + 4, paren_or_end(s, t + 4, le)))
    } else if prefix_within(s, t, le, async_def_keyword()) {
        Some((t + 10, paren_or_end(s, t + 10, le)))
    } else {
        None
    }
}

/// The name of the nearest `def` line ending no later than `end`, searching
/// backwards line by line; `ended` says whether the line that ends at `end`
/// was ended by a newline.
pub open spec fn enclosing_def(s: Seq<u8>, end: int, ended: bool) -> Option<(int, int)>
    decreases end,
{
    let ls = line_start_of(s, end);
    let le = if ended && end > ls && s[end - 1] == 0x0du8 {
        end - 1
    } else {
        end
    };
    match def_name_in_line(s, ls, le) {
        Some(r) => Some(r),
        None => {
            if ls <= 0 || end <= 0 {
                None
            } else {
                proof {
                    lemma_line_start_of(s, end);
                }
                enclosing_def(s, ls - 1, true)
            }
        },
    }
}

/// The string literal (any quoting) that starts after optional whitespace at
/// `i`: its start and the position just past it.
pub open spec fn literal_at(s: Seq<u8>, i: int) -> Option<(int, int)> {
    let t = skip_spaces(s, i);
    if triple_at(s, t, 0x22u8) || triple_at(s, t, 0x27u8) {
        match triple_quote_end(s, t + 3, s[t]) {
            Some(e) => Some((t, e + 3)),
            None => None,
        }
    } else if 0 <= t < s.len() && is_quote(s[t]) {
        match quote_end(s, t + 1, s[t]) {
            Some(e) => Some((t, e + 1)),
            None => None,
        }
    } else {
        None
    }
}

/// Whether the call at `pos` belongs to a function other than `fname`.
pub open spec fn in_other_function(s: Seq<u8>, pos: int, fname: Option<Seq<u8>>) -> bool {
    match fname {
        Some(f) => match enclosing_def(s, pos, false) {
            Some(r) => s.subrange(r.0, r.1) != f,
            None => false,
        },
        None => false,
    }
}

/// The inline literal of the first suitable snapshot call at or after `from`.
pub open spec fn inline_search(s: Seq<u8>, from: int, fname: Option<Seq<u8>>) -> Option<
    (int, int),
>
    decreases s.len() + 1 - from,
{
    match first_call(s, from) {
        None => None,
        Some((pos, k)) => {
            let open = pos + call_pattern(k).len() - 1;
            match close_paren_from(s, open, 0) {
                None => None,
                Some(close) => {
                    if in_other_function(s, pos, fname) {
                        if close + 1 >= s.len() {
                            None
                        } else {
                            proof {
                                lemma_first_call_after(s, from);
                                lemma_close_paren_after(s, open, 0);
                            }
                            inline_search(s, close + 1, fname)
                        }
                    } else {
                        match keyword_from(s, open, close, inline_keyword()) {
                            None => None,
                            Some(p) => {
                                if p + 7 >= s.len() {
                                    None
                                } else {
                                    literal_at(s, p + 7)
                                }
                            },
                        }
                    }
                },
            }
        },
    }
}

/// Where the snapshot call lies at which the search from `from` stops.
pub open spec fn found_call(s: Seq<u8>, from: int, fname: Option<Seq<u8>>) -> int
    decreases s.len() + 1 - from,
{
    match first_call(s, from) {
        None => 0,
        Some((pos, k)) => {
            let open = pos + call_pattern(k).len() - 1;
            match close_paren_from(s, open, 0) {
                None => pos,
                Some(close) => {
                    if in_other_function(s, pos, fname) && close + 1 < s.len() {
                        proof {
                            lemma_first_call_after(s, from);
                            lemma_close_paren_after(s, open, 0);
                        }
                        found_call(s, close + 1, fname)
                    } else {
                        pos
                    }
                },
            }
        },
    }
}

/// The snapshot calls that the search from `from` passes over because they
/// are in another function than `fname`: the position of each opener and of
/// its closing parenthesis.
pub open spec fn passed_calls(s: Seq<u8>, from: int, fname: Option<Seq<u8>>) -> Seq<(int, int)>
    decreases s.len() + 1 - from,
{
    match first_call(s, from) {
        None => seq![],
        Some((pos, k)) => {
            let open = pos + call_pattern(k).len() - 1;
            match close_paren_from(s, open, 0) {
                None => seq![],
                Some(close) => {
                    if in_other_function(s, pos, fname) && close + 1 < s.len() {
                        proof {
                            lemma_first_call_after(s, from);
                            lemma_close_paren_after(s, open, 0);
                        }
                        seq![(pos, close)] + passed_calls(s, close + 1, fname)
                    } else {
                        seq![]
                    }
                },
            }
        },
    }
}

/// Where the inline literal for the snapshot call on (or after) line
/// `line_number` (1-based) lies, and the indentation of the line on which
/// that call starts.
pub open spec fn inline_location(s: Seq<u8>, line_number: int, fname: Option<Seq<u8>>) -> Option<
    (int, int, int),
> {
    if line_number < 1 {
        None
    } else {
        match nth_line_start(s, 0, line_number - 1) {
            None => None,
            Some(ls) => match inline_search(s, ls, fname) {
                None => None,
                Some(r) => {
                    let cs = line_start_of(s, found_call(s, ls, fname));
                    Some((r.0, r.1, spaces_from(s, cs, line_text_end(s, cs))))
                },
            },
        }
    }
}

pub proof fn lemma_first_call_after(s: Seq<u8>, i: int)
    ensures
        first_call(s, i) matches Some((p, k)) ==> i <= p && 0 <= k < 3 && occurs_at(
            s,
            p,
            call_pattern(k),
        ),
    decreases s.len() + 1 - i,
{
    if 0 <= i < s.len() && call_at(s, i) is None {
        lemma_first_call_after(s, i + 1);
    }
}

pub proof fn lemma_close_paren_after(s: Seq<u8>, i: int, depth: int)
    ensures
        close_paren_from(s, i, depth) matches Some(c) ==> i <= c < s.len(),
    decreases s.len() + 1 - i,
{
    if 0 <= i < s.len() {
        if s[i] == 0x28u8 {
            lemma_close_paren_after(s, i + 1, depth + 1);
        } else if s[i] == 0x29u8 {
            lemma_close_paren_after(s, i + 1, depth - 1);
        } else if is_quote(s[i]) {
            lemma_skip_string_after(s, i, s.len() as int);
            if let Some(n) = skip_string(s, i, s.len() as int) {
                lemma_close_paren_after(s, n, depth);
            }
        } else if s[i] == 0x23u8 {
            lemma_line_end_after(s, i);
            lemma_close_paren_after(s, line_end(s, i) + 1, depth);
        } else {
            lemma_close_paren_after(s, i + 1, depth);
        }
    }
}

pub proof fn lemma_keyword_after(s: Seq<u8>, i: int, end: int, kw: Seq<u8>)
    ensures
        keyword_from(s, i, end, kw) matches Some(p) ==> i <= p < end && occurs_at(s, p, kw),
    decreases s.len() + 1 - i,
{
    if 0 <= i < end && i < s.len() {
        if is_quote(s[i]) {
            lemma_skip_string_after(s, i, end);
            if let Some(n) = skip_string(s, i, end) {
                lemma_keyword_after(s, n, end, kw);
            }
        } else if s[i] == 0x23u8 {
            lemma_line_end_after(s, i);
            lemma_keyword_after(
                s,
                if line_end(s, i) < end {
                    line_end(s, i)
                } else {
                    end
                },
                end,
                kw,
            );
        } else if !occurs_at(s, i, kw) {
            lemma_keyword_after(s, i + 1, end, kw);
        }
    }
}

pub proof fn lemma_line_start_of(s: Seq<u8>, i: int)
    requires
        0 <= i,
    ensures
        0 <= line_start_of(s, i) <= i,
        i <= s.len() && line_start_of(s, i) > 0 ==> s[line_start_of(s, i) - 1] == 0x0au8,
    decreases i,
{
    if i > 0 && s[i - 1] != 0x0au8 {
        lemma_line_start_of(s, i - 1);
    }
}

fn call_pattern_bytes(k: usize) -> (r: Vec<u8>)
    requires
        k < 3,
    ensures
        r@ == call_pattern(k as int),
{
    let r = if k == 0 {
        vec![0x61u8, 0x73u8, 0x73u8, 0x65u8, 0x72u8, 0x74u8, 0x5fu8, 0x73u8, 0x6eu8, 0x61u8, 0x70u8, 0x73u8, 0x68u8, 0x6fu8, 0x74u8, 0x28u8]
    } else if k == 1 {
        vec![
            0x61u8, 0x73u8, 0x73u8, 0x65u8, 0x72u8, 0x74u8, 0x5fu8, 0x6au8, 0x73u8, 0x6fu8, 0x6eu8, 0x5fu8,
            0x73u8, 0x6eu8, 0x61u8, 0x70u8, 0x73u8, 0x68u8, 0x6fu8, 0x74u8, 0x28u8,
        ]
    } else {
        vec![
            0x61u8, 0x73u8, 0x73u8, 0x65u8, 0x72u8, 0x74u8, 0x5fu8, 0x63u8, 0x6du8, 0x64u8, 0x5fu8,
            0x73u8, 0x6eu8, 0x61u8, 0x70u8, 0x73u8, 0x68u8, 0x6fu8, 0x74u8, 0x28u8,
        ]
    };
    assert(r@ =~= call_pattern(k as int));
    r
}

/// Finds the first snapshot assertion call at or after `from`: its position
/// and the length of its opener (up to and including the parenthesis).
pub fn find_snapshot_call(b: &[u8], from: usize) -> (r: Option<(usize, usize)>)
    ensures
        match r {
            Some((p, n)) => first_call(b@, from as int) matches Some((q, k)) && q == p && n
                == call_pattern(k).len(),
            None => first_call(b@, from as int) is None,
        },
{
    let plain = call_pattern_bytes(0);
    let json = call_pattern_bytes(1);
    let cmd = call_pattern_bytes(2);
    let len = b.len();
    let mut i = from;
    while i < len
        invariant
            len == b@.len(),
            plain@ == call_pattern(0),
            json@ == call_pattern(1),
            cmd@ == call_pattern(2),
            first_call(b@, i as int) == first_call(b@, from as int),
        decreases len - i,
    {
        if occurs_at_pos(b, i, plain.as_slice()) {
            return Some((i, plain.len()));
        } else if occurs_at_pos(b, i, json.as_slice()) {
            return Some((i, json.len()));
        } else if occurs_at_pos(b, i, cmd.as_slice()) {
            return Some((i, cmd.len()));
        }
        i = i + 1;
    }
    None
}

/// The start of the line that holds position `i`.
pub fn find_line_start(b: &[u8], i: usize) -> (r: usize)
    requires
        i <= b@.len(),
    ensures
        r == line_start_of(b@, i as int),
{
    let mut j = i;
    while j > 0 && b[j - 1] != 0x0au8
        invariant
            j <= i <= b@.len(),
            line_start_of(b@, j as int) == line_start_of(b@, i as int),
        decreases j,
    {
        j = j - 1;
    }
    j
}

/// The start of line `k` (from zero) of `b`, if there is such a line.
pub fn find_nth_line_start(b: &[u8], k: usize) -> (r: Option<usize>)
    ensures
        widen(r) == nth_line_start(b@, 0, k as int),
{
    let len = b.len();
    let mut i: usize = 0;
    let mut left = k;
    while i < len
        invariant
            len == b@.len(),
            i <= len,
            nth_line_start(b@, i as int, left as int) == nth_line_start(b@, 0, k as int),
        decreases len - i,
    {
        if left == 0 {
            return Some(i);
        }
        let e = find_line_end(b, i);
        proof {
            lemma_line_end_after(b@, i as int);
        }
        if e >= len {
            return None;
        }
        i = e + 1;
        left = left - 1;
    }
    None
}

/// The end of the text of the line that starts at `ls`.
pub fn find_line_text_end(b: &[u8], ls: usize) -> (r: usize)
    requires
        ls <= b@.len(),
    ensures
        r == line_text_end(b@, ls as int),
        ls <= r <= b@.len(),
{
    let e = find_line_end(b, ls);
    proof {
        lemma_line_end_after(b@, ls as int);
    }
    if e < b.len() && e > ls && b[e - 1] == 0x0du8 {
        e - 1
    } else {
        e
    }
}

/// How many whitespace bytes follow `i`, stopping at `end`.
pub fn count_spaces(b: &[u8], i: usize, end: usize) -> (r: usize)
    requires
        i <= end <= b@.len(),
    ensures
        r == spaces_from(b@, i as int, end as int),
        i + r <= end,
{
    let mut j = i;
    while j < end && is_space_byte(b[j])
        invariant
            i <= j <= end <= b@.len(),
            spaces_from(b@, i as int, end as int) == (j - i) + spaces_from(
                b@,
                j as int,
                end as int,
            ),
        decreases end - j,
    {
        j = j + 1;
    }
    j - i
}

/// The first `(` in `[i, end)`, or `end`.
fn find_paren_or_end(b: &[u8], i: usize, end: usize) -> (r: usize)
    requires
        i <= end <= b@.len(),
    ensures
        r == paren_or_end(b@, i as int, end as int),
        i <= r <= end,
{
    let mut j = i;
    while j < end && b[j] != 0x28u8
        invariant
            i <= j <= end <= b@.len(),
            paren_or_end(b@, j as int, end as int) == paren_or_end(b@, i as int, end as int),
        decreases end - j,
    {
        j = j + 1;
    }
    j
}

fn prefix_within_exec(b: &[u8], i: usize, end: usize, p: &[u8]) -> (r: bool)
    requires
        end <= b@.len(),
    ensures
        r == prefix_within(b@, i as int, end as int, p@),
{
    i <= end && end - i >= p.len() && occurs_at_pos(b, i, p)
}

/// The name range of the line `[ls, le)` when it is a `def` line.
fn def_name_range(b: &[u8], ls: usize, le: usize) -> (r: Option<(usize, usize)>)
    requires
        ls <= le <= b@.len(),
    ensures
        match r {
            Some((x, y)) => def_name_in_line(b@, ls as int, le as int) == Some(
                (x as int, y as int),
            ),
            None => def_name_in_line(b@, ls as int, le as int) is None,
        },
{
    let t = ls + count_spaces(b, ls, le);
    let d = vec![0x64u8, 0x65u8, 0x66u8, 0x20u8];
    let a = vec![0x61u8, 0x73u8, 0x79u8, 0x6eu8, 0x63u8, 0x20u8, 0x64u8, 0x65u8, 0x66u8, 0x20u8];
    assert(d@ =~= def_keyword());
    assert(a@ =~= async_def_keyword());
    if prefix_within_exec(b, t, le, d.as_slice()) {
        Some((t + 4, find_paren_or_end(b, t + 4, le)))
    } else if prefix_within_exec(b, t, le, a.as_slice()) {
        Some((t + 10, find_paren_or_end(b, t + 10, le)))
    } else {
        None
    }
}

/// The name range of the nearest `def` line before `pos`.
fn enclosing_def_range(b: &[u8], pos: usize) -> (r: Option<(usize, usize)>)
    requires
        pos <= b@.len(),
    ensures
        match r {
            Some((x, y)) => enclosing_def(b@, pos as int, false) == Some((x as int, y as int)),
            None => enclosing_def(b@, pos as int, false) is None,
        },
{
    let mut end = pos;
    let mut ended = false;
    loop
        invariant
            end <= b@.len(),
            enclosing_def(b@, end as int, ended) == enclosing_def(b@, pos as int, false),
        decreases end,
    {
        let ls = find_line_start(b, end);
        proof {
            lemma_line_start_of(b@, end as int);
        }
        let le = if ended && end > ls && b[end - 1] == 0x0du8 {
            end - 1
        } else {
            end
        };
        match def_name_range(b, ls, le) {
            Some(r) => {
                return Some(r);
            },
            None => {
                if ls == 0 || end == 0 {
                    return None;
                }
                end = ls - 1;
                ended = true;
            },
        }
    }
}

/// Parses the string literal that starts after optional whitespace at
/// `offset`: its start and the position just past its closing quote(s).
pub fn parse_string_literal(b: &[u8], offset: usize) -> (r: Option<(usize, usize)>)
    requires
        offset <= b@.len(),
    ensures
        match r {
            Some((x, y)) => literal_at(b@, offset as int) == Some((x as int, y as int)),
            None => literal_at(b@, offset as int) is None,
        },
{
    let len = b.len();
    let t = offset + count_spaces(b, offset, len);
    if len - t >= 3 && (b[t] == 0x22u8 || b[t] == 0x27u8) && b[t + 1] == b[t] && b[t + 2] == b[t] {
        match find_triple_quote_end(b, t + 3, b[t]) {
            Some(e) => {
                proof {
                    lemma_triple_quote_end_after(b@, t + 3, b@[t as int]);
                }
                Some((t, e + 3))
            },
            None => None,
        }
    } else if t < len && (b[t] == 0x22u8 || b[t] == 0x27u8) {
        match find_single_quote_end(b, t + 1, b[t]) {
            Some(e) => {
                proof {
                    lemma_quote_end_after(b@, t + 1, b@[t as int]);
                }
                Some((t, e + 1))
            },
            None => None,
        }
    } else {
        None
    }
}

pub fn range_equals(b: &[u8], x: usize, y: usize, f: &[u8]) -> (r: bool)
    requires
        x <= y <= b@.len(),
    ensures
        r == (b@.subrange(x as int, y as int) == f@),
{
    if y - x != f.len() {
        proof {
            assert(b@.subrange(x as int, y as int).len() != f@.len());
        }
        return false;
    }
    let mut k: usize = 0;
    while k < f.len()
        invariant
            x <= y <= b@.len(),
            y - x == f@.len(),
            k <= f@.len(),
            forall|j: int| 0 <= j < k ==> b@[x + j] == f@[j],
        decreases f@.len() - k,
    {
        if b[x + k] != f[k] {
            proof {
                assert(b@.subrange(x as int, y as int)[k as int] != f@[k as int]);
            }
            return false;
        }
        k = k + 1;
    }
    proof {
        assert(b@.subrange(x as int, y as int) =~= f@);
    }
    true
}

fn other_function(b: &[u8], pos: usize, fname: Option<&[u8]>) -> (r: bool)
    requires
        pos <= b@.len(),
    ensures
        r == in_other_function(
            b@,
            pos as int,
            match fname {
                Some(f) => Some(f@),
                None => None,
            },
        ),
{
    match fname {
        Some(f) => match enclosing_def_range(b, pos) {
            Some((x, y)) => {
                proof {
                    lemma_enclosing_def_bounds(b@, pos as int, false);
                }
                !range_equals(b, x, y, f)
            },
            None => false,
        },
        None => false,
    }
}

/// Name ranges found by `enclosing_def` lie before `end`.
pub proof fn lemma_enclosing_def_bounds(s: Seq<u8>, end: int, ended: bool)
    requires
        0 <= end <= s.len(),
    ensures
        enclosing_def(s, end, ended) matches Some((x, y)) ==> 0 <= x <= y <= end,
    decreases end,
{
    let ls = line_start_of(s, end);
    lemma_line_start_of(s, end);
    let le = if ended && end > ls && s[end - 1] == 0x0du8 {
        end - 1
    } else {
        end
    };
    lemma_def_name_bounds(s, ls, le);
    if def_name_in_line(s, ls, le) is None && ls > 0 && end > 0 {
        lemma_enclosing_def_bounds(s, ls - 1, true);
    }
}

/// Name ranges found by `enclosing_def` start and end on character boundaries.
pub proof fn lemma_enclosing_def_boundaries(s: Seq<u8>, end: int, ended: bool)
    requires
        valid_utf8(s),
        0 <= end <= s.len(),
        ended ==> end < s.len() && s[end] == 0x0au8,
        !ended ==> is_char_boundary(s, end),
    ensures
        enclosing_def(s, end, ended) matches Some((x, y)) ==> is_char_boundary(s, x)
            && is_char_boundary(s, y),
    decreases end,
{
    let ls = line_start_of(s, end);
    lemma_line_start_of(s, end);
    let le = if ended && end > ls && s[end - 1] == 0x0du8 {
        end - 1
    } else {
        end
    };
    lemma_def_name_bounds(s, ls, le);
    if ended {
        lemma_ascii_boundaries(s, end);
        if end > ls && s[end - 1] == 0x0du8 {
            lemma_ascii_boundaries(s, end - 1);
        }
    }
    assert(is_char_boundary(s, le));
    match def_name_in_line(s, ls, le) {
        Some((x, y)) => {
            lemma_spaces_bounds(s, ls, le);
            let t = ls + spaces_from(s, ls, le);
            if prefix_within(s, t, le, def_keyword()) {
                assert(s[t + 3] == def_keyword()[3]);
                lemma_ascii_boundaries(s, t + 3);
                lemma_paren_or_end_bounds(s, t + 4, le);
            } else {
                assert(s[t + 9] == async_def_keyword()[9]);
                lemma_ascii_boundaries(s, t + 9);
                lemma_paren_or_end_bounds(s, t + 10, le);
            }
            if y < le {
                lemma_ascii_boundaries(s, y);
            }
        },
        None => {
            if ls > 0 && end > 0 {
                lemma_enclosing_def_boundaries(s, ls - 1, true);
            }
        },
    }
}

proof fn lemma_def_name_bounds(s: Seq<u8>, ls: int, le: int)
    requires
        0 <= ls <= le <= s.len(),
    ensures
        def_name_in_line(s, ls, le) matches Some((x, y)) ==> ls <= x <= y <= le,
{
    lemma_spaces_bounds(s, ls, le);
    let t = ls + spaces_from(s, ls, le);
    lemma_paren_or_end_bounds(s, t + 4, le);
    lemma_paren_or_end_bounds(s, t + 10, le);
}

pub proof fn lemma_spaces_bounds(s: Seq<u8>, i: int, end: int)
    requires
        0 <= i <= end,
    ensures
        0 <= spaces_from(s, i, end) <= end - i,
        forall|k: int| i <= k < i + spaces_from(s, i, end) ==> is_space(#[trigger] s[k]),
        i + spaces_from(s, i, end) < end && i + spaces_from(s, i, end) < s.len() ==> !is_space(
            s[i + spaces_from(s, i, end)],
        ),
    decreases end - i,
{
    if i < end && i < s.len() && is_space(s[i]) {
        lemma_spaces_bounds(s, i + 1, end);
    }
}

pub proof fn lemma_paren_or_end_bounds(s: Seq<u8>, i: int, end: int)
    ensures
        i <= end ==> i <= paren_or_end(s, i, end) <= end,
        0 <= i && paren_or_end(s, i, end) < end ==> s[paren_or_end(s, i, end)] == 0x28u8,
    decreases end - i,
{
    if 0 <= i < end && i < s.len() && s[i] != 0x28u8 {
        lemma_paren_or_end_bounds(s, i + 1, end);
    }
}

/// Searches for the inline literal of the first suitable call at or after
/// `from`.
fn search_inline(b: &[u8], from: usize, fname: Option<&[u8]>) -> (r: Option<(usize, usize, usize)>)
    ensures
        match r {
            Some((x, y, c)) => c < b@.len() && c as int == found_call(
                b@,
                from as int,
                match fname {
                    Some(f) => Some(f@),
                    None => None,
                },
            ) && inline_search(
                b@,
                from as int,
                match fname {
                    Some(f) => Some(f@),
                    None => None,
                },
            ) == Some((x as int, y as int)),
            None => inline_search(
                b@,
                from as int,
                match fname {
                    Some(f) => Some(f@),
                    None => None,
                },
            ) is None,
        },
{
    let ghost fv = match fname {
        Some(f) => Some(f@),
        None => None,
    };
    let kw = vec![0x69u8, 0x6eu8, 0x6cu8, 0x69u8, 0x6eu8, 0x65u8, 0x3du8];
    assert(kw@ =~= inline_keyword());
    let len = b.len();
    let mut from_now = from;
    loop
        invariant
            len == b@.len(),
            kw@ == inline_keyword(),
            fv == match fname {
                Some(f) => Some(f@),
                None => None::<Seq<u8>>,
            },
            inline_search(b@, from_now as int, fv) == inline_search(b@, from as int, fv),
            found_call(b@, from_now as int, fv) == found_call(b@, from as int, fv),
        decreases len + 1 - from_now,
    {
        proof {
            lemma_first_call_after(b@, from_now as int);
        }
        match find_snapshot_call(b, from_now) {
            None => {
                return None;
            },
            Some((pos, n)) => {
                let open = pos + n - 1;
                proof {
                    lemma_close_paren_after(b@, open as int, 0);
                }
                match find_matching_close_paren(b, open) {
                    None => {
                        return None;
                    },
                    Some(close) => {
                        if other_function(b, pos, fname) {
                            if close + 1 >= len {
                                return None;
                            }
                            from_now = close + 1;
                        } else {
                            proof {
                                lemma_keyword_after(b@, open as int, close as int, kw@);
                            }
                            match find_keyword_in_call(b, open, close, kw.as_slice()) {
                                None => {
                                    return None;
                                },
                                Some(p) => {
                                    if len - p <= 7 {
                                        return None;
                                    }
                                    return match parse_string_literal(b, p + 7) {
                                        Some((x, y)) => Some((x, y, pos)),
                                        None => None,
                                    };
                                },
                            }
                        }
                    },
                }
            },
        }
    }
}

/// Finds the `inline=` argument string literal of the snapshot call that
/// starts on or after line `line_number` (1-based).
///
/// Only `inline=` inside the call's parentheses counts, outside string
/// literals and comments. When `function_name` is given, calls inside a
/// different function are passed over, which keeps a stale line number from
/// landing on an intervening call.
pub fn find_inline_argument(source: &str, line_number: u32, function_name: Option<&str>) -> (r:
    Option<InlineLocation>)
    ensures
        location_view(r) == inline_location(
            source.spec_bytes(),
            line_number as int,
            name_bytes(function_name),
        ),
{
    let b = source.as_bytes();
    if line_number == 0 {
        return None;
    }
    let k = (line_number - 1) as usize;
    match find_nth_line_start(b, k) {
        None => None,
        Some(ls) => {
            proof {
                lemma_nth_line_start_bounds(b@, 0, k as int);
            }
            let fname: Option<&[u8]> = match function_name {
                Some(f) => Some(f.as_bytes()),
                None => None,
            };
            match search_inline(b, ls, fname) {
                None => None,
                Some((x, y, c)) => {
                    let cs = find_line_start(b, c);
                    proof {
                        lemma_line_start_of(b@, c as int);
                    }
                    let te = find_line_text_end(b, cs);
                    let indent = count_spaces(b, cs, te);
                    Some(InlineLocation { start: x, end: y, indent })
                },
            }
        },
    }
}

proof fn lemma_nth_line_start_bounds(s: Seq<u8>, i: int, k: int)
    ensures
        nth_line_start(s, i, k) matches Some(ls) ==> 0 <= ls < s.len(),
    decreases s.len() + 1 - i,
{
    if 0 <= i < s.len() && k > 0 {
        lemma_line_end_after(s, i);
        if line_end(s, i) < s.len() {
            lemma_nth_line_start_bounds(s, line_end(s, i) + 1, k - 1);
        }
    }
}

/// The name of the nearest enclosing function definition (`def` or
/// `async def`) before byte position `byte_pos`.
pub fn containing_function_name(source: &str, byte_pos: usize) -> (r: Option<&str>)
    requires
        byte_pos <= source.spec_bytes().len(),
        is_char_boundary(source.spec_bytes(), byte_pos as int),
    ensures
        match r {
            Some(n) => enclosing_def(source.spec_bytes(), byte_pos as int, false) matches Some(
                (x, y),
            ) && n.spec_bytes() == source.spec_bytes().subrange(x, y),
            None => enclosing_def(source.spec_bytes(), byte_pos as int, false) is None,
        },
{
    let b = source.as_bytes();
    match enclosing_def_range(b, byte_pos) {
        None => None,
        Some((x, y)) => {
            proof {
                lemma_enclosing_def_boundaries(b@, byte_pos as int, false);
                lemma_enclosing_def_bounds(b@, byte_pos as int, false);
            }
            Some(slice(source, x, y))
        },
    }
}

/// Replaces the bytes `[start, end)` of `source` with `replacement`.
pub fn apply_edit(source: &str, start: usize, end: usize, replacement: &str) -> (r: String)
    requires
        start <= end <= source.spec_bytes().len(),
        is_char_boundary(source.spec_bytes(), start as int),
        is_char_boundary(source.spec_bytes(), end as int),
    ensures
        utf8(r@) == edited(source.spec_bytes(), start as int, end as int, replacement.spec_bytes()),
{
    let len = source.as_bytes().len();
    proof {
        is_char_boundary_start_end_of_seq(source.spec_bytes());
    }
    let mut out = empty_text();
    push_range(&mut out, source, 0, start);
    push_text(&mut out, replacement);
    push_range(&mut out, source, end, len);
    proof {
        assert(utf8(out@) =~= edited(
            source.spec_bytes(),
            start as int,
            end as int,
            replacement.spec_bytes(),
        ));
    }
    out
}

/// `s` with the bytes `[start, end)` replaced by `r`.
pub open spec fn edited(s: Seq<u8>, start: int, end: int, r: Seq<u8>) -> Seq<u8> {
    s.subrange(0, start) + r + s.subrange(end, s.len() as int)
}

/// The source after the inline literal of the call found from line
/// `line_number` is rewritten to hold `value`; `None` when no literal is
/// found.
pub open spec fn rewritten(s: Seq<u8>, line_number: int, fname: Option<Seq<u8>>, value: Seq<u8>) -> Option<
    Seq<u8>,
> {
    match inline_location(s, line_number, fname) {
        Some((a, b, ind)) => if literal_holds(s, a, b, value) {
            Some(s)
        } else {
            Some(edited(s, a, b, inline_literal(value, ind)))
        },
        None => None,
    }
}

/// The literal `s[a..b]` already holds `value`: its value, dedented, equals
/// `value` once trailing whitespace is dropped from both.
pub open spec fn literal_holds(s: Seq<u8>, a: int, b: int, value: Seq<u8>) -> bool {
    trim_end(dedented(literal_value(s, a, b))) == trim_end(value)
}

/// Rewrites, in the text of a source file, the inline literal of the
/// snapshot call found from line `line_number` so that it holds `new_value`.
/// Returns the text unchanged when the literal already holds the value, and
/// `None` when no `inline=` literal is found.
pub fn rewrite_inline_source(
    source: &str,
    line_number: u32,
    new_value: &str,
    function_name: Option<&str>,
) -> (r: Option<String>)
    requires
        source.spec_bytes().len() <= usize::MAX - 4,
    ensures
        match r {
            Some(t) => rewritten(
                source.spec_bytes(),
                line_number as int,
                name_bytes(function_name),
                new_value.spec_bytes(),
            ) == Some(utf8(t@)),
            None => rewritten(
                source.spec_bytes(),
                line_number as int,
                name_bytes(function_name),
                new_value.spec_bytes(),
            ) is None,
        },
{
    match find_inline_argument(source, line_number, function_name) {
        None => None,
        Some(loc) => {
            proof {
                lemma_inline_location_shape(source.spec_bytes(), line_number as int, name_bytes(function_name));
            }
            let b = source.as_bytes();
            let triple = loc.end - loc.start >= 3 && b[loc.start + 1] == b[loc.start]
                && b[loc.start + 2] == b[loc.start];
            let (vs, ve) = if triple {
                (loc.start + 3, loc.end - 3)
            } else {
                (loc.start + 1, loc.end - 1)
            };
            proof {
                let ghost bb = source.spec_bytes();
                assert(b@ == bb);
                assert(inline_location(bb, line_number as int, name_bytes(function_name)) == Some(
                    (loc.start as int, loc.end as int, loc.indent as int),
                ));
                assert(is_quote(bb[loc.start as int]));
                assert(loc.start < loc.end <= bb.len());
                assert(triple == (triple_at(b@, loc.start as int, 0x22u8) || triple_at(
                    b@,
                    loc.start as int,
                    0x27u8,
                )));
            }
            let mut value = empty_text();
            push_unescaped(&mut value, source, vs, ve);
            let expected = dedent(value.as_str());
            if equal_trimmed(expected.as_str(), new_value) {
                proof {
                    is_char_boundary_start_end_of_seq(b@);
                }
                let mut same = empty_text();
                push_range(&mut same, source, 0, b.len());
                proof {
                    assert(b@.subrange(0, b@.len() as int) =~= b@);
                }
                return Some(same);
            }
            let literal = generate_inline_literal(new_value, loc.indent);
            Some(apply_edit(source, loc.start, loc.end, literal.as_str()))
        },
    }
}

/// A literal found by `literal_at` starts and ends with a quote inside `s`.
pub proof fn lemma_literal_at_shape(s: Seq<u8>, i: int)
    requires
        0 <= i <= s.len(),
    ensures
        literal_at(s, i) matches Some((x, y)) ==> i <= x < y <= s.len() && is_quote(s[x])
            && is_quote(s[y - 1]) && ({
            let r = literal_body(s, x, y);
            x < r.0 <= r.1 < y && is_quote(s[r.0 - 1]) && is_quote(s[r.1])
        }),
{
    lemma_spaces_bounds(s, i, s.len() as int);
    let t = skip_spaces(s, i);
    if triple_at(s, t, 0x22u8) || triple_at(s, t, 0x27u8) {
        lemma_triple_quote_end_after(s, t + 3, s[t]);
    } else if 0 <= t < s.len() && is_quote(s[t]) {
        lemma_quote_end_after(s, t + 1, s[t]);
    }
}

/// What the search finds is the literal of a snapshot call at or after
/// `from` that is not in another function than `fname`.
pub proof fn lemma_inline_search_found(s: Seq<u8>, from: int, fname: Option<Seq<u8>>)
    requires
        0 <= from,
    ensures
        inline_search(s, from, fname) matches Some((a, b)) ==> {
            &&& a < b <= s.len()
            &&& is_quote(s[a]) && is_quote(s[b - 1])
            &&& a < literal_body(s, a, b).0 <= literal_body(s, a, b).1 < b
            &&& is_quote(s[literal_body(s, a, b).0 - 1]) && is_quote(s[literal_body(s, a, b).1])
            &&& exists|pos: int, k: int|
                0 <= k < 3 && from <= pos < a && occurs_at(s, pos, call_pattern(k))
                    && !in_other_function(s, pos, fname)
        },
    decreases s.len() + 1 - from,
{
    lemma_first_call_after(s, from);
    if let Some((pos, k)) = first_call(s, from) {
        let open = pos + call_pattern(k).len() - 1;
        lemma_close_paren_after(s, open, 0);
        if let Some(close) = close_paren_from(s, open, 0) {
            if in_other_function(s, pos, fname) {
                if close + 1 < s.len() {
                    lemma_inline_search_found(s, close + 1, fname);
                }
            } else {
                lemma_keyword_after(s, open, close, inline_keyword());
                if let Some(p) = keyword_from(s, open, close, inline_keyword()) {
                    if p + 7 < s.len() {
                        lemma_literal_at_shape(s, p + 7);
                        if let Some((a, b)) = literal_at(s, p + 7) {
                            assert(0 <= k < 3 && from <= pos < a && occurs_at(s, pos, call_pattern(k))
                                && !in_other_function(s, pos, fname));
                        }
                    }
                }
            }
        }
    }
}

/// Every call the search passes over is in another function and lies, up
/// to its closing parenthesis, before the literal that the search finds.
pub proof fn lemma_passed_calls_before(s: Seq<u8>, from: int, fname: Option<Seq<u8>>)
    requires
        0 <= from,
    ensures
        inline_search(s, from, fname) matches Some((a, b)) ==> forall|j: int|
            0 <= j < passed_calls(s, from, fname).len() ==> {
                let c = #[trigger] passed_calls(s, from, fname)[j];
                &&& from <= c.0 <= c.1 < a
                &&& in_other_function(s, c.0, fname)
            },
    decreases s.len() + 1 - from,
{
    lemma_first_call_after(s, from);
    if let Some((pos, k)) = first_call(s, from) {
        let open = pos + call_pattern(k).len() - 1;
        lemma_close_paren_after(s, open, 0);
        if let Some(close) = close_paren_from(s, open, 0) {
            if in_other_function(s, pos, fname) && close + 1 < s.len() {
                lemma_passed_calls_before(s, close + 1, fname);
                lemma_inline_search_found(s, close + 1, fname);
                let ps = passed_calls(s, from, fname);
                let rest = passed_calls(s, close + 1, fname);
                if let Some((a, b)) = inline_search(s, from, fname) {
                    assert forall|j: int| 0 <= j < ps.len() implies {
                        let c = #[trigger] ps[j];
                        &&& from <= c.0 <= c.1 < a
                        &&& in_other_function(s, c.0, fname)
                    } by {
                        if j > 0 {
                            assert(ps[j] == rest[j - 1]);
                        }
                    }
                }
            }
        }
    }
}

/// A location found in valid UTF-8 lies on character boundaries.
pub proof fn lemma_inline_location_shape(s: Seq<u8>, line_number: int, fname: Option<Seq<u8>>)
    requires
        valid_utf8(s),
    ensures
        inline_location(s, line_number, fname) matches Some((a, b, ind)) ==> {
            &&& 0 <= a < b <= s.len()
            &&& is_quote(s[a])
            &&& is_char_boundary(s, a) && is_char_boundary(s, b)
            &&& a < literal_body(s, a, b).0 <= literal_body(s, a, b).1 < b
            &&& is_char_boundary(s, literal_body(s, a, b).0)
            &&& is_char_boundary(s, literal_body(s, a, b).1)
            &&& 0 <= ind <= s.len()
        },
{
    if line_number >= 1 {
        lemma_nth_line_start_bounds(s, 0, line_number - 1);
        if let Some(ls) = nth_line_start(s, 0, line_number - 1) {
            lemma_inline_search_found(s, ls, fname);
            if let Some((a, b)) = inline_search(s, ls, fname) {
                lemma_ascii_boundaries(s, a);
                lemma_ascii_boundaries(s, b - 1);
                lemma_ascii_boundaries(s, literal_body(s, a, b).0 - 1);
                lemma_ascii_boundaries(s, literal_body(s, a, b).1);
                lemma_found_call_bounds(s, ls, fname);
                let cs = line_start_of(s, found_call(s, ls, fname));
                lemma_line_start_of(s, found_call(s, ls, fname));
                lemma_line_end_after(s, cs);
                lemma_spaces_bounds(s, cs, line_text_end(s, cs));
            }
        }
    }
}

/// When the search finds a literal, the call it stops at lies within `s`.
proof fn lemma_found_call_bounds(s: Seq<u8>, from: int, fname: Option<Seq<u8>>)
    requires
        0 <= from,
    ensures
        inline_search(s, from, fname) is Some ==> 0 <= found_call(s, from, fname) < s.len(),
    decreases s.len() + 1 - from,
{
    lemma_first_call_after(s, from);
    if let Some((pos, k)) = first_call(s, from) {
        let open = pos + call_pattern(k).len() - 1;
        lemma_close_paren_after(s, open, 0);
        if let Some(close) = close_paren_from(s, open, 0) {
            if in_other_function(s, pos, fname) && close + 1 < s.len() {
                lemma_found_call_bounds(s, close + 1, fname);
            }
        }
    }
}

/// Rewriting an inline literal whose value already equals the new value
/// (after dedenting, and without trailing whitespace) leaves the source byte
/// for byte as it was, in whatever quoting the literal is written.
pub proof fn law_rewrite_is_idempotent(
    s: Seq<u8>,
    line_number: int,
    fname: Option<Seq<u8>>,
    value: Seq<u8>,
)
    requires
        inline_location(s, line_number, fname) matches Some((a, b, ind)) && literal_holds(
            s,
            a,
            b,
            value,
        ),
    ensures
        rewritten(s, line_number, fname, value) == Some(s),
{
}

/// With a function name given, the literal that a rewrite replaces belongs
/// to a snapshot call that starts on or after the given line and is not in
/// another function; every call of another function that the search passes
/// over, such as one a stale line number points at, ends before that
/// literal; and every byte before and after the literal is kept, so those
/// calls are left as they were.
pub proof fn law_rewrite_keeps_other_functions(
    s: Seq<u8>,
    line_number: int,
    fname: Seq<u8>,
    value: Seq<u8>,
)
    requires
        rewritten(s, line_number, Some(fname), value) is Some,
    ensures
        inline_location(s, line_number, Some(fname)) matches Some((a, b, ind)) && {
            let t = rewritten(s, line_number, Some(fname), value).unwrap();
            let ls = nth_line_start(s, 0, line_number - 1).unwrap();
            &&& 0 <= ls <= a < b <= s.len()
            &&& t.subrange(0, a) == s.subrange(0, a)
            &&& t.subrange(t.len() - (s.len() - b), t.len() as int) == s.subrange(b, s.len() as int)
            &&& exists|pos: int, k: int|
                0 <= k < 3 && ls <= pos < a && occurs_at(s, pos, call_pattern(k))
                    && !in_other_function(s, pos, Some(fname))
            &&& forall|j: int|
                0 <= j < passed_calls(s, ls, Some(fname)).len() ==> {
                    let c = #[trigger] passed_calls(s, ls, Some(fname))[j];
                    &&& ls <= c.0 <= c.1 < a
                    &&& in_other_function(s, c.0, Some(fname))
                }
        },
{
    let (a, b, ind) = inline_location(s, line_number, Some(fname)).unwrap();
    lemma_nth_line_start_bounds(s, 0, line_number - 1);
    let ls = nth_line_start(s, 0, line_number - 1).unwrap();
    lemma_inline_search_found(s, ls, Some(fname));
    lemma_passed_calls_before(s, ls, Some(fname));
    let t = rewritten(s, line_number, Some(fname), value).unwrap();
    assert(t.subrange(0, a) =~= s.subrange(0, a));
    assert(t.subrange(t.len() - (s.len() - b), t.len() as int) =~= s.subrange(b, s.len() as int));
}

} // verus!
