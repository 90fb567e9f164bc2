//! Guest-language string literals for inline snapshots: generating a literal
//! for a value, and dedenting the value read back from one.
use vstd::prelude::*;
use vstd::string::*;
use vstd::utf8::*;
use crate::inline::{
    count_spaces, find_line_text_end, lemma_spaces_bounds, line_text_end, spaces_from,
};
use crate::scan::{find_line_end, is_space, lemma_line_end_after, line_end, triple_at};
use crate::text::{empty_text, lemma_ascii_boundaries, push_ascii, push_range, push_spaces, spaces, utf8};

verus! {

broadcast use vstd::utf8::group_utf8_lib;

/// The contents of a double-quoted literal: `\` and `"` escaped with a
/// backslash.
pub open spec fn escape_double(s: Seq<u8>) -> Seq<u8>
    decreases s.len(),
{
    if s.len() == 0 {
        seq![]
    } else {
        let head = if s[0] == 0x5cu8 {
            seq![0x5cu8, 0x5cu8]
        } else if s[0] == 0x22u8 {
            seq![0x5cu8, 0x22u8]
        } else {
            seq![s[0]]
        };
        head + escape_double(s.drop_first())
    }
}

/// The contents of one line of a triple-quoted literal: `\` escaped, and each
/// run of three double quotes (from the left, not overlapping) escaped.
pub open spec fn escape_triple(s: Seq<u8>) -> Seq<u8>
    decreases s.len(),
{
    if s.len() == 0 {
        seq![]
    } else if s[0] == 0x5cu8 {
        seq![0x5cu8, 0x5cu8] + escape_triple(s.drop_first())
    } else if s.len() >= 3 && s[0] == 0x22u8 && s[1] == 0x22u8 && s[2] == 0x22u8 {
        seq![0x5cu8, 0x22u8, 0x5cu8, 0x22u8, 0x5cu8, 0x22u8] + escape_triple(
            s.subrange(3, s.len() as int),
        )
    } else {
        seq![s[0]] + escape_triple(s.drop_first())
    }
}

pub open spec fn escape(triple: bool, s: Seq<u8>) -> Seq<u8> {
    if triple {
        escape_triple(s)
    } else {
        escape_double(s)
    }
}

/// Appends the escaped bytes of `t` between `start` and `end`.
fn push_escaped(out: &mut String, t: &str, start: usize, end: usize, triple: bool)
    requires
        start <= end <= t.spec_bytes().len(),
        is_char_boundary(t.spec_bytes(), start as int),
        is_char_boundary(t.spec_bytes(), end as int),
    ensures
        utf8(final(out)@) == utf8(old(out)@) + escape(
            triple,
            t.spec_bytes().subrange(start as int, end as int),
        ),
{
    let b = t.as_bytes();
    let ghost bs = b@;
    let ghost target = utf8(old(out)@) + escape(triple, bs.subrange(start as int, end as int));
    let mut seg = start;
    let mut i = start;
    while i < end
        invariant
            b@ == bs,
            bs == t.spec_bytes(),
            valid_utf8(bs),
            start <= seg <= i <= end <= bs.len(),
            is_char_boundary(bs, seg as int),
            is_char_boundary(bs, end as int),
            utf8(out@) + bs.subrange(seg as int, i as int) + escape(
                triple,
                bs.subrange(i as int, end as int),
            ) == target,
        decreases end - i,
    {
        let c = b[i];
        let ghost rest = bs.subrange(i as int, end as int);
        assert(rest[0] == c);
        if c == 0x5cu8 {
            proof {
                lemma_ascii_boundaries(bs, i as int);
                assert(rest.drop_first() =~= bs.subrange(i + 1, end as int));
            }
            push_range(out, t, seg, i);
            push_ascii(out, 0x5cu8);
            push_ascii(out, 0x5cu8);
            i = i + 1;
            seg = i;
            proof {
                assert(bs.subrange(seg as int, i as int) =~= Seq::<u8>::empty());
                assert(utf8(out@) + bs.subrange(seg as int, i as int) + escape(
                    triple,
                    bs.subrange(i as int, end as int),
                ) =~= target);
            }
        } else if triple && c == 0x22u8 && end - i >= 3 && b[i + 1] == 0x22u8 && b[i + 2]
            == 0x22u8 {
            proof {
                lemma_ascii_boundaries(bs, i as int);
                lemma_ascii_boundaries(bs, i + 2);
                assert(rest.subrange(3, rest.len() as int) =~= bs.subrange(i + 3, end as int));
            }
            push_range(out, t, seg, i);
            push_ascii(out, 0x5cu8);
            push_ascii(out, 0x22u8);
            push_ascii(out, 0x5cu8);
            push_ascii(out, 0x22u8);
            push_ascii(out, 0x5cu8);
            push_ascii(out, 0x22u8);
            i = i + 3;
            seg = i;
            proof {
                assert(bs.subrange(seg as int, i as int) =~= Seq::<u8>::empty());
                assert(utf8(out@) + bs.subrange(seg as int, i as int) + escape(
                    triple,
                    bs.subrange(i as int, end as int),
                ) =~= target);
            }
        } else if !triple && c == 0x22u8 {
            proof {
                lemma_ascii_boundaries(bs, i as int);
                assert(rest.drop_first() =~= bs.subrange(i + 1, end as int));
            }
            push_range(out, t, seg, i);
            push_ascii(out, 0x5cu8);
            push_ascii(out, 0x22u8);
            i = i + 1;
            seg = i;
            proof {
                assert(bs.subrange(seg as int, i as int) =~= Seq::<u8>::empty());
                assert(utf8(out@) + bs.subrange(seg as int, i as int) + escape(
                    triple,
                    bs.subrange(i as int, end as int),
                ) =~= target);
            }
        } else {
            proof {
                assert(rest.drop_first() =~= bs.subrange(i + 1, end as int));
                assert(bs.subrange(seg as int, i + 1) =~= bs.subrange(seg as int, i as int) + seq![
                    c,
                ]);
            }
            i = i + 1;
            proof {
                assert(utf8(out@) + bs.subrange(seg as int, i as int) + escape(
                    triple,
                    bs.subrange(i as int, end as int),
                ) =~= target);
            }
        }
    }
    proof {
        assert(escape(triple, bs.subrange(i as int, end as int)) =~= Seq::<u8>::empty());
    }
    push_range(out, t, seg, end);
    proof {
        assert(utf8(out@) =~= target);
    }
}

/// The lines of a triple-quoted literal for the lines of `s` from `i` on:
/// each non-empty line indented by `ind` spaces and escaped, each ended by a
/// newline; an empty line is just a newline.
pub open spec fn literal_lines(s: Seq<u8>, i: int, ind: int) -> Seq<u8>
    decreases s.len() + 1 - i,
{
    if i < 0 || i >= s.len() {
        seq![]
    } else {
        let te = line_text_end(s, i);
        let piece = if te == i {
            seq![0x0au8]
        } else {
            spaces(ind) + escape_triple(s.subrange(i, te)) + seq![0x0au8]
        };
        proof {
            lemma_line_end_after(s, i);
        }
        piece + if line_end(s, i) >= s.len() {
            seq![]
        } else {
            literal_lines(s, line_end(s, i) + 1, ind)
        }
    }
}

/// The literal that `generate_inline_literal` writes for the value `s` at a
/// call indented by `indent` columns.
pub open spec fn inline_literal(s: Seq<u8>, indent: int) -> Seq<u8> {
    if line_end(s, 0) >= s.len() {
        seq![0x22u8] + escape_double(s) + seq![0x22u8]
    } else {
        seq![0x22u8, 0x22u8, 0x22u8, 0x5cu8, 0x0au8] + literal_lines(s, 0, indent + 4) + spaces(
            indent,
        ) + seq![0x22u8, 0x22u8, 0x22u8]
    }
}

/// Generates a guest-language string literal for `value`.
///
/// A value without a newline becomes a double-quoted literal. A value with
/// newlines becomes a triple-quoted literal that opens with a line
/// continuation, holds each line indented by `indent + 4` spaces, and closes
/// at column `indent`.
pub fn generate_inline_literal(value: &str, indent: usize) -> (r: String)
    requires
        indent <= usize::MAX - 4,
    ensures
        utf8(r@) == inline_literal(value.spec_bytes(), indent as int),
{
    let b = value.as_bytes();
    let ghost bs = b@;
    let len = b.len();
    let mut out = empty_text();
    proof {
        lemma_line_end_after(bs, 0);
    }
    if find_line_end(b, 0) >= len {
        push_ascii(&mut out, 0x22u8);
        push_escaped(&mut out, value, 0, len, false);
        push_ascii(&mut out, 0x22u8);
        proof {
            assert(bs.subrange(0, len as int) =~= bs);
            assert(utf8(out@) =~= inline_literal(bs, indent as int));
        }
        return out;
    }
    push_ascii(&mut out, 0x22u8);
    push_ascii(&mut out, 0x22u8);
    push_ascii(&mut out, 0x22u8);
    push_ascii(&mut out, 0x5cu8);
    push_ascii(&mut out, 0x0au8);
    let ind = indent + 4;
    let ghost head = seq![0x22u8, 0x22u8, 0x22u8, 0x5cu8, 0x0au8];
    let ghost target = head + literal_lines(bs, 0, ind as int);
    proof {
        assert(utf8(out@) =~= head);
    }
    let mut i: usize = 0;
    while i < len
        invariant
            b@ == bs,
            bs == value.spec_bytes(),
            valid_utf8(bs),
            len == bs.len(),
            i <= len,
            is_char_boundary(bs, i as int),
            utf8(out@) + literal_lines(bs, i as int, ind as int) == target,
        decreases len - i,
    {
        let e = find_line_end(b, i);
        let te = find_line_text_end(b, i);
        proof {
            lemma_line_end_after(bs, i as int);
            if e < len {
                lemma_ascii_boundaries(bs, e as int);
            }
            if te < e {
                lemma_ascii_boundaries(bs, te as int);
            }
        }
        let ghost before = utf8(out@);
        if te == i {
            push_ascii(&mut out, 0x0au8);
        } else {
            push_spaces(&mut out, ind);
            push_escaped(&mut out, value, i, te, true);
            push_ascii(&mut out, 0x0au8);
        }
        proof {
            let te_i = te as int;
            let piece = if te_i == i {
                seq![0x0au8]
            } else {
                spaces(ind as int) + escape_triple(bs.subrange(i as int, te_i)) + seq![0x0au8]
            };
            assert(utf8(out@) =~= before + piece);
        }
        if e >= len {
            proof {
                assert(utf8(out@) =~= target);
            }
            i = len;
        } else {
            i = e + 1;
            proof {
                assert(utf8(out@) + literal_lines(bs, i as int, ind as int) =~= target);
            }
        }
    }
    proof {
        assert(utf8(out@) =~= target);
    }
    push_spaces(&mut out, indent);
    push_ascii(&mut out, 0x22u8);
    push_ascii(&mut out, 0x22u8);
    push_ascii(&mut out, 0x22u8);
    proof {
        assert(utf8(out@) =~= inline_literal(bs, indent as int));
    }
    out
}

/// The text ranges of the lines of `s` from position `i` on. Lines end at a
/// newline, which (with a carriage return before it) is not part of the
/// text; a final newline does not start another line.
pub open spec fn line_ranges(s: Seq<u8>, i: int) -> Seq<(int, int)>
    decreases s.len() + 1 - i,
{
    if i < 0 || i >= s.len() {
        seq![]
    } else {
        proof {
            lemma_line_end_after(s, i);
        }
        seq![(i, line_text_end(s, i))] + if line_end(s, i) >= s.len() {
            seq![]
        } else {
            line_ranges(s, line_end(s, i) + 1)
        }
    }
}

/// The line `r` holds only whitespace.
pub open spec fn is_blank(s: Seq<u8>, r: (int, int)) -> bool {
    spaces_from(s, r.0, r.1) == r.1 - r.0
}

/// The smallest indentation among the non-blank lines of `ls[0..n]`.
pub open spec fn min_indent(s: Seq<u8>, ls: Seq<(int, int)>, n: int) -> Option<int>
    decreases n,
{
    if n <= 0 {
        None
    } else {
        let m = min_indent(s, ls, n - 1);
        let w = spaces_from(s, ls[n - 1].0, ls[n - 1].1);
        if is_blank(s, ls[n - 1]) {
            m
        } else {
            match m {
                None => Some(w),
                Some(x) => Some(
                    if x <= w {
                        x
                    } else {
                        w
                    },
                ),
            }
        }
    }
}

/// The index of the first non-blank line at or after `k`, or the count.
pub open spec fn first_nonblank(s: Seq<u8>, ls: Seq<(int, int)>, k: int) -> int
    decreases ls.len() - k,
{
    if k < 0 || k >= ls.len() {
        ls.len() as int
    } else if !is_blank(s, ls[k]) {
        k
    } else {
        first_nonblank(s, ls, k + 1)
    }
}

/// One past the index of the last non-blank line before `k`, or zero.
pub open spec fn last_nonblank_end(s: Seq<u8>, ls: Seq<(int, int)>, k: int) -> int
    decreases k,
{
    if k <= 0 || k > ls.len() {
        0
    } else if !is_blank(s, ls[k - 1]) {
        k
    } else {
        last_nonblank_end(s, ls, k - 1)
    }
}

/// Line `r` with its first `m` bytes removed; empty when it is shorter.
pub open spec fn dedented_line(s: Seq<u8>, r: (int, int), m: int) -> Seq<u8> {
    if r.1 - r.0 >= m {
        s.subrange(r.0 + m, r.1)
    } else {
        seq![]
    }
}

/// Lines `k..end` of `ls`, each with `m` bytes removed, joined by newlines.
pub open spec fn joined_lines(s: Seq<u8>, ls: Seq<(int, int)>, k: int, end: int, m: int) -> Seq<
    u8,
>
    decreases end - k,
{
    if k >= end {
        seq![]
    } else if k + 1 == end {
        dedented_line(s, ls[k], m)
    } else {
        dedented_line(s, ls[k], m) + seq![0x0au8] + joined_lines(s, ls, k + 1, end, m)
    }
}

/// What `dedent` returns for the text `s`: the lines from the first to the
/// last non-blank one, each without the smallest indentation of the
/// non-blank lines, joined by newlines.
pub open spec fn dedented(s: Seq<u8>) -> Seq<u8> {
    let ls = line_ranges(s, 0);
    let m = match min_indent(s, ls, ls.len() as int) {
        Some(x) => x,
        None => 0,
    };
    let first = first_nonblank(s, ls, 0);
    let last = last_nonblank_end(s, ls, ls.len() as int);
    if first >= last {
        seq![]
    } else {
        joined_lines(s, ls, first, last, m)
    }
}

pub open spec fn ranges_view(v: Seq<(usize, usize)>) -> Seq<(int, int)> {
    v.map_values(|p: (usize, usize)| (p.0 as int, p.1 as int))
}

/// Every line range lies within `s`, between character boundaries.
proof fn lemma_line_ranges(s: Seq<u8>, i: int)
    requires
        valid_utf8(s),
        0 <= i <= s.len(),
        is_char_boundary(s, i),
    ensures
        forall|k: int|
            0 <= k < line_ranges(s, i).len() ==> {
                let r = #[trigger] line_ranges(s, i)[k];
                &&& i <= r.0 <= r.1 <= s.len()
                &&& is_char_boundary(s, r.0)
                &&& is_char_boundary(s, r.1)
            },
    decreases s.len() + 1 - i,
{
    if i < s.len() {
        lemma_line_end_after(s, i);
        let e = line_end(s, i);
        let te = line_text_end(s, i);
        if e < s.len() {
            lemma_ascii_boundaries(s, e);
        }
        if te < e {
            lemma_ascii_boundaries(s, te);
        }
        if e < s.len() {
            lemma_line_ranges(s, e + 1);
        }
        let ls = line_ranges(s, i);
        assert forall|k: int| 0 <= k < ls.len() implies {
            let r = #[trigger] ls[k];
            &&& i <= r.0 <= r.1 <= s.len()
            &&& is_char_boundary(s, r.0)
            &&& is_char_boundary(s, r.1)
        } by {
            if k > 0 {
                assert(ls[k] == line_ranges(s, e + 1)[k - 1]);
            }
        }
    }
}

proof fn lemma_min_indent_le(s: Seq<u8>, ls: Seq<(int, int)>, n: int, j: int)
    requires
        0 <= j < n <= ls.len(),
        !is_blank(s, ls[j]),
    ensures
        min_indent(s, ls, n) matches Some(x) && x <= spaces_from(s, ls[j].0, ls[j].1),
    decreases n,
{
    if j < n - 1 {
        lemma_min_indent_le(s, ls, n - 1, j);
    }
}

proof fn lemma_dedent_cut(s: Seq<u8>, ls: Seq<(int, int)>, k: int, m: int)
    requires
        valid_utf8(s),
        0 <= k < ls.len(),
        0 <= ls[k].0 <= ls[k].1 <= s.len(),
        0 < m <= ls[k].1 - ls[k].0,
        m == match min_indent(s, ls, ls.len() as int) {
            Some(x) => x,
            None => 0,
        },
    ensures
        is_char_boundary(s, ls[k].0 + m),
{
    let r = ls[k];
    lemma_spaces_bounds(s, r.0, r.1);
    if !is_blank(s, r) {
        lemma_min_indent_le(s, ls, ls.len() as int, k);
    }
    assert(is_space(s[r.0 + m - 1]));
    lemma_ascii_boundaries(s, r.0 + m - 1);
}

fn line_is_blank(b: &[u8], x: usize, y: usize) -> (r: bool)
    requires
        x <= y <= b@.len(),
    ensures
        r == is_blank(b@, (x as int, y as int)),
{
    count_spaces(b, x, y) == y - x
}

/// Strips the common leading whitespace of the non-blank lines, and the
/// blank lines before the first and after the last non-blank line.
///
/// Triple-quoted literals keep their indentation, so the expected value of an
/// inline snapshot is dedented before it is compared.
pub fn dedent(raw: &str) -> (r: String)
    ensures
        utf8(r@) == dedented(raw.spec_bytes()),
{
    let b = raw.as_bytes();
    let ghost bs = b@;
    let len = b.len();
    proof {
        lemma_line_ranges(bs, 0);
    }
    let ghost all = line_ranges(bs, 0);
    // The line ranges.
    let mut v: Vec<(usize, usize)> = Vec::new();
    let mut i: usize = 0;
    while i < len
        invariant
            b@ == bs,
            bs == raw.spec_bytes(),
            valid_utf8(bs),
            len == bs.len(),
            i <= len,
            all == line_ranges(bs, 0),
            ranges_view(v@) + line_ranges(bs, i as int) == all,
        decreases len - i,
    {
        let e = find_line_end(b, i);
        let te = find_line_text_end(b, i);
        proof {
            lemma_line_end_after(bs, i as int);
        }
        let ghost old_v = v@;
        v.push((i, te));
        proof {
            assert(ranges_view(v@) =~= ranges_view(old_v) + seq![(i as int, te as int)]);
        }
        if e >= len {
            i = len;
            proof {
                assert(ranges_view(v@) + line_ranges(bs, i as int) =~= all);
            }
        } else {
            i = e + 1;
            proof {
                assert(ranges_view(v@) + line_ranges(bs, i as int) =~= all);
            }
        }
    }
    proof {
        assert(ranges_view(v@) =~= all);
    }
    let n = v.len();
    assert(all.len() == n);
    // The smallest indentation of the non-blank lines.
    let mut m: usize = 0;
    let mut found = false;
    let mut k: usize = 0;
    while k < n
        invariant
            n == v@.len(),
            n == all.len(),
            ranges_view(v@) == all,
            all == line_ranges(bs, 0),
            bs == b@,
            k <= n,
            forall|j: int|
                0 <= j < all.len() ==> {
                    let r = #[trigger] all[j];
                    &&& 0 <= r.0 <= r.1 <= bs.len()
                    &&& is_char_boundary(bs, r.0)
                    &&& is_char_boundary(bs, r.1)
                },
            found ==> min_indent(bs, all, k as int) == Some(m as int),
            !found ==> min_indent(bs, all, k as int) is None && m == 0,
        decreases n - k,
    {
        let (x, y) = v[k];
        assert(all[k as int] == (x as int, y as int));
        let w = count_spaces(b, x, y);
        if w != y - x {
            if !found || w < m {
                m = w;
            }
            found = true;
        }
        k = k + 1;
    }
    let ghost width = match min_indent(bs, all, all.len() as int) {
        Some(x) => x,
        None => 0,
    };
    assert(m as int == width);
    // The first and last non-blank lines.
    let mut first: usize = 0;
    while first < n && line_is_blank(b, v[first].0, v[first].1)
        invariant
            n == v@.len(),
            n == all.len(),
            ranges_view(v@) == all,
            bs == b@,
            first <= n,
            forall|j: int|
                0 <= j < all.len() ==> {
                    let r = #[trigger] all[j];
                    &&& 0 <= r.0 <= r.1 <= bs.len()
                },
            first_nonblank(bs, all, first as int) == first_nonblank(bs, all, 0),
        decreases n - first,
    {
        first = first + 1;
    }
    proof {
        if first < n {
            assert(all[first as int] == (v@[first as int].0 as int, v@[first as int].1 as int));
        }
    }
    assert(first as int == first_nonblank(bs, all, 0));
    let mut last: usize = n;
    while last > 0 && line_is_blank(b, v[last - 1].0, v[last - 1].1)
        invariant
            n == v@.len(),
            n == all.len(),
            ranges_view(v@) == all,
            bs == b@,
            last <= n,
            forall|j: int|
                0 <= j < all.len() ==> {
                    let r = #[trigger] all[j];
                    &&& 0 <= r.0 <= r.1 <= bs.len()
                },
            last_nonblank_end(bs, all, last as int) == last_nonblank_end(bs, all, n as int),
        decreases last,
    {
        last = last - 1;
    }
    proof {
        if last > 0 {
            assert(all[last - 1] == (v@[last - 1].0 as int, v@[last - 1].1 as int));
        }
    }
    assert(last as int == last_nonblank_end(bs, all, n as int));
    let mut out = empty_text();
    if first >= last {
        return out;
    }
    let ghost target = joined_lines(bs, all, first as int, last as int, width);
    let mut k: usize = first;
    while k < last
        invariant
            n == v@.len(),
            n == all.len(),
            ranges_view(v@) == all,
            bs == b@,
            bs == raw.spec_bytes(),
            valid_utf8(bs),
            first <= k <= last <= n,
            n == all.len(),
            m as int == width,
            width == match min_indent(bs, all, all.len() as int) {
                Some(x) => x,
                None => 0,
            },
            forall|j: int|
                0 <= j < all.len() ==> {
                    let r = #[trigger] all[j];
                    &&& 0 <= r.0 <= r.1 <= bs.len()
                    &&& is_char_boundary(bs, r.0)
                    &&& is_char_boundary(bs, r.1)
                },
            utf8(out@) + joined_lines(bs, all, k as int, last as int, width) == target,
        decreases last - k,
    {
        let (x, y) = v[k];
        assert(all[k as int] == (x as int, y as int));
        let ghost before = utf8(out@);
        if y - x >= m {
            proof {
                if m > 0 {
                    lemma_dedent_cut(bs, all, k as int, width);
                }
            }
            push_range(&mut out, raw, x + m, y);
        }
        proof {
            assert(utf8(out@) =~= before + dedented_line(bs, all[k as int], width));
        }
        if k + 1 < last {
            push_ascii(&mut out, 0x0au8);
        }
        k = k + 1;
        proof {
            assert(utf8(out@) + joined_lines(bs, all, k as int, last as int, width) =~= target);
        }
    }
    proof {
        assert(utf8(out@) =~= target);
    }
    out
}

/// The value of the contents of a string literal: `\\`, `\"`, `\'`, `\n`
/// and `\t` stand for one character each, a backslash before a newline
/// continues the line, and any other backslash stands for itself.
pub open spec fn unescape(s: Seq<u8>) -> Seq<u8>
    decreases s.len(),
{
    if s.len() == 0 {
        seq![]
    } else if s[0] == 0x5cu8 && s.len() >= 2 && (s[1] == 0x0au8 || s[1] == 0x5cu8 || s[1]
        == 0x22u8 || s[1] == 0x27u8 || s[1] == 0x6eu8 || s[1] == 0x74u8) {
        let c = s[1];
        let head = if c == 0x0au8 {
            seq![]
        } else if c == 0x6eu8 {
            seq![0x0au8]
        } else if c == 0x74u8 {
            seq![0x09u8]
        } else {
            seq![c]
        };
        head + unescape(s.subrange(2, s.len() as int))
    } else {
        seq![s[0]] + unescape(s.drop_first())
    }
}

/// The range of the contents of the literal `s[a..b]`, inside its quotes.
pub open spec fn literal_body(s: Seq<u8>, a: int, b: int) -> (int, int) {
    if triple_at(s, a, 0x22u8) || triple_at(s, a, 0x27u8) {
        (a + 3, b - 3)
    } else {
        (a + 1, b - 1)
    }
}

/// The value of the literal `s[a..b]`.
pub open spec fn literal_value(s: Seq<u8>, a: int, b: int) -> Seq<u8> {
    unescape(s.subrange(literal_body(s, a, b).0, literal_body(s, a, b).1))
}

/// Appends the value of the literal contents `t[start..end]`.
pub fn push_unescaped(out: &mut String, t: &str, start: usize, end: usize)
    requires
        start <= end <= t.spec_bytes().len(),
        is_char_boundary(t.spec_bytes(), start as int),
        is_char_boundary(t.spec_bytes(), end as int),
    ensures
        utf8(final(out)@) == utf8(old(out)@) + unescape(
            t.spec_bytes().subrange(start as int, end as int),
        ),
{
    let b = t.as_bytes();
    let ghost bs = b@;
    let ghost target = utf8(old(out)@) + unescape(bs.subrange(start as int, end as int));
    let mut seg = start;
    let mut i = start;
    while i < end
        invariant
            b@ == bs,
            bs == t.spec_bytes(),
            valid_utf8(bs),
            start <= seg <= i <= end <= bs.len(),
            is_char_boundary(bs, seg as int),
            is_char_boundary(bs, end as int),
            utf8(out@) + bs.subrange(seg as int, i as int) + unescape(
                bs.subrange(i as int, end as int),
            ) == target,
        decreases end - i,
    {
        let ghost rest = bs.subrange(i as int, end as int);
        let c = b[i];
        if c == 0x5cu8 && end - i >= 2 && (b[i + 1] == 0x0au8 || b[i + 1] == 0x5cu8 || b[i + 1]
            == 0x22u8 || b[i + 1] == 0x27u8 || b[i + 1] == 0x6eu8 || b[i + 1] == 0x74u8) {
            let d = b[i + 1];
            proof {
                lemma_ascii_boundaries(bs, i as int);
                lemma_ascii_boundaries(bs, i + 1);
                assert(rest[1] == d);
                assert(rest.subrange(2, rest.len() as int) =~= bs.subrange(i + 2, end as int));
            }
            let ghost before = utf8(out@);
            push_range(out, t, seg, i);
            if d == 0x6eu8 {
                push_ascii(out, 0x0au8);
            } else if d == 0x74u8 {
                push_ascii(out, 0x09u8);
            } else if d != 0x0au8 {
                push_ascii(out, d);
            }
            i = i + 2;
            seg = i;
            proof {
                assert(bs.subrange(seg as int, i as int) =~= Seq::<u8>::empty());
                assert(utf8(out@) + bs.subrange(seg as int, i as int) + unescape(
                    bs.subrange(i as int, end as int),
                ) =~= target);
            }
        } else {
            proof {
                assert(rest[0] == c);
                assert(rest.drop_first() =~= bs.subrange(i + 1, end as int));
                assert(bs.subrange(seg as int, i + 1) =~= bs.subrange(seg as int, i as int) + seq![
                    c,
                ]);
            }
            i = i + 1;
            proof {
                assert(utf8(out@) + bs.subrange(seg as int, i as int) + unescape(
                    bs.subrange(i as int, end as int),
                ) =~= target);
            }
        }
    }
    proof {
        assert(unescape(bs.subrange(i as int, end as int)) =~= Seq::<u8>::empty());
    }
    push_range(out, t, seg, end);
    proof {
        assert(utf8(out@) =~= target);
    }
}

} // verus!
