//! The snapshot file format: a header of `key: value` lines ended by a blank
//! line, then the content up to the end of the file.
use vstd::prelude::*;
use vstd::string::*;
use vstd::utf8::*;
use crate::scan::{find_line_end, lemma_line_end_after, line_end, occurs_at, occurs_at_pos};
use crate::snapshot::{decimal, push_decimal};
use crate::text::{empty_text, lemma_ascii_boundaries, lemma_utf8_ascii, push_ascii, push_range, push_text, utf8};

verus! {

broadcast use vstd::utf8::group_utf8_lib;

/// `source: `
pub open spec fn source_key() -> Seq<u8> {
    seq![0x73u8, 0x6fu8, 0x75u8, 0x72u8, 0x63u8, 0x65u8, 0x3au8, 0x20u8]
}

/// `inline_source: `
pub open spec fn inline_source_key() -> Seq<u8> {
    seq![
        0x69u8, 0x6eu8, 0x6cu8, 0x69u8, 0x6eu8, 0x65u8, 0x5fu8, 0x73u8, 0x6fu8, 0x75u8, 0x72u8,
        0x63u8, 0x65u8, 0x3au8, 0x20u8,
    ]
}

/// `inline_line: `
pub open spec fn inline_line_key() -> Seq<u8> {
    seq![
        0x69u8, 0x6eu8, 0x6cu8, 0x69u8, 0x6eu8, 0x65u8, 0x5fu8, 0x6cu8, 0x69u8, 0x6eu8, 0x65u8,
        0x3au8, 0x20u8,
    ]
}

/// The value of the decimal digits `s[i..e]`, when they are one or more
/// digits.
pub open spec fn digits_value(s: Seq<u8>, i: int, e: int) -> Option<nat>
    decreases e - i,
{
    if e <= i || !(0x30u8 <= s[e - 1] <= 0x39u8) {
        None
    } else if e - 1 == i {
        Some((s[e - 1] - 0x30u8) as nat)
    } else {
        match digits_value(s, i, e - 1) {
            Some(v) => Some(v * 10 + (s[e - 1] - 0x30u8) as nat),
            None => None,
        }
    }
}

/// Header values found so far: the ranges of `source` and `inline_source`
/// and the number of `inline_line`.
pub type HeaderView = (Option<(int, int)>, Option<(int, int)>, Option<nat>);

/// The header after the line `s[i..e]`: a known key sets its value (a later
/// line wins); an `inline_line` that is not a number fitting `u32` and any
/// other line change nothing.
pub open spec fn header_line(h: HeaderView, s: Seq<u8>, i: int, e: int) -> HeaderView {
    if i + 8 <= e && occurs_at(s, i, source_key()) {
        (Some((i + 8, e)), h.1, h.2)
    } else if i + 15 <= e && occurs_at(s, i, inline_source_key()) {
        (h.0, Some((i + 15, e)), h.2)
    } else if i + 13 <= e && occurs_at(s, i, inline_line_key()) {
        match digits_value(s, i + 13, e) {
            Some(v) => if v <= u32::MAX {
                (h.0, h.1, Some(v))
            } else {
                h
            },
            None => h,
        }
    } else {
        h
    }
}

/// The header read from the lines starting at `i`, and where the content
/// starts; `None` when no blank line ends the header.
#[verifier::opaque]
pub open spec fn parse_header(s: Seq<u8>, i: int, h: HeaderView) -> Option<(HeaderView, int)>
    decreases s.len() + 1 - i,
{
    if i < 0 || i >= s.len() {
        None
    } else {
        proof {
            lemma_line_end_after(s, i);
        }
        let e = line_end(s, i);
        if e == i {
            Some((h, i + 1))
        } else if e >= s.len() {
            None
        } else {
            parse_header(s, e + 1, header_line(h, s, i, e))
        }
    }
}

/// A snapshot file: its metadata and its content.
pub struct SnapshotFile {
    /// `relative_file:line::test_name`.
    pub source: Option<String>,
    /// For an inline snapshot, the source file to rewrite.
    pub inline_source: Option<String>,
    /// For an inline snapshot, the 1-based line of the call.
    pub inline_line: Option<u32>,
    pub content: String,
}

pub open spec fn opt_bytes(o: Option<String>) -> Option<Seq<u8>> {
    match o {
        Some(t) => Some(utf8(t@)),
        None => None,
    }
}

pub open spec fn range_bytes(s: Seq<u8>, o: Option<(int, int)>) -> Option<Seq<u8>> {
    match o {
        Some(r) => Some(s.subrange(r.0, r.1)),
        None => None,
    }
}

/// What parsing `s` gives: source, inline source, inline line and content.
pub open spec fn parsed_file(s: Seq<u8>) -> Option<
    (Option<Seq<u8>>, Option<Seq<u8>>, Option<nat>, Seq<u8>),
> {
    match parse_header(s, 0, (None, None, None)) {
        None => None,
        Some((h, c)) => Some(
            (range_bytes(s, h.0), range_bytes(s, h.1), h.2, s.subrange(c, s.len() as int)),
        ),
    }
}

impl SnapshotFile {
    pub open spec fn view(&self) -> (Option<Seq<u8>>, Option<Seq<u8>>, Option<nat>, Seq<u8>) {
        (
            opt_bytes(self.source),
            opt_bytes(self.inline_source),
            match self.inline_line {
                Some(n) => Some(n as nat),
                None => None,
            },
            utf8(self.content@),
        )
    }
}

fn key_bytes(k: u8) -> (r: Vec<u8>)
    requires
        k < 3,
    ensures
        r@ == if k == 0 {
            source_key()
        } else if k == 1 {
            inline_source_key()
        } else {
            inline_line_key()
        },
{
    let r = if k == 0 {
        vec![0x73u8, 0x6fu8, 0x75u8, 0x72u8, 0x63u8, 0x65u8, 0x3au8, 0x20u8]
    } else if k == 1 {
        vec![
            0x69u8, 0x6eu8, 0x6cu8, 0x69u8, 0x6eu8, 0x65u8, 0x5fu8, 0x73u8, 0x6fu8, 0x75u8, 0x72u8,
            0x63u8, 0x65u8, 0x3au8, 0x20u8,
        ]
    } else {
        vec![
            0x69u8, 0x6eu8, 0x6cu8, 0x69u8, 0x6eu8, 0x65u8, 0x5fu8, 0x6cu8, 0x69u8, 0x6eu8, 0x65u8,
            0x3au8, 0x20u8,
        ]
    };
    assert(r@ =~= (if k == 0 {
        source_key()
    } else if k == 1 {
        inline_source_key()
    } else {
        inline_line_key()
    }));
    r
}

/// The value of the digits `b[i..e]` when it fits `u32`.
fn parse_u32(b: &[u8], i: usize, e: usize) -> (r: Option<u32>)
    requires
        i <= e <= b@.len(),
    ensures
        match r {
            Some(v) => digits_value(b@, i as int, e as int) == Some(v as nat),
            None => digits_value(b@, i as int, e as int) is None || digits_value(
                b@,
                i as int,
                e as int,
            ).unwrap() > u32::MAX,
        },
{
    if e == i {
        return None;
    }
    let mut v: u64 = 0;
    let mut k = i;
    while k < e
        invariant
            i <= k <= e <= b@.len(),
            k > i ==> digits_value(b@, i as int, k as int) == Some(v as nat),
            k == i ==> v == 0,
            v <= u32::MAX,
        decreases e - k,
    {
        let c = b[k];
        if !(0x30u8 <= c && c <= 0x39u8) {
            proof {
                lemma_digits_none(b@, i as int, k as int, e as int);
            }
            return None;
        }
        let nv = v * 10 + (c - 0x30u8) as u64;
        if nv > 0xffff_ffffu64 {
            proof {
                lemma_digits_grow(b@, i as int, k + 1, e as int);
            }
            return None;
        }
        v = nv;
        k = k + 1;
    }
    Some(v as u32)
}

proof fn lemma_digits_none(s: Seq<u8>, i: int, k: int, e: int)
    requires
        i <= k < e <= s.len(),
        !(0x30u8 <= s[k] <= 0x39u8),
    ensures
        digits_value(s, i, e) is None,
    decreases e - k,
{
    if e - 1 > k {
        lemma_digits_none(s, i, k, e - 1);
    }
}

proof fn lemma_digits_grow(s: Seq<u8>, i: int, k: int, e: int)
    requires
        i < k <= e <= s.len(),
        digits_value(s, i, k) matches Some(v) && v > u32::MAX,
    ensures
        digits_value(s, i, e) is None || digits_value(s, i, e).unwrap() > u32::MAX,
    decreases e - k,
{
    if e > k {
        lemma_digits_grow(s, i, k, e - 1);
        if digits_value(s, i, e - 1) is Some {
            assert(digits_value(s, i, e - 1).unwrap() * 10 >= digits_value(s, i, e - 1).unwrap())
                by (nonlinear_arith);
        }
    }
}

pub open spec fn widen_range(o: Option<(usize, usize)>) -> Option<(int, int)> {
    match o {
        Some(r) => Some((r.0 as int, r.1 as int)),
        None => None,
    }
}

fn take_range(text: &str, o: Option<(usize, usize)>) -> (r: Option<String>)
    requires
        o matches Some(x) ==> x.0 <= x.1 <= text.spec_bytes().len() && is_char_boundary(
            text.spec_bytes(),
            x.0 as int,
        ) && is_char_boundary(text.spec_bytes(), x.1 as int),
    ensures
        opt_bytes(r) == range_bytes(text.spec_bytes(), widen_range(o)),
{
    match o {
        Some((x, y)) => {
            let mut t = empty_text();
            push_range(&mut t, text, x, y);
            proof {
                assert(utf8(t@) =~= text.spec_bytes().subrange(x as int, y as int));
            }
            Some(t)
        },
        None => None,
    }
}

/// A header line's value starts after its key's ASCII space, a boundary.
proof fn lemma_value_boundary(s: Seq<u8>, i: int, key: Seq<u8>)
    requires
        valid_utf8(s),
        key.len() > 0,
        key.last() == 0x20u8,
        i + key.len() <= s.len(),
        occurs_at(s, i, key),
    ensures
        is_char_boundary(s, i + key.len()),
{
    assert(s[i + key.len() - 1] == key[key.len() - 1]);
    lemma_ascii_boundaries(s, i + key.len() - 1);
}

impl SnapshotFile {
    /// Parses a snapshot file; `None` when no blank line ends its header.
    pub fn parse(text: &str) -> (r: Option<SnapshotFile>)
        ensures
            match r {
                Some(f) => parsed_file(text.spec_bytes()) == Some(f.view()),
                None => parsed_file(text.spec_bytes()) is None,
            },
    {
        proof {
            reveal(parse_header);
        }
        let b = text.as_bytes();
        let ghost bs = b@;
        let len = b.len();
        let k0 = key_bytes(0);
        let k1 = key_bytes(1);
        let k2 = key_bytes(2);
        let mut source: Option<(usize, usize)> = None;
        let mut inline_source: Option<(usize, usize)> = None;
        let mut inline_line: Option<u32> = None;
        let mut i: usize = 0;
        loop
            invariant
                b@ == bs,
                bs == text.spec_bytes(),
                valid_utf8(bs),
                len == bs.len(),
                i <= len,
                k0@ == source_key(),
                k1@ == inline_source_key(),
                k2@ == inline_line_key(),
                source matches Some(x) ==> x.0 <= x.1 <= len && is_char_boundary(bs, x.0 as int)
                    && is_char_boundary(bs, x.1 as int),
                inline_source matches Some(x) ==> x.0 <= x.1 <= len && is_char_boundary(
                    bs,
                    x.0 as int,
                ) && is_char_boundary(bs, x.1 as int),
                parse_header(
                    bs,
                    i as int,
                    (
                        widen_range(source),
                        widen_range(inline_source),
                        match inline_line {
                            Some(n) => Some(n as nat),
                            None => None,
                        },
                    ),
                ) == parse_header(bs, 0, (None, None, None)),
            decreases len - i,
        {
            proof {
                reveal(parse_header);
            }
            if i >= len {
                return None;
            }
            let e = find_line_end(b, i);
            proof {
                lemma_line_end_after(bs, i as int);
            }
            if e == i {
                proof {
                    lemma_ascii_boundaries(bs, i as int);
                }
                let content_start = i + 1;
                let mut content = empty_text();
                push_range(&mut content, text, content_start, len);
                let src = take_range(text, source);
                let isrc = take_range(text, inline_source);
                return Some(SnapshotFile { source: src, inline_source: isrc, inline_line, content });
            }
            if e >= len {
                return None;
            }
            proof {
                lemma_ascii_boundaries(bs, e as int);
            }
            if e - i >= 8 && occurs_at_pos(b, i, k0.as_slice()) {
                proof {
                    lemma_value_boundary(bs, i as int, source_key());
                }
                source = Some((i + 8, e));
            } else if e - i >= 15 && occurs_at_pos(b, i, k1.as_slice()) {
                proof {
                    lemma_value_boundary(bs, i as int, inline_source_key());
                }
                inline_source = Some((i + 15, e));
            } else if e - i >= 13 && occurs_at_pos(b, i, k2.as_slice()) {
                match parse_u32(b, i + 13, e) {
                    Some(v) => {
                        inline_line = Some(v);
                    },
                    None => {},
                }
            }
            i = e + 1;
        }
    }
}

/// The header line of a source value.
pub open spec fn source_line(source: Option<Seq<u8>>) -> Seq<u8> {
    match source {
        Some(v) => source_key() + v + seq![0x0au8],
        None => seq![],
    }
}

/// The header line of an inline source value.
pub open spec fn inline_source_line(inline_source: Option<Seq<u8>>) -> Seq<u8> {
    match inline_source {
        Some(v) => inline_source_key() + v + seq![0x0au8],
        None => seq![],
    }
}

/// The header line of an inline line number.
pub open spec fn inline_line_line(inline_line: Option<nat>) -> Seq<u8> {
    match inline_line {
        Some(n) => inline_line_key() + decimal(n) + seq![0x0au8],
        None => seq![],
    }
}

/// The serialized form of a snapshot file with the given source, inline
/// source, inline line and content.
pub open spec fn serialized(
    source: Option<Seq<u8>>,
    inline_source: Option<Seq<u8>>,
    inline_line: Option<nat>,
    content: Seq<u8>,
) -> Seq<u8> {
    source_line(source) + inline_source_line(inline_source) + inline_line_line(inline_line) + seq![
        0x0au8,
    ] + content
}

impl SnapshotFile {
    /// The file's text: its header lines, a blank line, then the content.
    pub fn serialize(&self) -> (r: String)
        ensures
            utf8(r@) == serialized(self.view().0, self.view().1, self.view().2, self.view().3),
    {
        let mut out = empty_text();
        let k0 = "source: ";
        let k1 = "inline_source: ";
        let k2 = "inline_line: ";
        proof {
            reveal_strlit("source: ");
            reveal_strlit("inline_source: ");
            reveal_strlit("inline_line: ");
            lemma_utf8_ascii(k0@);
            lemma_utf8_ascii(k1@);
            lemma_utf8_ascii(k2@);
            assert(k0.spec_bytes() =~= source_key());
            assert(k1.spec_bytes() =~= inline_source_key());
            assert(k2.spec_bytes() =~= inline_line_key());
        }
        let ghost v = self.view();
        let ghost first_line = source_line(v.0);
        let ghost second_line = inline_source_line(v.1);
        let ghost third_line = inline_line_line(v.2);
        match &self.source {
            Some(t) => {
                push_text(&mut out, k0);
                push_text(&mut out, t.as_str());
                push_ascii(&mut out, 0x0au8);
            },
            None => {},
        }
        assert(utf8(out@) =~= first_line);
        match &self.inline_source {
            Some(t) => {
                push_text(&mut out, k1);
                push_text(&mut out, t.as_str());
                push_ascii(&mut out, 0x0au8);
            },
            None => {},
        }
        assert(utf8(out@) =~= first_line + second_line);
        match self.inline_line {
            Some(n) => {
                push_text(&mut out, k2);
                push_decimal(&mut out, n);
                push_ascii(&mut out, 0x0au8);
            },
            None => {},
        }
        assert(utf8(out@) =~= first_line + second_line + third_line);
        push_ascii(&mut out, 0x0au8);
        push_text(&mut out, self.content.as_str());
        proof {
            assert(utf8(out@) =~= serialized(v.0, v.1, v.2, v.3));
        }
        out
    }
}

/// `v` holds no newline.
pub open spec fn one_line(v: Seq<u8>) -> bool {
    forall|k: int| 0 <= k < v.len() ==> v[k] != 0x0au8
}

proof fn lemma_line_end_at(s: Seq<u8>, i: int, j: int)
    requires
        0 <= i <= j < s.len(),
        s[j] == 0x0au8,
        forall|k: int| i <= k < j ==> s[k] != 0x0au8,
    ensures
        line_end(s, i) == j,
    decreases j - i,
{
    if i < j {
        lemma_line_end_at(s, i + 1, j);
    }
}

proof fn lemma_decimal_shape(n: nat)
    ensures
        decimal(n).len() >= 1,
        forall|k: int| 0 <= k < decimal(n).len() ==> 0x30u8 <= #[trigger] decimal(n)[k] <= 0x39u8,
    decreases n,
{
    if n >= 10 {
        lemma_decimal_shape(n / 10);
        let d = decimal(n / 10);
        assert forall|k: int| 0 <= k < decimal(n).len() implies 0x30u8 <= #[trigger] decimal(n)[k]
            <= 0x39u8 by {
            if k < d.len() {
                assert(decimal(n)[k] == d[k]);
            }
        }
    }
}

proof fn lemma_digits_of_decimal(s: Seq<u8>, i: int, n: nat)
    requires
        0 <= i,
        i + decimal(n).len() <= s.len(),
        forall|k: int| 0 <= k < decimal(n).len() ==> s[i + k] == #[trigger] decimal(n)[k],
    ensures
        digits_value(s, i, i + decimal(n).len()) == Some(n),
    decreases n,
{
    lemma_decimal_shape(n);
    let e = i + decimal(n).len();
    assert(s[e - 1] == decimal(n)[decimal(n).len() - 1]);
    if n < 10 {
    } else {
        let d = decimal(n / 10);
        lemma_decimal_shape(n / 10);
        assert forall|k: int| 0 <= k < d.len() implies s[i + k] == #[trigger] d[k] by {
            assert(decimal(n)[k] == d[k]);
        }
        lemma_digits_of_decimal(s, i, n / 10);
        assert(e - 1 == i + d.len());
        assert((n / 10) * 10 + n % 10 == n) by (nonlinear_arith);
    }
}

/// One header line `key v` and its newline, starting at `i`.
proof fn lemma_header_step(s: Seq<u8>, i: int, key: Seq<u8>, v: Seq<u8>, h: HeaderView)
    requires
        0 <= i,
        key.len() > 0,
        one_line(key),
        one_line(v),
        i + key.len() + v.len() < s.len(),
        forall|k: int| 0 <= k < key.len() ==> s[i + k] == #[trigger] key[k],
        forall|k: int| 0 <= k < v.len() ==> s[i + key.len() + k] == #[trigger] v[k],
        s[i + key.len() + v.len()] == 0x0au8,
    ensures
        parse_header(s, i, h) == parse_header(
            s,
            i + key.len() + v.len() + 1,
            header_line(h, s, i, i + key.len() + v.len()),
        ),
{
    let j = i + key.len() + v.len();
    assert forall|k: int| i <= k < j implies s[k] != 0x0au8 by {
        if k < i + key.len() {
            assert(s[k] == key[k - i]);
        } else {
            assert(s[k] == v[k - i - key.len()]);
        }
    }
    lemma_line_end_at(s, i, j);
    assert(s[i] == key[0]);
    reveal(parse_header);
}

proof fn lemma_header_ends(s: Seq<u8>, q: int, h: HeaderView)
    requires
        0 <= q < s.len(),
        s[q] == 0x0au8,
    ensures
        parse_header(s, q, h) == Some((h, q + 1)),
{
    lemma_line_end_at(s, q, q);
    reveal(parse_header);
}

proof fn lemma_piece(s: Seq<u8>, o: int, key: Seq<u8>, v: Seq<u8>, h: HeaderView)
    requires
        0 <= o,
        key.len() > 0,
        one_line(key),
        one_line(v),
        o + key.len() + v.len() < s.len(),
        s.subrange(o, o + key.len() + v.len() + 1) == key + v + seq![0x0au8],
    ensures
        parse_header(s, o, h) == parse_header(
            s,
            o + key.len() + v.len() + 1,
            header_line(h, s, o, o + key.len() + v.len()),
        ),
        forall|k: int| 0 <= k < key.len() ==> s[o + k] == #[trigger] key[k],
        forall|k: int| 0 <= k < v.len() ==> s[o + key.len() + k] == #[trigger] v[k],
        s.subrange(o + key.len(), o + key.len() + v.len()) == v,
{
    let piece = key + v + seq![0x0au8];
    assert forall|k: int| 0 <= k < key.len() implies s[o + k] == #[trigger] key[k] by {
        assert(s.subrange(o, o + piece.len())[k] == piece[k]);
    }
    assert forall|k: int| 0 <= k < v.len() implies s[o + key.len() + k] == #[trigger] v[k] by {
        assert(s.subrange(o, o + piece.len())[key.len() + k] == piece[key.len() + k]);
    }
    assert(s.subrange(o, o + piece.len())[key.len() + v.len() as int] == piece[key.len() + v.len() as int]);
    lemma_header_step(s, o, key, v, h);
    assert(s.subrange(o + key.len(), o + key.len() + v.len()) =~= v);
}

proof fn lemma_source_piece(s: Seq<u8>, v: Seq<u8>)
    requires
        one_line(v),
        8 + v.len() < s.len(),
        s.subrange(0, 9 + v.len() as int) == source_key() + v + seq![0x0au8],
    ensures
        parse_header(s, 0, (None, None, None)) == parse_header(
            s,
            9 + v.len() as int,
            (Some((8, 8 + v.len() as int)), None, None),
        ),
        s.subrange(8, 8 + v.len() as int) == v,
{
    lemma_piece(s, 0, source_key(), v, (None, None, None));
}

proof fn lemma_inline_source_piece(s: Seq<u8>, o: int, v: Seq<u8>, h: HeaderView)
    requires
        0 <= o,
        one_line(v),
        o + 15 + v.len() < s.len(),
        s.subrange(o, o + 16 + v.len()) == inline_source_key() + v + seq![0x0au8],
    ensures
        parse_header(s, o, h) == parse_header(
            s,
            o + 16 + v.len(),
            (h.0, Some((o + 15, o + 15 + v.len())), h.2),
        ),
        s.subrange(o + 15, o + 15 + v.len()) == v,
{
    lemma_piece(s, o, inline_source_key(), v, h);
    assert(s[o] != source_key()[0]);
}

proof fn lemma_inline_line_piece(s: Seq<u8>, o: int, n: nat, h: HeaderView)
    requires
        0 <= o,
        n <= u32::MAX,
        o + 13 + decimal(n).len() < s.len(),
        s.subrange(o, o + 14 + decimal(n).len()) == inline_line_key() + decimal(n) + seq![0x0au8],
    ensures
        parse_header(s, o, h) == parse_header(s, o + 14 + decimal(n).len(), (h.0, h.1, Some(n))),
{
    let d = decimal(n);
    lemma_decimal_shape(n);
    assert(one_line(d)) by {
        assert forall|k: int| 0 <= k < d.len() implies d[k] != 0x0au8 by {
            assert(0x30u8 <= d[k]);
        }
    }
    lemma_piece(s, o, inline_line_key(), d, h);
    lemma_digits_of_decimal(s, o + 13, n);
    assert(s[o] != source_key()[0]);
    assert(s[o + 7] != inline_source_key()[7]);
}

proof fn lemma_layout(
    source: Option<Seq<u8>>,
    inline_source: Option<Seq<u8>>,
    inline_line: Option<nat>,
    content: Seq<u8>,
)
    ensures
        ({
            let s = serialized(source, inline_source, inline_line, content);
            let o1 = source_line(source).len() as int;
            let o2 = o1 + inline_source_line(inline_source).len();
            let q = o2 + inline_line_line(inline_line).len();
            &&& s.len() == q + 1 + content.len()
            &&& s.subrange(0, o1) == source_line(source)
            &&& s.subrange(o1, o2) == inline_source_line(inline_source)
            &&& s.subrange(o2, q) == inline_line_line(inline_line)
            &&& s[q] == 0x0au8
            &&& s.subrange(q + 1, s.len() as int) == content
        }),
{
    let s = serialized(source, inline_source, inline_line, content);
    let first_line = source_line(source);
    let second_line = inline_source_line(inline_source);
    let third_line = inline_line_line(inline_line);
    let o1 = first_line.len() as int;
    let o2 = o1 + second_line.len();
    let q = o2 + third_line.len();
    assert(s.subrange(0, o1) =~= first_line);
    assert(s.subrange(o1, o2) =~= second_line);
    assert(s.subrange(o2, q) =~= third_line);
    assert(s.subrange(q + 1, s.len() as int) =~= content);
}

/// Serializing and then parsing a snapshot file gives back its source,
/// inline source, inline line and content, byte for byte, when the metadata
/// values are single lines and the line number fits `u32`.
pub proof fn law_snapshot_file_round_trip(
    source: Option<Seq<u8>>,
    inline_source: Option<Seq<u8>>,
    inline_line: Option<nat>,
    content: Seq<u8>,
)
    requires
        source matches Some(v) ==> one_line(v),
        inline_source matches Some(v) ==> one_line(v),
        inline_line matches Some(n) ==> n <= u32::MAX,
    ensures
        parsed_file(serialized(source, inline_source, inline_line, content)) == Some(
            (source, inline_source, inline_line, content),
        ),
{
    lemma_layout(source, inline_source, inline_line, content);
    let s = serialized(source, inline_source, inline_line, content);
    let o1 = source_line(source).len() as int;
    let o2 = o1 + inline_source_line(inline_source).len();
    let q = o2 + inline_line_line(inline_line).len();
    let h1: HeaderView = match source {
        Some(v) => (Some((8, 8 + v.len() as int)), None, None),
        None => (None, None, None),
    };
    let h2: HeaderView = match inline_source {
        Some(v) => (h1.0, Some((o1 + 15, o1 + 15 + v.len())), h1.2),
        None => h1,
    };
    let h3: HeaderView = match inline_line {
        Some(n) => (h2.0, h2.1, Some(n)),
        None => h2,
    };
    if let Some(v) = source {
        lemma_source_piece(s, v);
    }
    assert(parse_header(s, 0, (None, None, None)) == parse_header(s, o1, h1));
    if let Some(v) = inline_source {
        lemma_inline_source_piece(s, o1, v, h1);
    }
    assert(parse_header(s, o1, h1) == parse_header(s, o2, h2));
    if let Some(n) = inline_line {
        lemma_inline_line_piece(s, o2, n, h2);
    }
    assert(parse_header(s, o2, h2) == parse_header(s, q, h3));
    lemma_header_ends(s, q, h3);
}

} // verus!
