//! Lexer-lite scanners over the bytes of guest-language source: quoted
//! strings (single and triple, with backslash escapes), line comments,
//! bracket depth and keyword search.
use vstd::prelude::*;

verus! {

/// An optional byte position, widened to a mathematical integer.
pub open spec fn widen(o: Option<usize>) -> Option<int> {
    match o {
        Some(x) => Some(x as int),
        None => None,
    }
}

/// True when one of the ASCII whitespace characters stands at `b`.
pub open spec fn is_space(b: u8) -> bool {
    b == 0x20u8 || b == 0x09u8 || b == 0x0au8 || b == 0x0bu8 || b == 0x0cu8 || b == 0x0du8
}

pub fn is_space_byte(b: u8) -> (r: bool)
    ensures
        r == is_space(b),
{
    b == 0x20u8 || b == 0x09u8 || b == 0x0au8 || b == 0x0bu8 || b == 0x0cu8 || b == 0x0du8
}

/// True when `p` occurs in `s` at position `i`.
pub open spec fn occurs_at(s: Seq<u8>, i: int, p: Seq<u8>) -> bool {
    0 <= i && i + p.len() <= s.len() && forall|k: int| 0 <= k < p.len() ==> s[i + k] == p[k]
}

/// True when three copies of the quote byte `q` start at position `i`.
pub open spec fn triple_at(s: Seq<u8>, i: int, q: u8) -> bool {
    0 <= i && i + 3 <= s.len() && s[i] == q && s[i + 1] == q && s[i + 2] == q
}

/// Position of the quote byte `q` that closes a single-quoted string whose
/// contents start at `i`; a backslash escapes the byte after it.
pub open spec fn quote_end(s: Seq<u8>, i: int, q: u8) -> Option<int>
    decreases s.len() + 1 - i,
{
    if i < 0 || i >= s.len() {
        None
    } else if s[i] == 0x5cu8 {
        quote_end(s, i + 2, q)
    } else if s[i] == q {
        Some(i)
    } else {
        quote_end(s, i + 1, q)
    }
}

/// Position of the three quote bytes `q` that close a triple-quoted string
/// whose contents start at `i`.
pub open spec fn triple_quote_end(s: Seq<u8>, i: int, q: u8) -> Option<int>
    decreases s.len() + 1 - i,
{
    if i < 0 || i >= s.len() {
        None
    } else if s[i] == 0x5cu8 {
        triple_quote_end(s, i + 2, q)
    } else if triple_at(s, i, q) {
        Some(i)
    } else {
        triple_quote_end(s, i + 1, q)
    }
}

/// The first newline at or after `i`, or the end of `s`.
pub open spec fn line_end(s: Seq<u8>, i: int) -> int
    decreases s.len() + 1 - i,
{
    if i < 0 || i >= s.len() {
        s.len() as int
    } else if s[i] == 0x0au8 {
        i
    } else {
        line_end(s, i + 1)
    }
}

pub proof fn lemma_quote_end_after(s: Seq<u8>, i: int, q: u8)
    ensures
        quote_end(s, i, q) matches Some(e) ==> i <= e < s.len() && s[e] == q,
    decreases s.len() + 1 - i,
{
    if 0 <= i < s.len() {
        if s[i] == 0x5cu8 {
            lemma_quote_end_after(s, i + 2, q);
        } else if s[i] != q {
            lemma_quote_end_after(s, i + 1, q);
        }
    }
}

pub proof fn lemma_triple_quote_end_after(s: Seq<u8>, i: int, q: u8)
    ensures
        triple_quote_end(s, i, q) matches Some(e) ==> i <= e && triple_at(s, e, q),
    decreases s.len() + 1 - i,
{
    if 0 <= i < s.len() {
        if s[i] == 0x5cu8 {
            lemma_triple_quote_end_after(s, i + 2, q);
        } else if !triple_at(s, i, q) {
            lemma_triple_quote_end_after(s, i + 1, q);
        }
    }
}

pub proof fn lemma_line_end_after(s: Seq<u8>, i: int)
    requires
        0 <= i <= s.len(),
    ensures
        i <= line_end(s, i) <= s.len(),
        line_end(s, i) < s.len() ==> s[line_end(s, i)] == 0x0au8,
        forall|k: int| i <= k < line_end(s, i) ==> s[k] != 0x0au8,
    decreases s.len() + 1 - i,
{
    if 0 <= i < s.len() && s[i] != 0x0au8 {
        lemma_line_end_after(s, i + 1);
    }
}

/// Where the string that opens at `i` (with the quote byte `s[i]`) ends:
/// the position just past its closing quote(s).
pub open spec fn skip_string(s: Seq<u8>, i: int, limit: int) -> Option<int> {
    let q = s[i];
    if i + 2 < limit && s[i + 1] == q && s[i + 2] == q {
        match triple_quote_end(s, i + 3, q) {
            Some(e) => Some(e + 3),
            None => None,
        }
    } else {
        match quote_end(s, i + 1, q) {
            Some(e) => Some(e + 1),
            None => None,
        }
    }
}

pub proof fn lemma_skip_string_after(s: Seq<u8>, i: int, limit: int)
    requires
        0 <= i < s.len(),
    ensures
        skip_string(s, i, limit) matches Some(n) ==> i < n <= s.len(),
{
    lemma_triple_quote_end_after(s, i + 3, s[i]);
    lemma_quote_end_after(s, i + 1, s[i]);
}

pub open spec fn is_quote(b: u8) -> bool {
    b == 0x22u8 || b == 0x27u8
}

/// The position of the parenthesis that closes the bracket nesting when
/// scanning from `i` with `depth` brackets open, skipping strings and
/// comments.
pub open spec fn close_paren_from(s: Seq<u8>, i: int, depth: int) -> Option<int>
    decreases s.len() + 1 - i,
{
    if i < 0 || i >= s.len() {
        None
    } else if s[i] == 0x28u8 {
        close_paren_from(s, i + 1, depth + 1)
    } else if s[i] == 0x29u8 {
        if depth - 1 == 0 {
            Some(i)
        } else {
            close_paren_from(s, i + 1, depth - 1)
        }
    } else if is_quote(s[i]) {
        proof {
            lemma_skip_string_after(s, i, s.len() as int);
        }
        match skip_string(s, i, s.len() as int) {
            Some(n) => close_paren_from(s, n, depth),
            None => None,
        }
    } else if s[i] == 0x23u8 {
        proof {
            lemma_line_end_after(s, i);
        }
        close_paren_from(s, line_end(s, i) + 1, depth)
    } else {
        close_paren_from(s, i + 1, depth)
    }
}

/// The first position in `[i, end)` where `kw` occurs outside strings and
/// comments.
pub open spec fn keyword_from(s: Seq<u8>, i: int, end: int, kw: Seq<u8>) -> Option<int>
    decreases s.len() + 1 - i,
{
    if i < 0 || i >= end || i >= s.len() {
        None
    } else if is_quote(s[i]) {
        proof {
            lemma_skip_string_after(s, i, end);
        }
        match skip_string(s, i, end) {
            Some(n) => keyword_from(s, n, end, kw),
            None => None,
        }
    } else if s[i] == 0x23u8 {
        proof {
            lemma_line_end_after(s, i);
        }
        keyword_from(s, if line_end(s, i) < end { line_end(s, i) } else { end }, end, kw)
    } else if occurs_at(s, i, kw) {
        Some(i)
    } else {
        keyword_from(s, i + 1, end, kw)
    }
}

/// Finds the quote byte `q` that closes a single-quoted string whose contents
/// start at `start`.
pub fn find_single_quote_end(b: &[u8], start: usize, q: u8) -> (r: Option<usize>)
    ensures
        widen(r) == quote_end(b@, start as int, q),
{
    let len = b.len();
    let mut i = start;
    while i < len
        invariant
            len == b@.len(),
            quote_end(b@, i as int, q) == quote_end(b@, start as int, q),
        decreases len - i,
    {
        if b[i] == 0x5cu8 {
            if len - i <= 2 {
                proof {
                    assert(quote_end(b@, i + 2, q) == quote_end(b@, len as int, q));
                }
                i = len;
            } else {
                i = i + 2;
            }
        } else if b[i] == q {
            return Some(i);
        } else {
            i = i + 1;
        }
    }
    None
}

/// Finds the three quote bytes `q` that close a triple-quoted string whose
/// contents start at `start`.
pub fn find_triple_quote_end(b: &[u8], start: usize, q: u8) -> (r: Option<usize>)
    ensures
        widen(r) == triple_quote_end(b@, start as int, q),
{
    let len = b.len();
    let mut i = start;
    while i < len
        invariant
            len == b@.len(),
            triple_quote_end(b@, i as int, q) == triple_quote_end(b@, start as int, q),
        decreases len - i,
    {
        if b[i] == 0x5cu8 {
            if len - i <= 2 {
                proof {
                    assert(triple_quote_end(b@, i + 2, q) == triple_quote_end(b@, len as int, q));
                }
                i = len;
            } else {
                i = i + 2;
            }
        } else if len - i >= 3 && b[i] == q && b[i + 1] == q && b[i + 2] == q {
            return Some(i);
        } else {
            i = i + 1;
        }
    }
    None
}

/// The first newline at or after `start`, or the length of `b`.
pub fn find_line_end(b: &[u8], start: usize) -> (r: usize)
    requires
        start <= b@.len(),
    ensures
        r == line_end(b@, start as int),
{
    let len = b.len();
    let mut i = start;
    while i < len
        invariant
            len == b@.len(),
            start <= i <= len,
            line_end(b@, i as int) == line_end(b@, start as int),
        decreases len - i,
    {
        if b[i] == 0x0au8 {
            return i;
        }
        i = i + 1;
    }
    len
}

/// Skips the string literal that opens at `i`; `limit` bounds where a
/// triple quote may start.
pub fn skip_string_literal(b: &[u8], i: usize, limit: usize) -> (r: Option<usize>)
    requires
        i < b@.len(),
        limit <= b@.len(),
    ensures
        widen(r) == skip_string(b@, i as int, limit as int),
{
    let q = b[i];
    if limit > i && limit - i > 2 && b[i + 1] == q && b[i + 2] == q {
        match find_triple_quote_end(b, i + 3, q) {
            Some(e) => {
                proof {
                    lemma_triple_quote_end_after(b@, i + 3, q);
                }
                Some(e + 3)
            },
            None => None,
        }
    } else {
        match find_single_quote_end(b, i + 1, q) {
            Some(e) => {
                proof {
                    lemma_quote_end_after(b@, i + 1, q);
                }
                Some(e + 1)
            },
            None => None,
        }
    }
}

/// Finds the parenthesis that closes the one opened at `open`, tracking
/// nesting depth and skipping strings and comments.
pub fn find_matching_close_paren(b: &[u8], open: usize) -> (r: Option<usize>)
    ensures
        widen(r) == close_paren_from(b@, open as int, 0),
{
    let len = b.len();
    if open >= len {
        return None;
    }
    let mut i = open;
    let mut opened: usize = 0;
    let mut closed: usize = 0;
    while i < len
        invariant
            len == b@.len(),
            open <= i <= len,
            opened + closed <= i,
            close_paren_from(b@, i as int, opened - closed) == close_paren_from(
                b@,
                open as int,
                0,
            ),
        decreases len - i,
    {
        let c = b[i];
        if c == 0x28u8 {
            opened = opened + 1;
            i = i + 1;
        } else if c == 0x29u8 {
            closed = closed + 1;
            if opened == closed {
                return Some(i);
            }
            i = i + 1;
        } else if c == 0x22u8 || c == 0x27u8 {
            proof {
                lemma_skip_string_after(b@, i as int, len as int);
            }
            match skip_string_literal(b, i, len) {
                Some(n) => {
                    i = n;
                },
                None => {
                    return None;
                },
            }
        } else if c == 0x23u8 {
            let e = find_line_end(b, i);
            proof {
                lemma_line_end_after(b@, i as int);
            }
            if e >= len {
                proof {
                    assert(close_paren_from(b@, e + 1, opened - closed) == None::<int>);
                }
                return None;
            }
            i = e + 1;
        } else {
            i = i + 1;
        }
    }
    None
}

/// True when `p` occurs in `b` at position `i`.
pub fn occurs_at_pos(b: &[u8], i: usize, p: &[u8]) -> (r: bool)
    ensures
        r == occurs_at(b@, i as int, p@),
{
    if i > b.len() || b.len() - i < p.len() {
        return false;
    }
    let n = b.len();
    let mut k: usize = 0;
    while k < p.len()
        invariant
            n == b@.len(),
            i + p@.len() <= b@.len(),
            k <= p@.len(),
            forall|j: int| 0 <= j < k ==> b@[i + j] == p@[j],
        decreases p@.len() - k,
    {
        assert(i + k < n);
        if b[i + k] != p[k] {
            return false;
        }
        k = k + 1;
    }
    true
}

/// Finds `kw` between `start` and `end`, outside string literals and comments.
pub fn find_keyword_in_call(b: &[u8], start: usize, end: usize, kw: &[u8]) -> (r: Option<usize>)
    requires
        end <= b@.len(),
    ensures
        widen(r) == keyword_from(b@, start as int, end as int, kw@),
{
    let mut i = start;
    while i < end
        invariant
            end <= b@.len(),
            keyword_from(b@, i as int, end as int, kw@) == keyword_from(
                b@,
                start as int,
                end as int,
                kw@,
            ),
        decreases b@.len() - i,
    {
        let c = b[i];
        if c == 0x22u8 || c == 0x27u8 {
            proof {
                lemma_skip_string_after(b@, i as int, end as int);
            }
            match skip_string_literal(b, i, end) {
                Some(n) => {
                    i = n;
                },
                None => {
                    return None;
                },
            }
        } else if c == 0x23u8 {
            let e = find_line_end(b, i);
            proof {
                lemma_line_end_after(b@, i as int);
            }
            i = if e < end {
                e
            } else {
                end
            };
        } else if occurs_at_pos(b, i, kw) {
            return Some(i);
        } else {
            i = i + 1;
        }
    }
    None
}

} // verus!
