//! Byte-level views of UTF-8 text and the few operations the scanners need:
//! slicing a `&str` at positions next to ASCII bytes and concatenating pieces.
use vstd::prelude::*;
use vstd::string::*;
use vstd::utf8::*;

verus! {

broadcast use vstd::utf8::group_utf8_lib;

/// The UTF-8 bytes of a character sequence.
pub open spec fn utf8(chars: Seq<char>) -> Seq<u8> {
    encode_utf8(chars)
}

/// True when the byte is an ASCII character.
pub open spec fn is_ascii_byte(b: u8) -> bool {
    b < 0x80
}

/// An ASCII byte in valid UTF-8 sits on a character boundary, and so does the
/// position just after it.
pub proof fn lemma_ascii_boundaries(bytes: Seq<u8>, i: int)
    requires
        valid_utf8(bytes),
        0 <= i < bytes.len(),
        is_ascii_byte(bytes[i]),
    ensures
        is_char_boundary(bytes, i),
        is_char_boundary(bytes, i + 1),
{
    is_char_boundary_iff_not_is_continuation_byte(bytes, i);
    lemma_after_ascii_boundary(bytes, i);
}

proof fn lemma_after_ascii_boundary(bytes: Seq<u8>, i: int)
    requires
        valid_utf8(bytes),
        0 <= i < bytes.len(),
        is_char_boundary(bytes, i),
        is_ascii_byte(bytes[i]),
    ensures
        is_char_boundary(bytes, i + 1),
    decreases bytes.len(),
{
    let len0 = length_of_first_scalar(bytes);
    let rest = pop_first_scalar(bytes);
    assert(valid_first_scalar(bytes) && valid_utf8(rest));
    if i == 0 {
        assert(len0 == 1);
        assert(is_char_boundary(rest, 0));
    } else {
        assert(is_char_boundary(rest, i - len0));
        assert(rest.len() < bytes.len());
        assert(rest[i - len0] == bytes[i]);
        lemma_after_ascii_boundary(rest, i - len0);
    }
}

proof fn lemma_suffix_boundary(bytes: Seq<u8>, start: int, end: int)
    requires
        valid_utf8(bytes),
        0 <= start <= end <= bytes.len(),
        is_char_boundary(bytes, start),
        is_char_boundary(bytes, end),
    ensures
        is_char_boundary(bytes.subrange(start, bytes.len() as int), end - start),
    decreases bytes.len(),
{
    if start == 0 {
        assert(bytes.subrange(0, bytes.len() as int) =~= bytes);
    } else {
        let len0 = length_of_first_scalar(bytes);
        let rest = pop_first_scalar(bytes);
        assert(valid_first_scalar(bytes) && valid_utf8(rest));
        assert(rest.len() < bytes.len());
        lemma_suffix_boundary(rest, start - len0, end - len0);
        assert(rest.subrange(start - len0, rest.len() as int) =~= bytes.subrange(
            start,
            bytes.len() as int,
        ));
    }
}

/// The bytes of a concatenation are the concatenated bytes.
pub proof fn lemma_utf8_concat(a: Seq<char>, b: Seq<char>)
    ensures
        utf8(a + b) == utf8(a) + utf8(b),
    decreases a.len(),
{
    if a.len() == 0 {
        assert(a + b =~= b);
    } else {
        assert((a + b).drop_first() =~= a.drop_first() + b);
        lemma_utf8_concat(a.drop_first(), b);
        assert(utf8(a + b) =~= utf8(a) + utf8(b));
    }
}

/// The part of `s` between two byte positions that are character boundaries.
pub fn slice(s: &str, start: usize, end: usize) -> (r: &str)
    requires
        start <= end <= s.spec_bytes().len(),
        is_char_boundary(s.spec_bytes(), start as int),
        is_char_boundary(s.spec_bytes(), end as int),
    ensures
        r.spec_bytes() == s.spec_bytes().subrange(start as int, end as int),
{
    let (_, tail) = s.split_at(start);
    proof {
        let b = s.spec_bytes();
        assert(valid_utf8(b));
        valid_utf8_split(b, start as int);
        let t = b.subrange(start as int, b.len() as int);
        lemma_suffix_boundary(b, start as int, end as int);
    }
    let (mid, _) = tail.split_at(end - start);
    proof {
        assert(mid.spec_bytes() =~= s.spec_bytes().subrange(start as int, end as int));
    }
    mid
}

/// Appends `t` to `s`.
pub fn push_text(s: &mut String, t: &str)
    ensures
        final(s)@ == old(s)@ + t@,
        utf8(final(s)@) == utf8(old(s)@) + t.spec_bytes(),
{
    s.append(t);
    proof {
        lemma_utf8_concat(old(s)@, t@);
    }
}

/// The bytes of ASCII characters are the characters themselves.
pub proof fn lemma_utf8_ascii(cs: Seq<char>)
    requires
        forall|i: int| 0 <= i < cs.len() ==> (#[trigger] cs[i] as u32) < 0x80,
    ensures
        utf8(cs).len() == cs.len(),
        forall|i: int| 0 <= i < cs.len() ==> #[trigger] utf8(cs)[i] == cs[i] as u32 as u8,
    decreases cs.len(),
{
    if cs.len() > 0 {
        let v = cs[0] as u32;
        assert(v < 0x80);
        assert(((v & 0x7f) as u8) == v as u8) by (bit_vector)
            requires
                v < 0x80,
        ;
        assert(encode_scalar(v) == seq![v as u8]);
        let rest = cs.drop_first();
        assert forall|i: int| 0 <= i < rest.len() implies (#[trigger] rest[i] as u32) < 0x80 by {
            assert(rest[i] == cs[i + 1]);
        }
        lemma_utf8_ascii(rest);
        assert forall|i: int| 0 <= i < cs.len() implies #[trigger] utf8(cs)[i] == cs[i] as u32
            as u8 by {
            if i > 0 {
                assert(utf8(cs)[i] == utf8(rest)[i - 1]);
                assert(rest[i - 1] == cs[i]);
            }
        }
    }
}

/// The empty string has no bytes.
pub fn empty_text() -> (r: String)
    ensures
        utf8(r@) == Seq::<u8>::empty(),
{
    let r = String::new();
    proof {
        assert(utf8(r@) =~= Seq::<u8>::empty());
    }
    r
}

/// Appends one ASCII byte.
pub fn push_ascii(s: &mut String, c: u8)
    requires
        c < 0x80u8,
    ensures
        utf8(final(s)@) == utf8(old(s)@).push(c),
{
    // Every ASCII character in order: the one with code `c` is byte `c`.
    let table: &str = "\x00\x01\x02\x03\x04\x05\x06\x07\x08\x09\x0a\x0b\x0c\x0d\x0e\x0f\x10\x11\x12\x13\x14\x15\x16\x17\x18\x19\x1a\x1b\x1c\x1d\x1e\x1f\x20\x21\x22\x23\x24\x25\x26\x27\x28\x29\x2a\x2b\x2c\x2d\x2e\x2f\x30\x31\x32\x33\x34\x35\x36\x37\x38\x39\x3a\x3b\x3c\x3d\x3e\x3f\x40\x41\x42\x43\x44\x45\x46\x47\x48\x49\x4a\x4b\x4c\x4d\x4e\x4f\x50\x51\x52\x53\x54\x55\x56\x57\x58\x59\x5a\x5b\x5c\x5d\x5e\x5f\x60\x61\x62\x63\x64\x65\x66\x67\x68\x69\x6a\x6b\x6c\x6d\x6e\x6f\x70\x71\x72\x73\x74\x75\x76\x77\x78\x79\x7a\x7b\x7c\x7d\x7e\x7f";
    proof {
        reveal_strlit("\x00\x01\x02\x03\x04\x05\x06\x07\x08\x09\x0a\x0b\x0c\x0d\x0e\x0f\x10\x11\x12\x13\x14\x15\x16\x17\x18\x19\x1a\x1b\x1c\x1d\x1e\x1f\x20\x21\x22\x23\x24\x25\x26\x27\x28\x29\x2a\x2b\x2c\x2d\x2e\x2f\x30\x31\x32\x33\x34\x35\x36\x37\x38\x39\x3a\x3b\x3c\x3d\x3e\x3f\x40\x41\x42\x43\x44\x45\x46\x47\x48\x49\x4a\x4b\x4c\x4d\x4e\x4f\x50\x51\x52\x53\x54\x55\x56\x57\x58\x59\x5a\x5b\x5c\x5d\x5e\x5f\x60\x61\x62\x63\x64\x65\x66\x67\x68\x69\x6a\x6b\x6c\x6d\x6e\x6f\x70\x71\x72\x73\x74\x75\x76\x77\x78\x79\x7a\x7b\x7c\x7d\x7e\x7f");
        assert(table@.len() == 128);
        assert forall|i: int| 0 <= i < table@.len() implies (#[trigger] table@[i] as u32) == i by {}
        lemma_utf8_ascii(table@);
        let b = table.spec_bytes();
        assert(valid_utf8(b));
        assert(b[c as int] == c);
        lemma_ascii_boundaries(b, c as int);
    }
    let one = slice(table, c as usize, c as usize + 1);
    proof {
        assert(one.spec_bytes() =~= seq![c]);
    }
    push_text(s, one);
    proof {
        assert(utf8(old(s)@) + seq![c] =~= utf8(old(s)@).push(c));
    }
}

/// `n` spaces.
pub open spec fn spaces(n: int) -> Seq<u8> {
    Seq::new(n as nat, |i: int| 0x20u8)
}

/// Appends `n` spaces.
pub fn push_spaces(s: &mut String, n: usize)
    ensures
        utf8(final(s)@) == utf8(old(s)@) + spaces(n as int),
{
    let mut k: usize = 0;
    while k < n
        invariant
            k <= n,
            utf8(s@) == utf8(old(s)@) + spaces(k as int),
        decreases n - k,
    {
        push_ascii(s, 0x20u8);
        k = k + 1;
        assert(utf8(s@) =~= utf8(old(s)@) + spaces(k as int));
    }
}

/// Appends the bytes of `t` between two character boundaries.
pub fn push_range(s: &mut String, t: &str, start: usize, end: usize)
    requires
        start <= end <= t.spec_bytes().len(),
        is_char_boundary(t.spec_bytes(), start as int),
        is_char_boundary(t.spec_bytes(), end as int),
    ensures
        utf8(final(s)@) == utf8(old(s)@) + t.spec_bytes().subrange(start as int, end as int),
{
    let piece = slice(t, start, end);
    push_text(s, piece);
}

} // verus!
