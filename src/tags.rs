//! Tag expressions for filtering tests: tag names combined with `and`, `or`,
//! `not` and parentheses (`not` binds tightest, then `and`, then `or`). A set
//! of expressions matches a test when any of them does; an empty set matches
//! every test.
use vstd::prelude::*;
use vstd::string::*;
use crate::inline::range_equals;
use crate::scan::{is_space, is_space_byte};
use crate::text::utf8;

verus! {

/// A token of a tag expression; a word is a byte range of the text.
#[derive(Copy, Clone, Debug, PartialEq, Eq, Structural)]
pub enum Token {
    Open,
    Close,
    And,
    Or,
    Not,
    Word(usize, usize),
}

/// A parsed tag expression; a tag is a byte range of the expression's text.
#[derive(Debug, PartialEq, Eq)]
pub enum TagExpr {
    Tag(usize, usize),
    Not(Box<TagExpr>),
    And(Box<TagExpr>, Box<TagExpr>),
    Or(Box<TagExpr>, Box<TagExpr>),
}

/// A byte that belongs to a word.
pub open spec fn is_word_byte(b: u8) -> bool {
    !is_space(b) && b != 0x28u8 && b != 0x29u8
}

/// Where the word starting at `i` ends.
pub open spec fn word_end(s: Seq<u8>, i: int) -> int
    decreases s.len() - i,
{
    if i < 0 || i >= s.len() || !is_word_byte(s[i]) {
        i
    } else {
        word_end(s, i + 1)
    }
}

/// The token a word `s[i..e]` is: one of the three operators, or a tag.
pub open spec fn word_token(s: Seq<u8>, i: int, e: int) -> Token {
    let w = s.subrange(i, e);
    if w == seq![0x61u8, 0x6eu8, 0x64u8] {
        Token::And
    } else if w == seq![0x6fu8, 0x72u8] {
        Token::Or
    } else if w == seq![0x6eu8, 0x6fu8, 0x74u8] {
        Token::Not
    } else {
        Token::Word(i as usize, e as usize)
    }
}

pub proof fn lemma_word_end(s: Seq<u8>, i: int)
    requires
        0 <= i <= s.len(),
    ensures
        i <= word_end(s, i) <= s.len(),
        forall|k: int| i <= k < word_end(s, i) ==> is_word_byte(#[trigger] s[k]),
    decreases s.len() - i,
{
    if i < s.len() && is_word_byte(s[i]) {
        lemma_word_end(s, i + 1);
    }
}

/// The tokens of `s` from position `i` on.
pub open spec fn tokens(s: Seq<u8>, i: int) -> Seq<Token>
    decreases s.len() + 1 - i,
{
    if i < 0 || i >= s.len() {
        seq![]
    } else if is_space(s[i]) {
        tokens(s, i + 1)
    } else if s[i] == 0x28u8 {
        seq![Token::Open] + tokens(s, i + 1)
    } else if s[i] == 0x29u8 {
        seq![Token::Close] + tokens(s, i + 1)
    } else {
        proof {
            lemma_word_end(s, i + 1);
        }
        seq![word_token(s, i, word_end(s, i + 1))] + tokens(s, word_end(s, i + 1))
    }
}

/// `or`-separated conjunctions from token `p`.
pub open spec fn parse_or(ts: Seq<Token>, p: int) -> Option<(TagExpr, int)>
    decreases ts.len() + 1 - p, 3nat,
{
    if p < 0 || p > ts.len() {
        None
    } else {
        match parse_and(ts, p) {
            None => None,
            Some((l, q)) => if p < q <= ts.len() {
                or_rest(ts, q, l)
            } else {
                None
            },
        }
    }
}

/// Further `or` operands after the expression `acc`, which ends at `q`.
pub open spec fn or_rest(ts: Seq<Token>, q: int, acc: TagExpr) -> Option<(TagExpr, int)>
    decreases ts.len() + 1 - q, 4nat,
{
    if 0 <= q < ts.len() && ts[q] == Token::Or {
        match parse_and(ts, q + 1) {
            None => None,
            Some((r, q2)) => if q + 1 < q2 <= ts.len() {
                or_rest(ts, q2, TagExpr::Or(Box::new(acc), Box::new(r)))
            } else {
                None
            },
        }
    } else {
        Some((acc, q))
    }
}

/// `and`-separated negations from token `p`.
pub open spec fn parse_and(ts: Seq<Token>, p: int) -> Option<(TagExpr, int)>
    decreases ts.len() + 1 - p, 2nat,
{
    if p < 0 || p > ts.len() {
        None
    } else {
        match parse_not(ts, p) {
            None => None,
            Some((l, q)) => if p < q <= ts.len() {
                and_rest(ts, q, l)
            } else {
                None
            },
        }
    }
}

/// Further `and` operands after the expression `acc`, which ends at `q`.
pub open spec fn and_rest(ts: Seq<Token>, q: int, acc: TagExpr) -> Option<(TagExpr, int)>
    decreases ts.len() + 1 - q, 4nat,
{
    if 0 <= q < ts.len() && ts[q] == Token::And {
        match parse_not(ts, q + 1) {
            None => None,
            Some((r, q2)) => if q + 1 < q2 <= ts.len() {
                and_rest(ts, q2, TagExpr::And(Box::new(acc), Box::new(r)))
            } else {
                None
            },
        }
    } else {
        Some((acc, q))
    }
}

/// A negation, or an operand, from token `p`.
pub open spec fn parse_not(ts: Seq<Token>, p: int) -> Option<(TagExpr, int)>
    decreases ts.len() + 1 - p, 1nat,
{
    if p < 0 || p >= ts.len() {
        None
    } else if ts[p] == Token::Not {
        match parse_not(ts, p + 1) {
            None => None,
            Some((e, q)) => Some((TagExpr::Not(Box::new(e)), q)),
        }
    } else {
        parse_atom(ts, p)
    }
}

/// A tag, or a parenthesized expression, at token `p`.
pub open spec fn parse_atom(ts: Seq<Token>, p: int) -> Option<(TagExpr, int)>
    decreases ts.len() + 1 - p, 0nat,
{
    if p < 0 || p >= ts.len() {
        None
    } else {
        match ts[p] {
            Token::Word(x, y) => Some((TagExpr::Tag(x, y), p + 1)),
            Token::Open => match parse_or(ts, p + 1) {
                Some((e, q)) => if 0 <= q < ts.len() && ts[q] == Token::Close {
                    Some((e, q + 1))
                } else {
                    None
                },
                None => None,
            },
            _ => None,
        }
    }
}

/// The expression the text `s` denotes, when all of it parses.
pub open spec fn parsed_expr(s: Seq<u8>) -> Option<TagExpr> {
    let ts = tokens(s, 0);
    match parse_or(ts, 0) {
        Some((e, q)) => if q == ts.len() {
            Some(e)
        } else {
            None
        },
        None => None,
    }
}

/// Whether the expression holds of a test with the tag names `tags`.
pub open spec fn holds(e: TagExpr, s: Seq<u8>, tags: Seq<Seq<u8>>) -> bool
    decreases e,
{
    match e {
        TagExpr::Tag(x, y) => x <= y <= s.len() && tags.contains(s.subrange(x as int, y as int)),
        TagExpr::Not(a) => !holds(*a, s, tags),
        TagExpr::And(a, b) => holds(*a, s, tags) && holds(*b, s, tags),
        TagExpr::Or(a, b) => holds(*a, s, tags) || holds(*b, s, tags),
    }
}

fn word_token_exec(b: &[u8], i: usize, e: usize) -> (r: Token)
    requires
        i <= e <= b@.len(),
    ensures
        r == word_token(b@, i as int, e as int),
{
    let and_w = vec![0x61u8, 0x6eu8, 0x64u8];
    let or_w = vec![0x6fu8, 0x72u8];
    let not_w = vec![0x6eu8, 0x6fu8, 0x74u8];
    assert(and_w@ =~= seq![0x61u8, 0x6eu8, 0x64u8]);
    assert(or_w@ =~= seq![0x6fu8, 0x72u8]);
    assert(not_w@ =~= seq![0x6eu8, 0x6fu8, 0x74u8]);
    if range_equals(b, i, e, and_w.as_slice()) {
        Token::And
    } else if range_equals(b, i, e, or_w.as_slice()) {
        Token::Or
    } else if range_equals(b, i, e, not_w.as_slice()) {
        Token::Not
    } else {
        Token::Word(i, e)
    }
}

/// Splits a tag expression into tokens: parentheses, the words `and`, `or`
/// and `not`, and tag names; whitespace separates.
pub fn tokenize(text: &str) -> (r: Vec<Token>)
    ensures
        r@ == tokens(text.spec_bytes(), 0),
{
    let b = text.as_bytes();
    let ghost bs = b@;
    let len = b.len();
    let mut out: Vec<Token> = Vec::new();
    let mut i: usize = 0;
    while i < len
        invariant
            b@ == bs,
            bs == text.spec_bytes(),
            len == bs.len(),
            i <= len,
            out@ + tokens(bs, i as int) == tokens(bs, 0),
        decreases len - i,
    {
        let c = b[i];
        let ghost before = out@;
        if is_space_byte(c) {
            i = i + 1;
        } else if c == 0x28u8 {
            out.push(Token::Open);
            i = i + 1;
            proof {
                assert(out@ + tokens(bs, i as int) =~= before + tokens(bs, i - 1));
            }
        } else if c == 0x29u8 {
            out.push(Token::Close);
            i = i + 1;
            proof {
                assert(out@ + tokens(bs, i as int) =~= before + tokens(bs, i - 1));
            }
        } else {
            let mut e = i + 1;
            while e < len && !is_space_byte(b[e]) && b[e] != 0x28u8 && b[e] != 0x29u8
                invariant
                    b@ == bs,
                    len == bs.len(),
                    i < e <= len,
                    word_end(bs, e as int) == word_end(bs, i + 1),
                decreases len - e,
            {
                e = e + 1;
            }
            let t = word_token_exec(b, i, e);
            out.push(t);
            proof {
                assert(out@ + tokens(bs, e as int) =~= before + tokens(bs, i as int));
            }
            i = e;
        }
    }
    proof {
        assert(out@ =~= tokens(bs, 0));
    }
    out
}

pub open spec fn widen_parse(r: Option<(TagExpr, usize)>) -> Option<(TagExpr, int)> {
    match r {
        Some((e, q)) => Some((e, q as int)),
        None => None,
    }
}

fn parse_or_exec(ts: &Vec<Token>, p: usize) -> (r: Option<(TagExpr, usize)>)
    ensures
        widen_parse(r) == parse_or(ts@, p as int),
    decreases ts@.len() + 1 - p, 3nat,
{
    if p > ts.len() {
        return None;
    }
    match parse_and_exec(ts, p) {
        None => None,
        Some((l, q)) => if p < q && q <= ts.len() {
            or_rest_exec(ts, q, l)
        } else {
            None
        },
    }
}

fn or_rest_exec(ts: &Vec<Token>, q: usize, acc: TagExpr) -> (r: Option<(TagExpr, usize)>)
    ensures
        widen_parse(r) == or_rest(ts@, q as int, acc),
    decreases ts@.len() + 1 - q, 4nat,
{
    if q < ts.len() && ts[q] == Token::Or {
        match parse_and_exec(ts, q + 1) {
            None => None,
            Some((r, q2)) => if q + 1 < q2 && q2 <= ts.len() {
                or_rest_exec(ts, q2, TagExpr::Or(Box::new(acc), Box::new(r)))
            } else {
                None
            },
        }
    } else {
        Some((acc, q))
    }
}

fn parse_and_exec(ts: &Vec<Token>, p: usize) -> (r: Option<(TagExpr, usize)>)
    ensures
        widen_parse(r) == parse_and(ts@, p as int),
    decreases ts@.len() + 1 - p, 2nat,
{
    if p > ts.len() {
        return None;
    }
    match parse_not_exec(ts, p) {
        None => None,
        Some((l, q)) => if p < q && q <= ts.len() {
            and_rest_exec(ts, q, l)
        } else {
            None
        },
    }
}

fn and_rest_exec(ts: &Vec<Token>, q: usize, acc: TagExpr) -> (r: Option<(TagExpr, usize)>)
    ensures
        widen_parse(r) == and_rest(ts@, q as int, acc),
    decreases ts@.len() + 1 - q, 4nat,
{
    if q < ts.len() && ts[q] == Token::And {
        match parse_not_exec(ts, q + 1) {
            None => None,
            Some((r, q2)) => if q + 1 < q2 && q2 <= ts.len() {
                and_rest_exec(ts, q2, TagExpr::And(Box::new(acc), Box::new(r)))
            } else {
                None
            },
        }
    } else {
        Some((acc, q))
    }
}

fn parse_not_exec(ts: &Vec<Token>, p: usize) -> (r: Option<(TagExpr, usize)>)
    ensures
        widen_parse(r) == parse_not(ts@, p as int),
    decreases ts@.len() + 1 - p, 1nat,
{
    if p >= ts.len() {
        None
    } else if ts[p] == Token::Not {
        match parse_not_exec(ts, p + 1) {
            None => None,
            Some((e, q)) => Some((TagExpr::Not(Box::new(e)), q)),
        }
    } else {
        parse_atom_exec(ts, p)
    }
}

fn parse_atom_exec(ts: &Vec<Token>, p: usize) -> (r: Option<(TagExpr, usize)>)
    ensures
        widen_parse(r) == parse_atom(ts@, p as int),
    decreases ts@.len() + 1 - p, 0nat,
{
    if p >= ts.len() {
        return None;
    }
    match ts[p] {
        Token::Word(x, y) => Some((TagExpr::Tag(x, y), p + 1)),
        Token::Open => match parse_or_exec(ts, p + 1) {
            Some((e, q)) => if q < ts.len() && ts[q] == Token::Close {
                Some((e, q + 1))
            } else {
                None
            },
            None => None,
        },
        _ => None,
    }
}

/// Parses a tag expression; `None` when it is malformed.
pub fn parse_tag_expr(text: &str) -> (r: Option<TagExpr>)
    ensures
        r == parsed_expr(text.spec_bytes()),
{
    let ts = tokenize(text);
    match parse_or_exec(&ts, 0) {
        Some((e, q)) => if q == ts.len() {
            Some(e)
        } else {
            None
        },
        None => None,
    }
}

/// The bytes of each tag name.
pub open spec fn tag_names(tags: Seq<String>) -> Seq<Seq<u8>> {
    tags.map_values(|t: String| utf8(t@))
}

fn has_tag(text: &[u8], x: usize, y: usize, tags: &Vec<String>) -> (r: bool)
    requires
        x <= y <= text@.len(),
    ensures
        r == tag_names(tags@).contains(text@.subrange(x as int, y as int)),
{
    let ghost w = text@.subrange(x as int, y as int);
    let mut i: usize = 0;
    while i < tags.len()
        invariant
            x <= y <= text@.len(),
            w == text@.subrange(x as int, y as int),
            i <= tags@.len(),
            forall|j: int| 0 <= j < i ==> tag_names(tags@)[j] != w,
        decreases tags@.len() - i,
    {
        let t = tags[i].as_str();
        if range_equals(text, x, y, t.as_bytes()) {
            proof {
                assert(tag_names(tags@)[i as int] == w);
            }
            return true;
        }
        i = i + 1;
    }
    false
}

/// Whether the expression holds of a test with the tag names `tags`.
pub fn expr_holds(e: &TagExpr, text: &[u8], tags: &Vec<String>) -> (r: bool)
    ensures
        r == holds(*e, text@, tag_names(tags@)),
    decreases e,
{
    match e {
        TagExpr::Tag(x, y) => *x <= *y && *y <= text.len() && has_tag(text, *x, *y, tags),
        TagExpr::Not(a) => !expr_holds(a, text, tags),
        TagExpr::And(a, b) => expr_holds(a, text, tags) && expr_holds(b, text, tags),
        TagExpr::Or(a, b) => expr_holds(a, text, tags) || expr_holds(b, text, tags),
    }
}

/// One tag expression: its text and what it parses to.
pub struct TagFilter {
    pub text: String,
    pub expr: TagExpr,
}

/// The tag expressions given on the command line.
pub struct TagFilterSet {
    pub filters: Vec<TagFilter>,
}

/// Whether some filter of `fs` holds of the tag names `tags`.
pub open spec fn some_filter_holds(fs: Seq<TagFilter>, tags: Seq<Seq<u8>>) -> bool {
    exists|i: int| 0 <= i < fs.len() && holds(#[trigger] fs[i].expr, utf8(fs[i].text@), tags)
}

impl TagFilterSet {
    /// Parses each expression; `Err(i)` names the first one that is
    /// malformed.
    pub fn new(expressions: &Vec<String>) -> (r: Result<TagFilterSet, usize>)
        ensures
            match r {
                Ok(set) => set.filters@.len() == expressions@.len() && forall|i: int|
                    0 <= i < expressions@.len() ==> (#[trigger] set.filters@[i]).text
                        == expressions@[i] && parsed_expr(utf8(expressions@[i]@)) == Some(
                        set.filters@[i].expr,
                    ),
                Err(i) => i < expressions@.len() && parsed_expr(utf8(expressions@[i as int]@))
                    is None && forall|j: int|
                    0 <= j < i ==> parsed_expr(utf8(#[trigger] expressions@[j]@)) is Some,
            },
    {
        let mut filters: Vec<TagFilter> = Vec::new();
        let mut i: usize = 0;
        while i < expressions.len()
            invariant
                i <= expressions@.len(),
                filters@.len() == i,
                forall|j: int|
                    0 <= j < i ==> (#[trigger] filters@[j]).text == expressions@[j] && parsed_expr(
                        utf8(expressions@[j]@),
                    ) == Some(filters@[j].expr),
            decreases expressions@.len() - i,
        {
            let text = expressions[i].clone();
            match parse_tag_expr(text.as_str()) {
                Some(expr) => {
                    filters.push(TagFilter { text, expr });
                },
                None => {
                    proof {
                        assert forall|j: int| 0 <= j < i implies parsed_expr(
                            utf8(#[trigger] expressions@[j]@),
                        ) is Some by {
                            assert(filters@[j].text == expressions@[j]);
                        }
                    }
                    return Err(i);
                },
            }
            i = i + 1;
        }
        Ok(TagFilterSet { filters })
    }

    /// True when no expression was given.
    pub fn is_empty(&self) -> (r: bool)
        ensures
            r == (self.filters@.len() == 0),
    {
        self.filters.len() == 0
    }

    /// Whether a test with the tag names `tags` passes: with no expression
    /// every test does, otherwise one that some expression holds of.
    pub fn matches(&self, tags: &Vec<String>) -> (r: bool)
        ensures
            r == (self.filters@.len() == 0 || some_filter_holds(self.filters@, tag_names(tags@))),
    {
        if self.filters.len() == 0 {
            return true;
        }
        let mut i: usize = 0;
        while i < self.filters.len()
            invariant
                i <= self.filters@.len(),
                forall|j: int|
                    0 <= j < i ==> !holds(
                        #[trigger] self.filters@[j].expr,
                        utf8(self.filters@[j].text@),
                        tag_names(tags@),
                    ),
            decreases self.filters@.len() - i,
        {
            let f = &self.filters[i];
            if expr_holds(&f.expr, f.text.as_str().as_bytes(), tags) {
                return true;
            }
            i = i + 1;
        }
        false
    }
}

} // verus!
