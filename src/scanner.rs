//! The scanner: turns the input text into tokens, one per call.
use vstd::prelude::*;

use crate::text::Text;
use vstd::utf8::encode_utf8;

verus! {

/// Whitespace between tokens.
pub open spec fn is_space(c: char) -> bool {
    c == ' ' || c == '\t' || c == '\n' || c == '\r'
}

/// A character that can stand in an unquoted keyword: an ASCII letter or
/// digit, `_`, or `.` (as in `2.0`). Any other character outside quotes and
/// comments starts no token.
pub open spec fn is_word_char(c: char) -> bool {
    ('a' <= c && c <= 'z') || ('A' <= c && c <= 'Z') || ('0' <= c && c <= '9') || c == '_' || c
        == '.'
}

/// Number of leading whitespace characters.
pub open spec fn space_len(s: Seq<char>) -> nat
    decreases s.len(),
{
    if s.len() > 0 && is_space(s[0]) {
        1 + space_len(s.drop_first())
    } else {
        0
    }
}

/// Number of leading keyword characters.
pub open spec fn word_len(s: Seq<char>) -> nat
    decreases s.len(),
{
    if s.len() > 0 && is_word_char(s[0]) {
        1 + word_len(s.drop_first())
    } else {
        0
    }
}

/// Number of leading characters that are not `stop`.
pub open spec fn len_before(s: Seq<char>, stop: char) -> nat
    decreases s.len(),
{
    if s.len() > 0 && s[0] != stop {
        1 + len_before(s.drop_first(), stop)
    } else {
        0
    }
}

/// Position of the first `*/` in `s`; `s.len()` when there is none.
pub open spec fn block_len(s: Seq<char>) -> nat
    decreases s.len(),
{
    if s.len() < 2 {
        s.len()
    } else if s[0] == '*' && s[1] == '/' {
        0
    } else {
        1 + block_len(s.drop_first())
    }
}

/// The model of a token.
pub enum Tok {
    MultilineComment(Seq<char>),
    Keyword(Seq<char>),
    Comment(Seq<char>),
    End,
    DictStart,
    DictEnd,
    ListStart,
    ListEnd,
}

/// What scanning the front of a text gives.
pub enum Lexed {
    /// Nothing but whitespace is left.
    Done,
    /// No token starts `at` characters in.
    Fail { at: nat },
    /// A token, and how many characters it consumed with its leading whitespace.
    Token { tok: Tok, len: nat },
}

/// The first token of `s`.
///
/// Whitespace is skipped. A keyword is a run of keyword characters, or a
/// quoted span whose quotes are stripped; a comment runs from `//` to the end
/// of the line, or from `/*` to the first `*/` after it (comments do not nest).
pub open spec fn lex(s: Seq<char>) -> Lexed {
    let k = space_len(s);
    let r = s.skip(k as int);
    if r.len() == 0 {
        Lexed::Done
    } else if r[0] == ';' {
        Lexed::Token { tok: Tok::End, len: k + 1 }
    } else if r[0] == '{' {
        Lexed::Token { tok: Tok::DictStart, len: k + 1 }
    } else if r[0] == '}' {
        Lexed::Token { tok: Tok::DictEnd, len: k + 1 }
    } else if r[0] == '(' {
        Lexed::Token { tok: Tok::ListStart, len: k + 1 }
    } else if r[0] == ')' {
        Lexed::Token { tok: Tok::ListEnd, len: k + 1 }
    } else if r[0] == '"' {
        let q = len_before(r.drop_first(), '"');
        if q + 1 < r.len() {
            Lexed::Token { tok: Tok::Keyword(r.subrange(1, (q + 1) as int)), len: k + q + 2 }
        } else {
            Lexed::Fail { at: k }
        }
    } else if r[0] == '/' && r.len() > 1 && r[1] == '/' {
        let q = len_before(r.skip(2), '\n');
        Lexed::Token { tok: Tok::Comment(r.subrange(0, (q + 2) as int)), len: k + q + 2 }
    } else if r[0] == '/' && r.len() > 1 && r[1] == '*' {
        let q = block_len(r.skip(2));
        if q + 4 <= r.len() {
            Lexed::Token { tok: Tok::MultilineComment(r.subrange(0, (q + 4) as int)), len: k + q + 4 }
        } else {
            Lexed::Fail { at: k }
        }
    } else if is_word_char(r[0]) {
        let q = word_len(r);
        Lexed::Token { tok: Tok::Keyword(r.subrange(0, q as int)), len: k + q }
    } else {
        Lexed::Fail { at: k }
    }
}

pub proof fn lemma_space_len(s: Seq<char>)
    ensures
        space_len(s) <= s.len(),
        forall|i: int| 0 <= i < space_len(s) ==> is_space(#[trigger] s[i]),
        space_len(s) < s.len() ==> !is_space(s[space_len(s) as int]),
    decreases s.len(),
{
    if s.len() > 0 && is_space(s[0]) {
        lemma_space_len(s.drop_first());
        assert forall|i: int| 0 <= i < space_len(s) implies is_space(#[trigger] s[i]) by {
            if i > 0 {
                assert(s[i] == s.drop_first()[i - 1]);
            }
        }
    }
}

pub proof fn lemma_word_len(s: Seq<char>)
    ensures
        word_len(s) <= s.len(),
        forall|i: int| 0 <= i < word_len(s) ==> is_word_char(#[trigger] s[i]),
        word_len(s) < s.len() ==> !is_word_char(s[word_len(s) as int]),
    decreases s.len(),
{
    if s.len() > 0 && is_word_char(s[0]) {
        lemma_word_len(s.drop_first());
        assert forall|i: int| 0 <= i < word_len(s) implies is_word_char(#[trigger] s[i]) by {
            if i > 0 {
                assert(s[i] == s.drop_first()[i - 1]);
            }
        }
    }
}

pub proof fn lemma_len_before(s: Seq<char>, stop: char)
    ensures
        len_before(s, stop) <= s.len(),
        forall|i: int| 0 <= i < len_before(s, stop) ==> #[trigger] s[i] != stop,
        len_before(s, stop) < s.len() ==> s[len_before(s, stop) as int] == stop,
    decreases s.len(),
{
    if s.len() > 0 && s[0] != stop {
        lemma_len_before(s.drop_first(), stop);
        assert forall|i: int| 0 <= i < len_before(s, stop) implies #[trigger] s[i] != stop by {
            if i > 0 {
                assert(s[i] == s.drop_first()[i - 1]);
            }
        }
    }
}

pub proof fn lemma_block_len(s: Seq<char>)
    ensures
        block_len(s) <= s.len(),
        block_len(s) + 2 <= s.len() ==> s[block_len(s) as int] == '*' && s[(block_len(s) + 1) as int]
            == '/',
    decreases s.len(),
{
    if s.len() >= 2 && !(s[0] == '*' && s[1] == '/') {
        lemma_block_len(s.drop_first());
    }
}

/// Scanning a token consumes at least one character and no more than there are.
pub proof fn lemma_lex_progress(s: Seq<char>)
    ensures
        lex(s) matches Lexed::Token { len, .. } ==> 0 < len <= s.len(),
        lex(s) matches Lexed::Fail { at } ==> at < s.len(),
{
    lemma_space_len(s);
    let k = space_len(s);
    let r = s.skip(k as int);
    if r.len() > 0 {
        lemma_len_before(r.drop_first(), '"');
        if r.len() >= 2 {
            lemma_len_before(r.skip(2), '\n');
            lemma_block_len(r.skip(2));
        }
        lemma_word_len(r);
    }
}

/// All tokens of `s` in order, and whether scanning stopped at text that is no token.
pub open spec fn tokens(s: Seq<char>) -> (Seq<Tok>, bool)
    decreases s.len(),
    via tokens_decreases
{
    match lex(s) {
        Lexed::Done => (seq![], false),
        Lexed::Fail { .. } => (seq![], true),
        Lexed::Token { tok, len } => {
            let rest = tokens(s.skip(len as int));
            (seq![tok] + rest.0, rest.1)
        },
    }
}

#[via_fn]
proof fn tokens_decreases(s: Seq<char>) {
    lemma_lex_progress(s);
}

/// A token, borrowing its text from the input.
#[derive(Debug)]
pub enum Token<'a> {
    MultilineComment(&'a str),
    Keyword(&'a str),
    Comment(&'a str),
    End,
    DictStart,
    DictEnd,
    ListStart,
    ListEnd,
}

impl<'a> View for Token<'a> {
    type V = Tok;

    open spec fn view(&self) -> Tok {
        match *self {
            Token::MultilineComment(t) => Tok::MultilineComment(t@),
            Token::Keyword(t) => Tok::Keyword(t@),
            Token::Comment(t) => Tok::Comment(t@),
            Token::End => Tok::End,
            Token::DictStart => Tok::DictStart,
            Token::DictEnd => Tok::DictEnd,
            Token::ListStart => Tok::ListStart,
            Token::ListEnd => Tok::ListEnd,
        }
    }
}

/// Text at which no token starts: the offending character and its byte range.
#[derive(Debug)]
pub struct ScanError<'a> {
    pub slice: &'a str,
    pub start: usize,
    pub end: usize,
}

fn is_space_char(c: char) -> (b: bool)
    ensures
        b == is_space(c),
{
    c == ' ' || c == '\t' || c == '\n' || c == '\r'
}

pub(crate) fn is_word_character(c: char) -> (b: bool)
    ensures
        b == is_word_char(c),
{
    ('a' <= c && c <= 'z') || ('A' <= c && c <= 'Z') || ('0' <= c && c <= '9') || c == '_' || c
        == '.'
}

proof fn lemma_skip_step(s: Seq<char>, p: int)
    requires
        0 <= p < s.len(),
    ensures
        s.skip(p).drop_first() == s.skip(p + 1),
        s.skip(p)[0] == s[p],
        s.skip(p).len() > 0,
{
    assert(s.skip(p).drop_first() =~= s.skip(p + 1));
}

/// Index of the first non-whitespace character at or after `p`.
fn skip_spaces(chars: &Vec<char>, p: usize) -> (q: usize)
    requires
        p <= chars@.len(),
    ensures
        q == p + space_len(chars@.skip(p as int)),
{
    let mut q = p;
    while q < chars.len() && is_space_char(chars[q])
        invariant
            p <= q <= chars@.len(),
            space_len(chars@.skip(p as int)) == (q - p) + space_len(chars@.skip(q as int)),
        decreases chars@.len() - q,
    {
        proof {
            lemma_skip_step(chars@, q as int);
        }
        q = q + 1;
    }
    if q < chars.len() {
        proof {
            lemma_skip_step(chars@, q as int);
        }
    }
    q
}

/// Index of the first non-keyword character at or after `p`.
fn skip_word(chars: &Vec<char>, p: usize) -> (q: usize)
    requires
        p <= chars@.len(),
    ensures
        q == p + word_len(chars@.skip(p as int)),
{
    let mut q = p;
    while q < chars.len() && is_word_character(chars[q])
        invariant
            p <= q <= chars@.len(),
            word_len(chars@.skip(p as int)) == (q - p) + word_len(chars@.skip(q as int)),
        decreases chars@.len() - q,
    {
        proof {
            lemma_skip_step(chars@, q as int);
        }
        q = q + 1;
    }
    if q < chars.len() {
        proof {
            lemma_skip_step(chars@, q as int);
        }
    }
    q
}

/// Index of the first `stop` at or after `p`, or the length when there is none.
fn find_char(chars: &Vec<char>, p: usize, stop: char) -> (q: usize)
    requires
        p <= chars@.len(),
    ensures
        q == p + len_before(chars@.skip(p as int), stop),
{
    let mut q = p;
    while q < chars.len() && chars[q] != stop
        invariant
            p <= q <= chars@.len(),
            len_before(chars@.skip(p as int), stop) == (q - p) + len_before(
                chars@.skip(q as int),
                stop,
            ),
        decreases chars@.len() - q,
    {
        proof {
            lemma_skip_step(chars@, q as int);
        }
        q = q + 1;
    }
    if q < chars.len() {
        proof {
            lemma_skip_step(chars@, q as int);
        }
    }
    q
}

/// Index of the first `*/` at or after `p`, or the length when there is none.
fn find_block_end(chars: &Vec<char>, p: usize) -> (q: usize)
    requires
        p <= chars@.len(),
        chars@.len() <= usize::MAX,
    ensures
        q == p + block_len(chars@.skip(p as int)),
{
    let n = chars.len();
    let mut q = p;
    while q < n && q + 1 < n && !(chars[q] == '*' && chars[q + 1] == '/')
        invariant
            p <= q <= n,
            n == chars@.len(),
            block_len(chars@.skip(p as int)) == (q - p) + block_len(chars@.skip(q as int)),
        decreases n - q,
    {
        proof {
            lemma_skip_step(chars@, q as int);
            assert(chars@.skip(q as int)[1] == chars@[q + 1]);
        }
        q = q + 1;
    }
    if q < n && q + 1 < n {
        proof {
            lemma_skip_step(chars@, q as int);
            assert(chars@.skip(q as int)[1] == chars@[q + 1]);
        }
        q
    } else {
        n
    }
}

/// A cursor over the tokens of one input text.
pub struct Scanner<'a> {
    text: Text<'a>,
    pos: usize,
}

impl<'a> Scanner<'a> {
    /// The text being scanned.
    pub closed spec fn input(&self) -> Seq<char> {
        self.text.src@
    }

    /// How many characters of the text were scanned.
    pub closed spec fn consumed(&self) -> nat {
        self.pos as nat
    }

    /// The part of the text not scanned yet.
    pub closed spec fn rest(&self) -> Seq<char> {
        self.text.chars@.skip(self.pos as int)
    }

    pub closed spec fn wf(&self) -> bool {
        self.text.wf() && self.pos <= self.text.chars@.len()
    }

    pub fn new(src: &'a str) -> (r: Scanner<'a>)
        ensures
            r.wf(),
            r.input() == src@,
            r.rest() == src@,
            r.consumed() == 0,
    {
        let text = Text::new(src);
        proof {
            assert(text.chars@.skip(0) =~= src@);
        }
        Scanner { text, pos: 0 }
    }

    /// Byte offset of the scanning position in the input.
    pub fn offset(&self) -> (r: usize)
        requires
            self.wf(),
        ensures
            r == encode_utf8(self.input().take(self.consumed() as int)).len(),
    {
        self.text.offsets[self.pos]
    }

    fn fail(&mut self, q: usize) -> (r: ScanError<'a>)
        requires
            old(self).wf(),
            q < old(self).text.chars@.len(),
        ensures
            final(self).wf(),
            final(self).input() == old(self).input(),
            final(self).rest() == old(self).text.chars@.skip(q + 1),
            r.slice@ == old(self).text.chars@.subrange(q as int, q + 1),
            r.start == encode_utf8(old(self).input().take(q as int)).len(),
            r.end == encode_utf8(old(self).input().take(q + 1)).len(),
    {
        let slice = self.text.slice(q, q + 1);
        let start = self.text.offsets[q];
        let end = self.text.offsets[q + 1];
        self.pos = q + 1;
        ScanError { slice, start, end }
    }

    /// The next token, `None` at the end of the text, or the text at which no
    /// token starts.
    #[verifier::rlimit(40)]
    pub fn next(&mut self) -> (r: Option<Result<Token<'a>, ScanError<'a>>>)
        requires
            old(self).wf(),
        ensures
            final(self).wf(),
            final(self).input() == old(self).input(),
            final(self).rest() == final(self).input().skip(final(self).consumed() as int),
            match lex(old(self).rest()) {
                Lexed::Done => r is None && final(self).rest().len() == 0,
                Lexed::Fail { at } => r matches Some(Err(e)) && e.slice@ == old(self).rest().subrange(
                    at as int,
                    at + 1 as int,
                ) && e.start == encode_utf8(old(self).input().take((old(self).consumed() + at) as int)).len()
                    && e.end == encode_utf8(old(self).input().take((old(self).consumed() + at + 1) as int)).len()
                    && final(self).rest() == old(self).rest().skip(at + 1 as int),
                Lexed::Token { tok, len } => r matches Some(Ok(t)) && t@ == tok
                    && final(self).rest() == old(self).rest().skip(len as int),
            },
    {
        let ghost s = self.text.chars@;
        let ghost p0 = self.pos as int;
        let n = self.text.chars.len();
        let q = skip_spaces(&self.text.chars, self.pos);
        proof {
            lemma_space_len(s.skip(p0));
            assert(s.skip(p0).skip(q - p0) =~= s.skip(q as int));
            assert forall|a: int, b: int| q <= a <= b <= n implies s.skip(p0).skip(q - p0).subrange(
                a - q,
                b - q,
            ) =~= #[trigger] s.subrange(a, b) by {}
            assert forall|a: int| q <= a <= n implies s.skip(p0).skip(a - p0) =~= #[trigger] s.skip(
                a,
            ) by {}
        }
        if q == n {
            self.pos = n;
            return None;
        }
        let c = self.text.chars[q];
        proof {
            lemma_skip_step(s, q as int);
        }
        if c == ';' {
            self.pos = q + 1;
            return Some(Ok(Token::End));
        } else if c == '{' {
            self.pos = q + 1;
            return Some(Ok(Token::DictStart));
        } else if c == '}' {
            self.pos = q + 1;
            return Some(Ok(Token::DictEnd));
        } else if c == '(' {
            self.pos = q + 1;
            return Some(Ok(Token::ListStart));
        } else if c == ')' {
            self.pos = q + 1;
            return Some(Ok(Token::ListEnd));
        } else if c == '"' {
            let e = find_char(&self.text.chars, q + 1, '"');
            proof {
                lemma_len_before(s.skip(q + 1), '"');
            }
            if e < n {
                let t = self.text.slice(q + 1, e);
                self.pos = e + 1;
                return Some(Ok(Token::Keyword(t)));
            } else {
                return Some(Err(self.fail(q)));
            }
        } else if c == '/' && q + 1 < n && self.text.chars[q + 1] == '/' {
            proof {
                assert(s.skip(q as int)[1] == s[q + 1]);
                assert(s.skip(q as int).skip(2) =~= s.skip(q + 2));
                lemma_len_before(s.skip(q + 2), '\n');
            }
            let e = find_char(&self.text.chars, q + 2, '\n');
            let t = self.text.slice(q, e);
            self.pos = e;
            return Some(Ok(Token::Comment(t)));
        } else if c == '/' && q + 1 < n && self.text.chars[q + 1] == '*' {
            proof {
                assert(s.skip(q as int)[1] == s[q + 1]);
                assert(s.skip(q as int).skip(2) =~= s.skip(q + 2));
                lemma_block_len(s.skip(q + 2));
            }
            let e = find_block_end(&self.text.chars, q + 2);
            if e < n && n - e >= 2 {
                let t = self.text.slice(q, e + 2);
                self.pos = e + 2;
                return Some(Ok(Token::MultilineComment(t)));
            } else {
                return Some(Err(self.fail(q)));
            }
        } else if is_word_character(c) {
            let e = skip_word(&self.text.chars, q);
            proof {
                lemma_word_len(s.skip(q as int));
            }
            let t = self.text.slice(q, e);
            self.pos = e;
            return Some(Ok(Token::Keyword(t)));
        } else {
            return Some(Err(self.fail(q)));
        }
    }
}

} // verus!
