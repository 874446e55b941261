//! Hand-written lexer: one pass over the source bytes with at most two bytes
//! of lookahead. A NUL byte, like the end of the input, ends the source.
//! Tracks line numbers so every later error can point at a source line.
use vstd::prelude::*;
use crate::error::SfError;
use crate::text::{bytes_eq, push_bytes, push_str, str_bytes};
use crate::token::{kind_view, SKind, Token, TokenKind};
use crate::value::MAX_SAFE;

verus! {

// ------------------------------------------------------------------ //
// The lexical grammar
// ------------------------------------------------------------------ //

/// The byte at `i`, or 0 past the end.
pub open spec fn at(s: Seq<u8>, i: int) -> u8 {
    if 0 <= i < s.len() { s[i] } else { 0u8 }
}

pub open spec fn count_newlines(s: Seq<u8>) -> nat
    decreases s.len(),
{
    if s.len() == 0 {
        0
    } else {
        count_newlines(s.drop_last()) + if s.last() == 10u8 { 1nat } else { 0nat }
    }
}

/// The 1-based line of position `p`: one more than the newlines before it.
pub open spec fn line_at(s: Seq<u8>, p: int) -> int {
    1int + count_newlines(s.subrange(0, if p < s.len() { p } else { s.len() as int }))
}

pub open spec fn is_digit(c: u8) -> bool {
    48 <= c <= 57
}

pub open spec fn is_alpha(c: u8) -> bool {
    (65 <= c <= 90) || (97 <= c <= 122)
}

pub open spec fn is_ident_char(c: u8) -> bool {
    is_digit(c) || is_alpha(c) || c == 95
}

pub open spec fn is_space(c: u8) -> bool {
    c == 32 || c == 9 || c == 13 || c == 10
}

/// The first position at or after `i` whose byte is not a digit.
pub open spec fn digits_end(s: Seq<u8>, i: int) -> int
    decreases s.len() - i,
{
    if 0 <= i < s.len() && is_digit(s[i]) { digits_end(s, i + 1) } else { i }
}

/// The first position at or after `i` whose byte cannot continue a name.
pub open spec fn ident_end(s: Seq<u8>, i: int) -> int
    decreases s.len() - i,
{
    if 0 <= i < s.len() && is_ident_char(s[i]) { ident_end(s, i + 1) } else { i }
}

/// The end of a `//` comment begun before `i`: the next newline or NUL.
pub open spec fn comment_end(s: Seq<u8>, i: int) -> int
    decreases s.len() - i,
{
    if 0 <= i < s.len() && s[i] != 10 && s[i] != 0 { comment_end(s, i + 1) } else { i }
}

pub proof fn lemma_comment_end(s: Seq<u8>, i: int)
    requires
        0 <= i,
    ensures
        i <= comment_end(s, i),
        i <= s.len() ==> comment_end(s, i) <= s.len(),
    decreases s.len() - i,
{
    if 0 <= i < s.len() && s[i] != 10 && s[i] != 0 {
        lemma_comment_end(s, i + 1);
    }
}

/// The position after the white space and `//` comments at `i`.
pub open spec fn skip_space(s: Seq<u8>, i: int) -> int
    decreases s.len() - i,
{
    if i < 0 || i >= s.len() {
        i
    } else if is_space(s[i]) {
        skip_space(s, i + 1)
    } else if s[i] == 47 && at(s, i + 1) == 47 {
        proof {
            lemma_comment_end(s, i + 2);
        }
        skip_space(s, comment_end(s, i + 2))
    } else {
        i
    }
}

/// The value of a run of decimal digits.
pub open spec fn digits_value(d: Seq<u8>) -> nat
    decreases d.len(),
{
    if d.len() == 0 {
        0
    } else {
        digits_value(d.drop_last()) * 10 + (d.last() - 48) as nat
    }
}

/// The keyword a name spells, if any.
pub open spec fn keyword(t: Seq<u8>) -> Option<TokenKind> {
    if t == str_bytes("let") {
        Some(TokenKind::Let)
    } else if t == str_bytes("fn") {
        Some(TokenKind::Fn)
    } else if t == str_bytes("if") {
        Some(TokenKind::If)
    } else if t == str_bytes("else") {
        Some(TokenKind::Else)
    } else if t == str_bytes("while") {
        Some(TokenKind::While)
    } else if t == str_bytes("for") {
        Some(TokenKind::For)
    } else if t == str_bytes("return") {
        Some(TokenKind::Return)
    } else if t == str_bytes("true") {
        Some(TokenKind::True)
    } else if t == str_bytes("false") {
        Some(TokenKind::False)
    } else if t == str_bytes("nil") {
        Some(TokenKind::Nil)
    } else if t == str_bytes("print") {
        Some(TokenKind::Print)
    } else {
        None
    }
}

/// The UTF-8 text of the character whose code is the byte `c`.
pub open spec fn byte_char_text(c: u8) -> Seq<u8> {
    if c < 128 {
        seq![c]
    } else {
        seq![(0xc0u8 | (c >> 6u8)) as u8, (0x80u8 | (c & 0x3fu8)) as u8]
    }
}

/// A lexical error: its message and line.
pub type LexErr = (Seq<u8>, int);

/// The rest of a string literal from `i`, with `acc` read so far: escapes
/// `\n`, `\t`, `\"`, `\\` are decoded; every other byte, those of UTF-8
/// encoded non-ASCII characters included, is kept as it is. `start` is the
/// literal's line. Yields the text and the position
/// after the closing quote.
pub open spec fn string_body(s: Seq<u8>, i: int, acc: Seq<u8>, start: int) -> Result<(Seq<u8>, int), LexErr>
    decreases s.len() - i,
{
    let c = at(s, i);
    if i < 0 || c == 0 {
        Err((str_bytes("unterminated string literal"), start))
    } else if c == 34 {
        Ok((acc, i + 1))
    } else if c == 92 {
        let e = at(s, i + 1);
        if e == 0 {
            Err((str_bytes("unterminated string literal"), start))
        } else if e == 110 {
            string_body(s, i + 2, acc.push(10u8), start)
        } else if e == 116 {
            string_body(s, i + 2, acc.push(9u8), start)
        } else if e == 34 {
            string_body(s, i + 2, acc.push(34u8), start)
        } else if e == 92 {
            string_body(s, i + 2, acc.push(92u8), start)
        } else {
            Err((str_bytes("unknown escape sequence '\\") + byte_char_text(e) + str_bytes("'"), line_at(s, i + 2)))
        }
    } else {
        string_body(s, i + 1, acc.push(c), start)
    }
}

/// A number literal at `j`: digits, and optionally `.` and digits. Its
/// fraction must be zero and its value at most `MAX_SAFE`.
pub open spec fn number_token(s: Seq<u8>, j: int) -> Result<(SKind, int), LexErr> {
    let de = digits_end(s, j);
    let has_frac = at(s, de) == 46 && is_digit(at(s, de + 1));
    let end = if has_frac { digits_end(s, de + 1) } else { de };
    let v = digits_value(s.subrange(j, de));
    if has_frac && exists|k: int| de + 1 <= k < end && s[k] != 48 {
        Err((str_bytes("fractional number literals are not supported"), line_at(s, j)))
    } else if v > MAX_SAFE {
        Err((str_bytes("number literal out of range"), line_at(s, j)))
    } else {
        Ok((SKind::Num(v as int), end))
    }
}

/// The token a one- or two-byte operator or punctuation starts, if `c` starts one.
pub open spec fn symbol_token(c: u8, d: u8) -> Option<(TokenKind, int)> {
    if c == 40 { Some((TokenKind::LParen, 1)) }
    else if c == 41 { Some((TokenKind::RParen, 1)) }
    else if c == 123 { Some((TokenKind::LBrace, 1)) }
    else if c == 125 { Some((TokenKind::RBrace, 1)) }
    else if c == 91 { Some((TokenKind::LBracket, 1)) }
    else if c == 93 { Some((TokenKind::RBracket, 1)) }
    else if c == 44 { Some((TokenKind::Comma, 1)) }
    else if c == 59 { Some((TokenKind::Semicolon, 1)) }
    else if c == 58 { Some((TokenKind::Colon, 1)) }
    else if c == 43 { Some((TokenKind::Plus, 1)) }
    else if c == 45 { Some((TokenKind::Minus, 1)) }
    else if c == 42 { Some((TokenKind::Star, 1)) }
    else if c == 47 { Some((TokenKind::Slash, 1)) }
    else if c == 37 { Some((TokenKind::Percent, 1)) }
    else if c == 61 { if d == 61 { Some((TokenKind::EqEq, 2)) } else { Some((TokenKind::Assign, 1)) } }
    else if c == 33 { if d == 61 { Some((TokenKind::NotEq, 2)) } else { Some((TokenKind::Bang, 1)) } }
    else if c == 60 { if d == 61 { Some((TokenKind::LtEq, 2)) } else { Some((TokenKind::Lt, 1)) } }
    else if c == 62 { if d == 61 { Some((TokenKind::GtEq, 2)) } else { Some((TokenKind::Gt, 1)) } }
    else if c == 38 && d == 38 { Some((TokenKind::AndAnd, 2)) }
    else if c == 124 && d == 124 { Some((TokenKind::OrOr, 2)) }
    else { None }
}

/// The token starting at `j` (a position holding a byte other than NUL)
/// and the position after it.
#[verifier::opaque]
pub open spec fn scan_token(s: Seq<u8>, j: int) -> Result<(SKind, int), LexErr> {
    let c = at(s, j);
    let line = line_at(s, j);
    match symbol_token(c, at(s, j + 1)) {
        Some((k, w)) => Ok((SKind::Plain(k), j + w)),
        None => if c == 38 {
            Err((str_bytes("unexpected character '&' (did you mean '&&'?)"), line))
        } else if c == 124 {
            Err((str_bytes("unexpected character '|' (did you mean '||'?)"), line))
        } else if c == 34 {
            match string_body(s, j + 1, Seq::empty(), line) {
                Ok((t, end)) => Ok((SKind::Str(t), end)),
                Err(e) => Err(e),
            }
        } else if is_digit(c) {
            number_token(s, j)
        } else if is_alpha(c) || c == 95 {
            let end = ident_end(s, j);
            let t = s.subrange(j, end);
            match keyword(t) {
                Some(k) => Ok((SKind::Plain(k), end)),
                None => Ok((SKind::Ident(t), end)),
            }
        } else {
            Err((str_bytes("unexpected character '") + byte_char_text(c) + str_bytes("'"), line))
        }
    }
}

/// The tokens of `s` from position `i` on, each with its line, ending with
/// `Eof`; or the first lexical error.
pub open spec fn tokens_from(s: Seq<u8>, i: int) -> Result<Seq<(SKind, int)>, LexErr>
    decreases s.len() - i,
{
    let j = skip_space(s, i);
    if i < 0 || at(s, j) == 0 || j < i {
        Ok(seq![(SKind::Plain(TokenKind::Eof), line_at(s, j))])
    } else {
        match scan_token(s, j) {
            Err(e) => Err(e),
            Ok((k, end)) => if end <= i || end > s.len() {
                Ok(seq![(SKind::Plain(TokenKind::Eof), line_at(s, j))])
            } else {
                match tokens_from(s, end) {
                    Ok(rest) => Ok(seq![(k, line_at(s, j))] + rest),
                    Err(e) => Err(e),
                }
            },
        }
    }
}

/// The tokens of a whole source text.
pub open spec fn lex_result(s: Seq<u8>) -> Result<Seq<(SKind, int)>, LexErr> {
    tokens_from(s, 0)
}

/// How a byte is written inside a string literal: newline, tab, double
/// quote and backslash by their escapes `\n`, `\t`, `\"`, `\\`; any other
/// byte as itself.
pub open spec fn literal_byte(b: u8) -> Seq<u8> {
    if b == 10 {
        seq![92u8, 110u8]
    } else if b == 9 {
        seq![92u8, 116u8]
    } else if b == 34 {
        seq![92u8, 34u8]
    } else if b == 92 {
        seq![92u8, 92u8]
    } else {
        seq![b]
    }
}

/// The text `t` written inside a string literal, byte by byte.
pub open spec fn literal_text(t: Seq<u8>) -> Seq<u8>
    decreases t.len(),
{
    if t.len() == 0 {
        Seq::empty()
    } else {
        literal_byte(t[0]) + literal_text(t.drop_first())
    }
}

/// A string literal reads back the text it was written from: where `s`
/// holds `t` written with escapes (`literal_text`) up to a closing quote,
/// the rest of the literal is `t` exactly, whatever was read before it, and
/// reading ends after the quote. So `\t` stands for the tab byte, `\n` for
/// the newline, `\"` for the quote and `\\` for the backslash.
pub proof fn lemma_string_body_reads_back(s: Seq<u8>, i: int, acc: Seq<u8>, t: Seq<u8>, start: int)
    requires
        0 <= i,
        i + literal_text(t).len() < s.len(),
        s.subrange(i, i + literal_text(t).len()) == literal_text(t),
        s[i + literal_text(t).len()] == 34,
        forall|k: int| 0 <= k < t.len() ==> t[k] != 0,
    ensures
        string_body(s, i, acc, start) == Ok::<(Seq<u8>, int), LexErr>((acc + t, i + literal_text(t).len() + 1)),
    decreases t.len(),
{
    let n = literal_text(t).len() as int;
    if t.len() == 0 {
        assert(acc + t =~= acc);
    } else {
        let b = t[0];
        let w = literal_byte(b);
        let rest = t.drop_first();
        let m = literal_text(rest).len() as int;
        assert(literal_text(t) == w + literal_text(rest));
        assert(s[i] == literal_text(t)[0]);
        if w.len() == 2 {
            assert(s[i + 1] == literal_text(t)[1]);
        }
        assert(s.subrange(i + w.len(), i + w.len() + m) =~= literal_text(rest)) by {
            assert forall|k: int| 0 <= k < m implies s.subrange(i + w.len(), i + w.len() + m)[k] == literal_text(rest)[k] by {
                assert(s[i + w.len() + k] == s.subrange(i, i + n)[w.len() + k]);
                assert(literal_text(t)[w.len() + k] == literal_text(rest)[k]);
            }
        }
        assert forall|k: int| 0 <= k < rest.len() implies rest[k] != 0 by {
            assert(rest[k] == t[k + 1]);
        }
        lemma_string_body_reads_back(s, i + w.len(), acc.push(b), rest, start);
        assert(acc.push(b) + rest =~= acc + t);
    }
}

/// A double quote followed by `t` written with escapes and a closing quote
/// is one string token holding `t`.
pub proof fn lemma_string_token(s: Seq<u8>, j: int, t: Seq<u8>)
    requires
        0 <= j,
        s[j] == 34,
        j + 1 + literal_text(t).len() < s.len(),
        s.subrange(j + 1, j + 1 + literal_text(t).len()) == literal_text(t),
        s[j + 1 + literal_text(t).len()] == 34,
        forall|k: int| 0 <= k < t.len() ==> t[k] != 0,
    ensures
        scan_token(s, j) == Ok::<(SKind, int), LexErr>((SKind::Str(t), j + literal_text(t).len() + 2)),
{
    reveal(scan_token);
    lemma_string_body_reads_back(s, j + 1, Seq::empty(), t, line_at(s, j));
    assert(Seq::<u8>::empty() + t =~= t);
}

pub proof fn lemma_count_newlines_le(s: Seq<u8>)
    ensures
        count_newlines(s) <= s.len(),
    decreases s.len(),
{
    if s.len() > 0 {
        lemma_count_newlines_le(s.drop_last());
    }
}

/// A prefix holds no more newlines than the whole text.
pub proof fn lemma_count_newlines_prefix(s: Seq<u8>, q: int)
    requires
        0 <= q <= s.len(),
    ensures
        count_newlines(s.subrange(0, q)) <= count_newlines(s),
    decreases s.len() - q,
{
    if q < s.len() {
        assert(s.subrange(0, q + 1).drop_last() =~= s.subrange(0, q));
        lemma_count_newlines_prefix(s, q + 1);
    } else {
        assert(s.subrange(0, q) =~= s);
    }
}

/// The source texts whose lines a `u32` counts, and whose positions fit
/// in memory: fewer than `0xffff_ffff` newlines.
pub open spec fn source_fits(s: Seq<u8>) -> bool {
    &&& count_newlines(s) < 0xffff_ffff
    &&& s.len() < usize::MAX
}

proof fn lemma_line_step(s: Seq<u8>, p: int)
    requires
        0 <= p,
    ensures
        line_at(s, p + 1) == line_at(s, p) + if at(s, p) == 10 { 1int } else { 0int },
        line_at(s, p) <= 1 + count_newlines(s),
{
    if p < s.len() {
        assert(s.subrange(0, p + 1).drop_last() =~= s.subrange(0, p));
    }
    let q = if p < s.len() { p } else { s.len() as int };
    lemma_count_newlines_prefix(s, q);
}

/// The error a lexical error stands for.
pub open spec fn lex_error_is(e: SfError, le: LexErr) -> bool {
    &&& e is Lex
    &&& e.spec_message() == le.0
    &&& e.spec_line() as int == le.1
}

/// A lexer over a source text: its bytes, the position it has reached and
/// the line of that position.
pub struct Lexer<'a> {
    pub src: &'a [u8],
    pub pos: usize,
    pub line: u32,
}

fn lex_error(m: Vec<u8>, line: u32) -> (e: SfError)
    ensures
        e is Lex && e.spec_message() == m@ && e.spec_line() == line,
{
    SfError::lex(m, line)
}

fn lex_error_text(t: &str, line: u32) -> (e: SfError)
    ensures
        e is Lex && e.spec_message() == str_bytes(t) && e.spec_line() == line,
{
    let mut m: Vec<u8> = Vec::new();
    push_str(&mut m, t);
    assert(m@ =~= str_bytes(t));
    lex_error(m, line)
}

fn push_byte_char(m: &mut Vec<u8>, c: u8)
    ensures
        final(m)@ == old(m)@ + byte_char_text(c),
{
    if c < 128 {
        m.push(c);
    } else {
        m.push(0xc0u8 | (c >> 6u8));
        m.push(0x80u8 | (c & 0x3fu8));
    }
    assert(m@ =~= old(m)@ + byte_char_text(c));
}

/// The keyword `t` spells, if any.
fn keyword_of(t: &[u8]) -> (r: Option<TokenKind>)
    ensures
        r == keyword(t@),
{
    if bytes_eq(t, "let".as_bytes()) {
        Some(TokenKind::Let)
    } else if bytes_eq(t, "fn".as_bytes()) {
        Some(TokenKind::Fn)
    } else if bytes_eq(t, "if".as_bytes()) {
        Some(TokenKind::If)
    } else if bytes_eq(t, "else".as_bytes()) {
        Some(TokenKind::Else)
    } else if bytes_eq(t, "while".as_bytes()) {
        Some(TokenKind::While)
    } else if bytes_eq(t, "for".as_bytes()) {
        Some(TokenKind::For)
    } else if bytes_eq(t, "return".as_bytes()) {
        Some(TokenKind::Return)
    } else if bytes_eq(t, "true".as_bytes()) {
        Some(TokenKind::True)
    } else if bytes_eq(t, "false".as_bytes()) {
        Some(TokenKind::False)
    } else if bytes_eq(t, "nil".as_bytes()) {
        Some(TokenKind::Nil)
    } else if bytes_eq(t, "print".as_bytes()) {
        Some(TokenKind::Print)
    } else {
        None
    }
}

impl<'a> Lexer<'a> {
    /// The lexer's invariant: its position is at most one past the end,
    /// and `line` is the line of that position.
    pub open spec fn wf(&self) -> bool {
        &&& source_fits(self.src@)
        &&& self.pos <= self.src@.len() + 1
        &&& self.line == line_at(self.src@, self.pos as int)
    }

    /// A lexer at the start of `src`.
    pub fn new(src: &'a str) -> (l: Lexer<'a>)
        requires
            source_fits(str_bytes(src)),
        ensures
            l.wf(),
            l.src@ == str_bytes(src),
            l.pos == 0,
    {
        let l = Lexer { src: src.as_bytes(), pos: 0, line: 1 };
        assert(l.src@.subrange(0, 0) =~= Seq::<u8>::empty());
        l
    }

    /// The current byte (0 at the end).
    fn peek(&self) -> (c: u8)
        ensures
            c == at(self.src@, self.pos as int),
    {
        if self.pos < self.src.len() { self.src[self.pos] } else { 0 }
    }

    /// The byte after the current one (0 at the end).
    fn peek2(&self) -> (c: u8)
        requires
            self.wf(),
        ensures
            c == at(self.src@, self.pos + 1),
    {
        if self.pos < self.src.len() && self.pos + 1 < self.src.len() { self.src[self.pos + 1] } else { 0 }
    }

    /// Consumes the current byte, counting a newline.
    fn advance(&mut self) -> (c: u8)
        requires
            old(self).wf(),
            old(self).pos <= old(self).src@.len(),
        ensures
            final(self).wf(),
            final(self).src == old(self).src,
            final(self).pos == old(self).pos + 1,
            c == at(old(self).src@, old(self).pos as int),
    {
        let c = self.peek();
        proof {
            lemma_line_step(self.src@, self.pos as int);
            lemma_line_step(self.src@, self.pos + 1);
        }
        self.pos = self.pos + 1;
        if c == 10 {
            self.line = self.line + 1;
        }
        c
    }

    /// Skips white space and `//` comments.
    fn skip_whitespace_and_comments(&mut self)
        requires
            old(self).wf(),
            old(self).pos <= old(self).src@.len(),
        ensures
            final(self).wf(),
            final(self).src == old(self).src,
            final(self).pos == skip_space(old(self).src@, old(self).pos as int),
            final(self).pos <= final(self).src@.len(),
    {
        let ghost s = self.src@;
        let ghost target = skip_space(s, self.pos as int);
        let mut done = false;
        while !done
            invariant
                self.wf(),
                self.src@ == s,
                self.src == old(self).src,
                self.pos <= s.len(),
                skip_space(s, self.pos as int) == target,
                done ==> self.pos == target,
            decreases s.len() - self.pos + if done { 0int } else { 1int },
        {
            let c = self.peek();
            if c == 32 || c == 9 || c == 13 || c == 10 {
                self.advance();
            } else if c == 47 && self.peek2() == 47 {
                let ghost i = self.pos as int;
                proof {
                    lemma_comment_end(s, i + 2);
                    assert(comment_end(s, i + 1) == comment_end(s, i + 2));
                    assert(comment_end(s, i) == comment_end(s, i + 1));
                }
                while self.peek() != 10 && self.peek() != 0
                    invariant
                        self.wf(),
                        self.src@ == s,
                        self.src == old(self).src,
                        i <= self.pos <= s.len(),
                        comment_end(s, self.pos as int) == comment_end(s, i + 2),
                        self.pos == i || self.pos == i + 1 ==> at(s, self.pos as int) == 47,
                        self.pos == i ==> at(s, i + 1) == 47,
                    decreases s.len() - self.pos,
                {
                    self.advance();
                }
                proof {
                    assert(self.pos >= i + 2);
                    lemma_comment_end(s, i + 2);
                }
            } else {
                done = true;
            }
        }
    }
}

/// The outcome of scanning one token: its kind and the lexer after it, or
/// the error that `spec` describes.
pub open spec fn scanned_as(r: Result<TokenKind, SfError>, pos_after: int, spec: Result<(SKind, int), LexErr>) -> bool {
    match spec {
        Ok((k, end)) => r is Ok && kind_view(r->Ok_0) == k && pos_after == end,
        Err(le) => r is Err && lex_error_is(r->Err_0, le),
    }
}

proof fn lemma_digits_value_push(d: Seq<u8>, c: u8)
    requires
        is_digit(c),
    ensures
        digits_value(d.push(c)) == digits_value(d) * 10 + (c - 48),
        digits_value(d.push(c)) >= digits_value(d),
{
    assert(d.push(c).drop_last() =~= d);
}

impl<'a> Lexer<'a> {
    /// Reads the rest of a string literal; the opening quote is consumed.
    fn read_string(&mut self, line: u32) -> (r: Result<TokenKind, SfError>)
        requires
            old(self).wf(),
            old(self).pos <= old(self).src@.len(),
        ensures
            final(self).wf(),
            final(self).src == old(self).src,
            r is Ok ==> final(self).pos <= final(self).src@.len(),
            final(self).pos >= old(self).pos,
            match string_body(old(self).src@, old(self).pos as int, Seq::empty(), line as int) {
                Ok((t, end)) => r is Ok && kind_view(r->Ok_0) == SKind::Str(t) && final(self).pos == end,
                Err(le) => r is Err && lex_error_is(r->Err_0, le),
            },
    {
        let ghost s = self.src@;
        let ghost total = string_body(s, self.pos as int, Seq::empty(), line as int);
        let mut acc: Vec<u8> = Vec::new();
        let mut result: Option<Result<TokenKind, SfError>> = None;
        while result.is_none()
            invariant
                self.wf(),
                self.src@ == s,
                self.src == old(self).src,
                result is None ==> self.pos <= s.len(),
                result matches Some(Ok(_)) ==> self.pos <= s.len(),
                self.pos >= old(self).pos,
                result is None ==> string_body(s, self.pos as int, acc@, line as int) == total,
                result matches Some(r) ==> match total {
                    Ok((t, end)) => r is Ok && kind_view(r->Ok_0) == SKind::Str(t) && self.pos == end,
                    Err(le) => r is Err && lex_error_is(r->Err_0, le),
                },
            decreases s.len() + 1 - self.pos + if result is None { 1int } else { 0int },
        {
            let c = self.peek();
            if c == 0 {
                result = Some(Err(lex_error_text("unterminated string literal", line)));
            } else if c == 34 {
                self.advance();
                let mut done: Vec<u8> = Vec::new();
                std::mem::swap(&mut done, &mut acc);
                result = Some(Ok(TokenKind::Str(done)));
            } else if c == 92 {
                self.advance();
                let e = self.advance();
                if e == 110 {
                    acc.push(10u8);
                } else if e == 116 {
                    acc.push(9u8);
                } else if e == 34 {
                    acc.push(34u8);
                } else if e == 92 {
                    acc.push(92u8);
                } else if e == 0 {
                    result = Some(Err(lex_error_text("unterminated string literal", line)));
                } else {
                    let mut m: Vec<u8> = Vec::new();
                    push_str(&mut m, "unknown escape sequence '\\");
                    push_byte_char(&mut m, e);
                    push_str(&mut m, "'");
                    assert(m@ =~= str_bytes("unknown escape sequence '\\") + byte_char_text(e) + str_bytes("'"));
                    result = Some(Err(lex_error(m, self.line)));
                }
            } else {
                self.advance();
                acc.push(c);
            }
        }
        result.unwrap()
    }

    /// Reads a number literal starting at the current digit.
    fn read_number(&mut self) -> (r: Result<TokenKind, SfError>)
        requires
            old(self).wf(),
            old(self).pos < old(self).src@.len(),
            is_digit(old(self).src@[old(self).pos as int]),
        ensures
            final(self).wf(),
            final(self).src == old(self).src,
            final(self).pos <= final(self).src@.len(),
            scanned_as(r, final(self).pos as int, number_token(old(self).src@, old(self).pos as int)),
            final(self).pos > old(self).pos,
    {
        let ghost s = self.src@;
        let start = self.pos;
        let line = self.line;
        let mut value: u64 = 0;
        let mut big = false;
        while self.peek() >= 48 && self.peek() <= 57
            invariant
                self.wf(),
                self.src@ == s,
                self.src == old(self).src,
                start <= self.pos <= s.len(),
                start == old(self).pos,
                line == line_at(s, start as int),
                digits_end(s, start as int) == digits_end(s, self.pos as int),
                forall|k: int| start <= k < self.pos ==> is_digit(s[k]),
                big ==> digits_value(s.subrange(start as int, self.pos as int)) > MAX_SAFE,
                !big ==> value == digits_value(s.subrange(start as int, self.pos as int)) && value <= MAX_SAFE,
            decreases s.len() - self.pos,
        {
            let ghost p = self.pos as int;
            let d = self.advance();
            proof {
                assert(s.subrange(start as int, p + 1) =~= s.subrange(start as int, p).push(d));
                lemma_digits_value_push(s.subrange(start as int, p), d);
            }
            if !big {
                let nv = value * 10 + (d - 48) as u64;
                if nv > MAX_SAFE as u64 {
                    big = true;
                } else {
                    value = nv;
                }
            }
        }
        let de = self.pos;
        let mut frac_nonzero = false;
        if self.peek() == 46 && self.peek2() >= 48 && self.peek2() <= 57 {
            self.advance();
            let fstart = self.pos;
            proof {
                assert(de + 1 == fstart);
            }
            while self.peek() >= 48 && self.peek() <= 57
                invariant
                    self.wf(),
                    self.src@ == s,
                    self.src == old(self).src,
                    fstart <= self.pos <= s.len(),
                    fstart == de + 1,
                    digits_end(s, fstart as int) == digits_end(s, self.pos as int),
                    frac_nonzero <==> exists|k: int| fstart <= k < self.pos && s[k] != 48,
                decreases s.len() - self.pos,
            {
                let ghost p = self.pos as int;
                let d = self.advance();
                if d != 48 {
                    frac_nonzero = true;
                }
                proof {
                    if !frac_nonzero {
                        assert forall|k: int| fstart <= k < self.pos implies s[k] == 48 by {
                            if k < p {
                            } else {
                                assert(k == p);
                            }
                        }
                    } else if d != 48 {
                        assert(s[p] != 48);
                    }
                }
            }
        }
        proof {
            assert(digits_end(s, de as int) == de);
        }
        if frac_nonzero {
            return Err(lex_error_text("fractional number literals are not supported", line));
        }
        if big {
            return Err(lex_error_text("number literal out of range", line));
        }
        Ok(TokenKind::Number(value as i64))
    }

    /// Reads a name or keyword starting at the current byte.
    fn read_ident(&mut self) -> (r: TokenKind)
        requires
            old(self).wf(),
            old(self).pos < old(self).src@.len(),
        ensures
            final(self).wf(),
            final(self).src == old(self).src,
            final(self).pos <= final(self).src@.len(),
            final(self).pos == ident_end(old(self).src@, old(self).pos as int),
            is_ident_char(old(self).src@[old(self).pos as int]) ==> final(self).pos > old(self).pos,
            kind_view(r) == (match keyword(old(self).src@.subrange(old(self).pos as int, final(self).pos as int)) {
                Some(k) => SKind::Plain(k),
                None => SKind::Ident(old(self).src@.subrange(old(self).pos as int, final(self).pos as int)),
            }),
    {
        let ghost s = self.src@;
        let start = self.pos;
        let mut text: Vec<u8> = Vec::new();
        while self.pos < self.src.len() && ((self.src[self.pos] >= 48 && self.src[self.pos] <= 57)
            || (self.src[self.pos] >= 65 && self.src[self.pos] <= 90)
            || (self.src[self.pos] >= 97 && self.src[self.pos] <= 122) || self.src[self.pos] == 95)
            invariant
                self.wf(),
                self.src@ == s,
                self.src == old(self).src,
                start <= self.pos <= s.len(),
                start == old(self).pos,
                ident_end(s, start as int) == ident_end(s, self.pos as int),
                text@ == s.subrange(start as int, self.pos as int),
            decreases s.len() - self.pos,
        {
            let c = self.advance();
            text.push(c);
            assert(text@ =~= s.subrange(start as int, self.pos as int));
        }
        match keyword_of(text.as_slice()) {
            Some(k) => k,
            None => TokenKind::Ident(text),
        }
    }
}

/// The tokens `toks` followed by the outcome `rest`.
pub open spec fn after_tokens(toks: Seq<(SKind, int)>, rest: Result<Seq<(SKind, int)>, LexErr>) -> Result<Seq<(SKind, int)>, LexErr> {
    match rest {
        Ok(r) => Ok(toks + r),
        Err(e) => Err(e),
    }
}

pub open spec fn tokens_view(toks: Seq<Token>) -> Seq<(SKind, int)> {
    toks.map_values(|t: Token| (kind_view(t.kind), t.line as int))
}

impl<'a> Lexer<'a> {
    /// Scans the token at the current position, which holds a byte other
    /// than NUL.
    fn scan(&mut self) -> (r: Result<TokenKind, SfError>)
        requires
            old(self).wf(),
            old(self).pos < old(self).src@.len(),
            old(self).src@[old(self).pos as int] != 0,
        ensures
            final(self).wf(),
            final(self).src == old(self).src,
            r is Ok ==> final(self).pos <= final(self).src@.len(),
            r is Ok ==> final(self).pos > old(self).pos,
            final(self).pos >= old(self).pos,
            scanned_as(r, final(self).pos as int, scan_token(old(self).src@, old(self).pos as int)),
    {
        reveal(scan_token);
        let ghost s = self.src@;
        let ghost j = self.pos as int;
        let line = self.line;
        let c = self.peek();
        let d = self.peek2();
        let simple: Option<(TokenKind, usize)> = if c == 40 { Some((TokenKind::LParen, 1)) }
            else if c == 41 { Some((TokenKind::RParen, 1)) }
            else if c == 123 { Some((TokenKind::LBrace, 1)) }
            else if c == 125 { Some((TokenKind::RBrace, 1)) }
            else if c == 91 { Some((TokenKind::LBracket, 1)) }
            else if c == 93 { Some((TokenKind::RBracket, 1)) }
            else if c == 44 { Some((TokenKind::Comma, 1)) }
            else if c == 59 { Some((TokenKind::Semicolon, 1)) }
            else if c == 58 { Some((TokenKind::Colon, 1)) }
            else if c == 43 { Some((TokenKind::Plus, 1)) }
            else if c == 45 { Some((TokenKind::Minus, 1)) }
            else if c == 42 { Some((TokenKind::Star, 1)) }
            else if c == 47 { Some((TokenKind::Slash, 1)) }
            else if c == 37 { Some((TokenKind::Percent, 1)) }
            else if c == 61 { if d == 61 { Some((TokenKind::EqEq, 2)) } else { Some((TokenKind::Assign, 1)) } }
            else if c == 33 { if d == 61 { Some((TokenKind::NotEq, 2)) } else { Some((TokenKind::Bang, 1)) } }
            else if c == 60 { if d == 61 { Some((TokenKind::LtEq, 2)) } else { Some((TokenKind::Lt, 1)) } }
            else if c == 62 { if d == 61 { Some((TokenKind::GtEq, 2)) } else { Some((TokenKind::Gt, 1)) } }
            else if c == 38 && d == 38 { Some((TokenKind::AndAnd, 2)) }
            else if c == 124 && d == 124 { Some((TokenKind::OrOr, 2)) }
            else { None };
        match simple {
            Some((k, w)) => {
                assert(symbol_token(c, d) == Some((k, w as int)));
                self.advance();
                if w == 2 {
                    self.advance();
                }
                assert(self.pos > j);
                Ok(k)
            },
            None => {
                assert(symbol_token(c, d) is None);
                if c == 38 {
                    Err(lex_error_text("unexpected character '&' (did you mean '&&'?)", line))
                } else if c == 124 {
                    Err(lex_error_text("unexpected character '|' (did you mean '||'?)", line))
                } else if c == 34 {
                    self.advance();
                    self.read_string(line)
                } else if c >= 48 && c <= 57 {
                    self.read_number()
                } else if (c >= 65 && c <= 90) || (c >= 97 && c <= 122) || c == 95 {
                    Ok(self.read_ident())
                } else {
                    let mut m: Vec<u8> = Vec::new();
                    push_str(&mut m, "unexpected character '");
                    push_byte_char(&mut m, c);
                    push_str(&mut m, "'");
                    assert(m@ =~= str_bytes("unexpected character '") + byte_char_text(c) + str_bytes("'"));
                    Err(lex_error(m, line))
                }
            },
        }
    }

    /// Tokenizes the rest of the input, ending with a single `Eof` token.
    pub fn tokenize(self) -> (r: Result<Vec<Token>, SfError>)
        requires
            self.wf(),
            self.pos <= self.src@.len(),
        ensures
            match tokens_from(self.src@, self.pos as int) {
                Ok(toks) => r is Ok && tokens_view(r->Ok_0@) == toks,
                Err(le) => r is Err && lex_error_is(r->Err_0, le),
            },
    {
        let mut lx = self;
        let ghost s = lx.src@;
        let ghost total = tokens_from(s, lx.pos as int);
        let mut out: Vec<Token> = Vec::new();
        let mut result: Option<Result<(), SfError>> = None;
        assert(tokens_view(out@) =~= Seq::<(SKind, int)>::empty());
        assert(after_tokens(Seq::empty(), total) == total) by {
            match total {
                Ok(t) => {
                    assert(Seq::<(SKind, int)>::empty() + t =~= t);
                },
                Err(_) => {},
            }
        }
        while result.is_none()
            invariant
                lx.wf(),
                lx.src@ == s,
                result is None ==> lx.pos <= s.len(),
                result is None ==> total == after_tokens(tokens_view(out@), tokens_from(s, lx.pos as int)),
                result matches Some(r) ==> match total {
                    Ok(toks) => r is Ok && tokens_view(out@) == toks,
                    Err(le) => r is Err && lex_error_is(r->Err_0, le),
                },
            decreases s.len() + 1 - lx.pos + if result is None { 1int } else { 0int },
        {
            let ghost i = lx.pos as int;
            let ghost before = tokens_view(out@);
            lx.skip_whitespace_and_comments();
            let line = lx.line;
            let c = lx.peek();
            proof {
                let j = lx.pos as int;
                assert(j >= i) by {
                    lemma_skip_space_ge(s, i);
                }
            }
            if c == 0 {
                out.push(Token::new(TokenKind::Eof, line));
                assert(tokens_view(out@) =~= before + seq![(SKind::Plain(TokenKind::Eof), line as int)]);
                result = Some(Ok(()));
            } else {
                let ghost j = lx.pos as int;
                match lx.scan() {
                    Ok(k) => {
                        out.push(Token::new(k, line));
                        proof {
                            let k_view = kind_view(k);
                            assert(line_at(s, j) == line as int);
                            assert(tokens_from(s, i) == after_tokens(seq![(k_view, line as int)], tokens_from(s, lx.pos as int)));
                            assert(tokens_view(out@) =~= before.push((k_view, line as int)));
                            match tokens_from(s, lx.pos as int) {
                                Ok(rest) => {
                                    assert(before + (seq![(k_view, line as int)] + rest) =~= before.push((k_view, line as int)) + rest);
                                },
                                Err(_) => {},
                            }
                        }
                    },
                    Err(e) => {
                        result = Some(Err(e));
                    },
                }
            }
        }
        match result {
            Some(Ok(())) => Ok(out),
            Some(Err(e)) => Err(e),
            None => Ok(out),
        }
    }
}

proof fn lemma_skip_space_ge(s: Seq<u8>, i: int)
    ensures
        skip_space(s, i) >= i,
        0 <= i <= s.len() ==> skip_space(s, i) <= s.len(),
    decreases s.len() - i,
{
    if i < 0 || i >= s.len() {
    } else if is_space(s[i]) {
        lemma_skip_space_ge(s, i + 1);
    } else if s[i] == 47 && at(s, i + 1) == 47 {
        lemma_comment_end(s, i + 2);
        lemma_skip_space_ge(s, comment_end(s, i + 2));
    }
}

/// Tokenizes a whole source text.
pub fn lex(src: &str) -> (r: Result<Vec<Token>, SfError>)
    requires
        source_fits(str_bytes(src)),
    ensures
        match lex_result(str_bytes(src)) {
            Ok(toks) => r is Ok && tokens_view(r->Ok_0@) == toks,
            Err(le) => r is Err && lex_error_is(r->Err_0, le),
        },
{
    Lexer::new(src).tokenize()
}

/// Scanning never yields `Eof`.
proof fn lemma_scan_not_eof(s: Seq<u8>, j: int)
    ensures
        scan_token(s, j) matches Ok((k, _)) ==> k != SKind::Plain(TokenKind::Eof),
{
    reveal(scan_token);
    let c = at(s, j);
    if is_alpha(c) || c == 95 {
        let t = s.subrange(j, ident_end(s, j));
        assert(keyword(t) != Some(TokenKind::Eof));
    }
}

/// A successful lexing ends with the one `Eof` token.
pub proof fn lemma_tokens_end_with_eof(s: Seq<u8>, i: int)
    ensures
        tokens_from(s, i) matches Ok(t) ==> t.len() > 0 && t.last().0 == SKind::Plain(TokenKind::Eof)
            && forall|k: int| 0 <= k < t.len() - 1 ==> t[k].0 != SKind::Plain(TokenKind::Eof),
    decreases s.len() - i,
{
    let j = skip_space(s, i);
    if i < 0 || at(s, j) == 0 || j < i {
    } else {
        lemma_scan_not_eof(s, j);
        match scan_token(s, j) {
            Err(e) => {},
            Ok((k, end)) => if end <= i || end > s.len() {
            } else {
                lemma_tokens_end_with_eof(s, end);
                match tokens_from(s, end) {
                    Ok(rest) => {
                        let t = seq![(k, line_at(s, j))] + rest;
                        assert(t.last() == rest.last());
                        assert forall|m: int| 0 <= m < t.len() - 1 implies t[m].0 != SKind::Plain(TokenKind::Eof) by {
                            if m > 0 {
                                assert(t[m] == rest[m - 1]);
                            }
                        }
                    },
                    Err(_) => {},
                }
            },
        }
    }
}

} // verus!
