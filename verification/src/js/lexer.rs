//! The script lexer: source text to tokens with their line numbers.
use vstd::prelude::*;
use crate::text::{
    char_is_alphabetic, char_is_alphanumeric, chars_of, decimal, find_from, is_digit, push_char, push_decimal,
    push_str, spec_is_alphabetic, spec_is_alphanumeric, string_of,
};

verus! {

#[derive(Debug, Clone, PartialEq)]
pub enum TokenKind {
    // Literals; a number keeps the text of its literal.
    Number(String),
    String(String),
    Identifier(String),
    // Keywords
    Let,
    Const,
    Var,
    Function,
    Async,
    Await,
    Class,
    Return,
    If,
    Else,
    While,
    For,
    True,
    False,
    Null,
    Undefined,
    Try,
    Catch,
    Finally,
    Throw,
    New,
    TypeOf,
    InstanceOf,
    This,
    In,
    // Operators
    Plus,
    PlusEqual,
    Minus,
    MinusEqual,
    Star,
    StarEqual,
    Slash,
    SlashEqual,
    Percent,
    Equal,
    EqualEqual,
    EqualEqualEqual,
    NotEqual,
    NotEqualEqual,
    Less,
    LessEqual,
    Greater,
    GreaterEqual,
    AndAnd,
    OrOr,
    Bang,
    Dot,
    // Delimiters
    Comma,
    Semicolon,
    Colon,
    Question,
    LeftParen,
    RightParen,
    LeftBrace,
    RightBrace,
    LeftBracket,
    RightBracket,
    Eof,
}

#[derive(Debug, Clone, PartialEq)]
pub struct Token {
    pub kind: TokenKind,
    pub line: usize,
}

/// A token kind, as mathematical values: the texts of literals and names,
/// and the kind itself for the others.
pub enum TokView {
    Number(Seq<char>),
    Str(Seq<char>),
    Ident(Seq<char>),
    Other(TokenKind),
}

pub open spec fn kind_view(k: TokenKind) -> TokView {
    match k {
        TokenKind::Number(s) => TokView::Number(s@),
        TokenKind::String(s) => TokView::Str(s@),
        TokenKind::Identifier(s) => TokView::Ident(s@),
        other => TokView::Other(other),
    }
}

pub open spec fn token_view(t: Token) -> (TokView, int) {
    (kind_view(t.kind), t.line as int)
}

/// Where a block comment whose body starts at `i` ends, with the line count then.
pub open spec fn block_end(s: Seq<char>, i: int, line: int) -> (int, int)
    decreases s.len() - i,
{
    if i < 0 || i >= s.len() {
        (i, line)
    } else if s[i] == '*' && i + 1 < s.len() && s[i + 1] == '/' {
        (i + 2, line)
    } else if s[i] == '\n' {
        block_end(s, i + 1, line + 1)
    } else {
        block_end(s, i + 1, line)
    }
}

/// Position and line after the spaces, tabs, returns, newlines, `//` line
/// comments and `/* */` block comments from `pos`.
pub open spec fn skip(s: Seq<char>, pos: int, line: int) -> (int, int)
    decreases s.len() - pos,
{
    if pos < 0 || pos >= s.len() {
        (pos, line)
    } else {
        let c = s[pos];
        if c == ' ' || c == '\t' || c == '\r' {
            skip(s, pos + 1, line)
        } else if c == '\n' {
            skip(s, pos + 1, line + 1)
        } else if c == '/' && pos + 1 < s.len() && s[pos + 1] == '/' {
            let e = find_from(s, '\n', pos);
            if pos < e <= s.len() {
                skip(s, e, line)
            } else {
                (pos, line)
            }
        } else if c == '/' && pos + 1 < s.len() && s[pos + 1] == '*' {
            let (e, l) = block_end(s, pos + 2, line);
            if pos < e <= s.len() {
                skip(s, e, l)
            } else {
                (pos, line)
            }
        } else {
            (pos, line)
        }
    }
}

/// The character an escape `\c` stands for.
pub open spec fn escaped(c: char) -> char {
    if c == 'n' {
        '\n'
    } else if c == 't' {
        '\t'
    } else if c == 'r' {
        '\r'
    } else {
        c
    }
}

/// A string literal's body from `i` up to the closing `quote`: the token, the
/// position after it and the line count; or the error for a missing quote.
pub open spec fn string_from(s: Seq<char>, i: int, quote: char, line: int, acc: Seq<char>) -> Result<(TokView, int, int), Seq<char>>
    decreases s.len() - i,
{
    if i < 0 || i >= s.len() {
        Err("Unterminated string at line "@ + decimal(line as nat))
    } else if s[i] == quote {
        Ok((TokView::Str(acc), i + 1, line))
    } else if s[i] == '\\' && i + 1 < s.len() {
        string_from(s, i + 2, quote, line, acc.push(escaped(s[i + 1])))
    } else if s[i] == '\n' {
        string_from(s, i + 1, quote, line + 1, acc.push(s[i]))
    } else {
        string_from(s, i + 1, quote, line, acc.push(s[i]))
    }
}

/// First index at or after `i` that is not an ASCII digit.
pub open spec fn digits_end(s: Seq<char>, i: int) -> int
    decreases s.len() - i,
{
    if 0 <= i < s.len() && is_digit(s[i]) {
        digits_end(s, i + 1)
    } else {
        i
    }
}

/// End of a number literal starting at `p`: digits, then `.` and digits when a digit follows the dot.
pub open spec fn number_end(s: Seq<char>, p: int) -> int {
    let e1 = digits_end(s, p + 1);
    if e1 + 1 < s.len() && s[e1] == '.' && is_digit(s[e1 + 1]) {
        digits_end(s, e1 + 1)
    } else {
        e1
    }
}

pub open spec fn ident_char(c: char) -> bool {
    spec_is_alphanumeric(c) || c == '_' || c == '$'
}

/// First index at or after `i` that cannot continue a name.
pub open spec fn ident_end(s: Seq<char>, i: int) -> int
    decreases s.len() - i,
{
    if 0 <= i < s.len() && ident_char(s[i]) {
        ident_end(s, i + 1)
    } else {
        i
    }
}

/// The keyword a word spells, if any.
pub open spec fn keyword(w: Seq<char>) -> Option<TokenKind> {
    if w == "let"@ {
        Some(TokenKind::Let)
    } else if w == "const"@ {
        Some(TokenKind::Const)
    } else if w == "var"@ {
        Some(TokenKind::Var)
    } else if w == "function"@ {
        Some(TokenKind::Function)
    } else if w == "async"@ {
        Some(TokenKind::Async)
    } else if w == "await"@ {
        Some(TokenKind::Await)
    } else if w == "class"@ {
        Some(TokenKind::Class)
    } else if w == "return"@ {
        Some(TokenKind::Return)
    } else if w == "if"@ {
        Some(TokenKind::If)
    } else if w == "else"@ {
        Some(TokenKind::Else)
    } else if w == "while"@ {
        Some(TokenKind::While)
    } else if w == "for"@ {
        Some(TokenKind::For)
    } else if w == "true"@ {
        Some(TokenKind::True)
    } else if w == "false"@ {
        Some(TokenKind::False)
    } else if w == "null"@ {
        Some(TokenKind::Null)
    } else if w == "undefined"@ {
        Some(TokenKind::Undefined)
    } else if w == "try"@ {
        Some(TokenKind::Try)
    } else if w == "catch"@ {
        Some(TokenKind::Catch)
    } else if w == "finally"@ {
        Some(TokenKind::Finally)
    } else if w == "throw"@ {
        Some(TokenKind::Throw)
    } else if w == "new"@ {
        Some(TokenKind::New)
    } else if w == "typeof"@ {
        Some(TokenKind::TypeOf)
    } else if w == "instanceof"@ {
        Some(TokenKind::InstanceOf)
    } else if w == "this"@ {
        Some(TokenKind::This)
    } else if w == "in"@ {
        Some(TokenKind::In)
    } else {
        None
    }
}

/// A one- or two-character operator that takes `=` after it.
pub open spec fn with_eq(s: Seq<char>, q: int, line: int, plain: TokenKind, eq: TokenKind) -> Result<(TokView, int, int), Seq<char>> {
    if q < s.len() && s[q] == '=' {
        Ok((TokView::Other(eq), q + 1, line))
    } else {
        Ok((TokView::Other(plain), q, line))
    }
}

/// The token that starts at `p` (after skipping), with the position and line after it.
pub open spec fn step(s: Seq<char>, p: int, line: int) -> Result<(TokView, int, int), Seq<char>> {
    let c = s[p];
    let q = p + 1;
    if c == '(' {
        Ok((TokView::Other(TokenKind::LeftParen), q, line))
    } else if c == ')' {
        Ok((TokView::Other(TokenKind::RightParen), q, line))
    } else if c == '{' {
        Ok((TokView::Other(TokenKind::LeftBrace), q, line))
    } else if c == '}' {
        Ok((TokView::Other(TokenKind::RightBrace), q, line))
    } else if c == '[' {
        Ok((TokView::Other(TokenKind::LeftBracket), q, line))
    } else if c == ']' {
        Ok((TokView::Other(TokenKind::RightBracket), q, line))
    } else if c == ',' {
        Ok((TokView::Other(TokenKind::Comma), q, line))
    } else if c == ';' {
        Ok((TokView::Other(TokenKind::Semicolon), q, line))
    } else if c == ':' {
        Ok((TokView::Other(TokenKind::Colon), q, line))
    } else if c == '?' {
        Ok((TokView::Other(TokenKind::Question), q, line))
    } else if c == '.' {
        Ok((TokView::Other(TokenKind::Dot), q, line))
    } else if c == '+' {
        with_eq(s, q, line, TokenKind::Plus, TokenKind::PlusEqual)
    } else if c == '-' {
        with_eq(s, q, line, TokenKind::Minus, TokenKind::MinusEqual)
    } else if c == '*' {
        with_eq(s, q, line, TokenKind::Star, TokenKind::StarEqual)
    } else if c == '/' {
        with_eq(s, q, line, TokenKind::Slash, TokenKind::SlashEqual)
    } else if c == '%' {
        Ok((TokView::Other(TokenKind::Percent), q, line))
    } else if c == '!' {
        if q < s.len() && s[q] == '=' {
            with_eq(s, q + 1, line, TokenKind::NotEqual, TokenKind::NotEqualEqual)
        } else {
            Ok((TokView::Other(TokenKind::Bang), q, line))
        }
    } else if c == '=' {
        if q < s.len() && s[q] == '=' {
            with_eq(s, q + 1, line, TokenKind::EqualEqual, TokenKind::EqualEqualEqual)
        } else {
            Ok((TokView::Other(TokenKind::Equal), q, line))
        }
    } else if c == '<' {
        with_eq(s, q, line, TokenKind::Less, TokenKind::LessEqual)
    } else if c == '>' {
        with_eq(s, q, line, TokenKind::Greater, TokenKind::GreaterEqual)
    } else if c == '&' {
        if q < s.len() && s[q] == '&' {
            Ok((TokView::Other(TokenKind::AndAnd), q + 1, line))
        } else {
            Err("Unexpected single '&' at line "@ + decimal(line as nat))
        }
    } else if c == '|' {
        if q < s.len() && s[q] == '|' {
            Ok((TokView::Other(TokenKind::OrOr), q + 1, line))
        } else {
            Err("Unexpected single '|' at line "@ + decimal(line as nat))
        }
    } else if c == '"' || c == '\'' || c == '`' {
        string_from(s, q, c, line, Seq::empty())
    } else if is_digit(c) {
        Ok((TokView::Number(s.subrange(p, number_end(s, p))), number_end(s, p), line))
    } else if spec_is_alphabetic(c) || c == '_' || c == '$' {
        let e = ident_end(s, q);
        let w = s.subrange(p, e);
        match keyword(w) {
            Some(k) => Ok((TokView::Other(k), e, line)),
            None => Ok((TokView::Ident(w), e, line)),
        }
    } else {
        Err("Unexpected character '"@ + seq![c] + "' at line "@ + decimal(line as nat))
    }
}

/// The tokens of `s` from `pos`, each with the line it starts on, ending with
/// `Eof`; or the first error.
pub open spec fn lex(s: Seq<char>, pos: int, line: int) -> Result<Seq<(TokView, int)>, Seq<char>>
    decreases s.len() - pos,
{
    let (p, l) = skip(s, pos, line);
    if pos < 0 || p < pos || p >= s.len() {
        Ok(seq![(TokView::Other(TokenKind::Eof), l)])
    } else {
        match step(s, p, l) {
            Err(m) => Err(m),
            Ok((t, p2, l2)) => {
                if p < p2 <= s.len() {
                    match lex(s, p2, l2) {
                        Ok(rest) => Ok(seq![(t, l)] + rest),
                        Err(m) => Err(m),
                    }
                } else {
                    Err(Seq::empty())
                }
            },
        }
    }
}

pub struct Lexer<'a> {
    _source: &'a str,
    chars: Vec<char>,
    cursor: usize,
    line: usize,
}

proof fn lemma_block_end(s: Seq<char>, i: int, line: int)
    requires
        0 <= i <= s.len(),
    ensures
        i <= block_end(s, i, line).0 <= s.len(),
        line <= block_end(s, i, line).1 <= line + (block_end(s, i, line).0 - i),
    decreases s.len() - i,
{
    if i < s.len() && !(s[i] == '*' && i + 1 < s.len() && s[i + 1] == '/') {
        if s[i] == '\n' {
            lemma_block_end(s, i + 1, line + 1);
        } else {
            lemma_block_end(s, i + 1, line);
        }
    }
}

proof fn lemma_find_nl(s: Seq<char>, i: int)
    requires
        0 <= i <= s.len(),
    ensures
        i <= find_from(s, '\n', i) <= s.len(),
    decreases s.len() - i,
{
    if i < s.len() && s[i] != '\n' {
        lemma_find_nl(s, i + 1);
    }
}

proof fn lemma_skip(s: Seq<char>, pos: int, line: int)
    requires
        0 <= pos <= s.len(),
    ensures
        pos <= skip(s, pos, line).0 <= s.len(),
        line <= skip(s, pos, line).1 <= line + (skip(s, pos, line).0 - pos),
    decreases s.len() - pos,
{
    if pos < s.len() {
        let c = s[pos];
        if c == ' ' || c == '\t' || c == '\r' {
            lemma_skip(s, pos + 1, line);
        } else if c == '\n' {
            lemma_skip(s, pos + 1, line + 1);
        } else if c == '/' && pos + 1 < s.len() && s[pos + 1] == '/' {
            lemma_find_nl(s, pos);
            let e = find_from(s, '\n', pos);
            if pos < e <= s.len() {
                lemma_skip(s, e, line);
            }
        } else if c == '/' && pos + 1 < s.len() && s[pos + 1] == '*' {
            lemma_block_end(s, pos + 2, line);
            let (e, l) = block_end(s, pos + 2, line);
            if pos < e <= s.len() {
                lemma_skip(s, e, l);
            }
        }
    }
}

proof fn lemma_string_from(s: Seq<char>, i: int, quote: char, line: int, acc: Seq<char>)
    requires
        0 <= i <= s.len(),
    ensures
        string_from(s, i, quote, line, acc) matches Ok((_, e, l)) ==> i < e <= s.len() && line <= l <= line + (e - i),
    decreases s.len() - i,
{
    if i < s.len() && s[i] != quote {
        if s[i] == '\\' && i + 1 < s.len() {
            lemma_string_from(s, i + 2, quote, line, acc.push(escaped(s[i + 1])));
        } else if s[i] == '\n' {
            lemma_string_from(s, i + 1, quote, line + 1, acc.push(s[i]));
        } else {
            lemma_string_from(s, i + 1, quote, line, acc.push(s[i]));
        }
    }
}

proof fn lemma_digits_end(s: Seq<char>, i: int)
    requires
        0 <= i <= s.len(),
    ensures
        i <= digits_end(s, i) <= s.len(),
    decreases s.len() - i,
{
    if i < s.len() && is_digit(s[i]) {
        lemma_digits_end(s, i + 1);
    }
}

proof fn lemma_ident_end(s: Seq<char>, i: int)
    requires
        0 <= i <= s.len(),
    ensures
        i <= ident_end(s, i) <= s.len(),
    decreases s.len() - i,
{
    if i < s.len() && ident_char(s[i]) {
        lemma_ident_end(s, i + 1);
    }
}

/// Each step moves forward and counts at most one line per character.
proof fn lemma_step(s: Seq<char>, p: int, line: int)
    requires
        0 <= p < s.len(),
    ensures
        step(s, p, line) matches Ok((_, e, l)) ==> p < e <= s.len() && line <= l <= line + (e - p),
{
    let c = s[p];
    if c == '"' || c == '\'' || c == '`' {
        lemma_string_from(s, p + 1, c, line, Seq::empty());
    }
    if is_digit(c) {
        lemma_digits_end(s, p + 1);
        let e1 = digits_end(s, p + 1);
        if e1 + 1 < s.len() && s[e1] == '.' && is_digit(s[e1 + 1]) {
            lemma_digits_end(s, e1 + 1);
        }
    }
    lemma_ident_end(s, p + 1);
}

impl<'a> Lexer<'a> {
    pub closed spec fn chars_view(&self) -> Seq<char> {
        self.chars@
    }

    pub closed spec fn cursor_view(&self) -> int {
        self.cursor as int
    }

    pub closed spec fn line_view(&self) -> int {
        self.line as int
    }

    /// Room left for counting lines: the line number never outgrows the
    /// position by more than one.
    pub closed spec fn wf(&self) -> bool {
        &&& self.cursor <= self.chars@.len()
        &&& 1 <= self.line <= self.cursor + 1
        &&& self.chars@.len() < usize::MAX
    }

    /// A lexer at the start of `source`, on line 1.
    pub fn new(source: &'a str) -> (l: Self)
        requires
            source@.len() < usize::MAX,
        ensures
            l.chars_view() == source@,
            l.cursor_view() == 0,
            l.line_view() == 1,
            l.wf(),
    {
        Lexer { _source: source, chars: chars_of(source), cursor: 0, line: 1 }
    }

    fn is_at_end(&self) -> (b: bool)
        ensures
            b == (self.cursor >= self.chars@.len()),
    {
        self.cursor >= self.chars.len()
    }

    fn peek(&self) -> (c: char)
        ensures
            c == (if self.cursor < self.chars@.len() {
                self.chars@[self.cursor as int]
            } else {
                '\0'
            }),
    {
        if self.is_at_end() {
            '\0'
        } else {
            self.chars[self.cursor]
        }
    }

    fn peek_next(&self) -> (c: Option<char>)
        ensures
            c == (if self.cursor + 1 < self.chars@.len() {
                Some(self.chars@[self.cursor + 1])
            } else {
                None::<char>
            }),
    {
        if self.cursor < self.chars.len() && self.cursor + 1 < self.chars.len() {
            Some(self.chars[self.cursor + 1])
        } else {
            None
        }
    }

    fn advance(&mut self) -> (c: char)
        requires
            old(self).cursor < old(self).chars@.len(),
        ensures
            c == old(self).chars@[old(self).cursor as int],
            final(self).cursor == old(self).cursor + 1,
            final(self).chars@ == old(self).chars@,
            final(self).line == old(self).line,
    {
        let n = self.chars.len();
        let ch = self.chars[self.cursor];
        assert(self.cursor < n);
        self.cursor = self.cursor + 1;
        ch
    }

    fn match_char(&mut self, expected: char) -> (b: bool)
        ensures
            b == (old(self).cursor < old(self).chars@.len() && old(self).chars@[old(self).cursor as int] == expected),
            final(self).cursor == (if b {
                old(self).cursor + 1
            } else {
                old(self).cursor as int
            }),
            final(self).chars@ == old(self).chars@,
            final(self).line == old(self).line,
    {
        let n = self.chars.len();
        if self.cursor >= n || self.chars[self.cursor] != expected {
            false
        } else {
            self.cursor = self.cursor + 1;
            true
        }
    }

    fn skip_whitespace_and_comments(&mut self)
        requires
            old(self).wf(),
        ensures
            final(self).wf(),
            final(self).chars@ == old(self).chars@,
            (final(self).cursor as int, final(self).line as int) == skip(old(self).chars@, old(self).cursor as int, old(self).line as int),
    {
        let ghost s = self.chars@;
        let ghost target = skip(s, self.cursor as int, self.line as int);
        proof {
            lemma_skip(s, self.cursor as int, self.line as int);
        }
        while !self.is_at_end()
            invariant
                self.wf(),
                self.chars@ == s,
                target == skip(s, self.cursor as int, self.line as int),
            ensures
                self.wf(),
                self.chars@ == s,
                target == (self.cursor as int, self.line as int),
            decreases s.len() - self.cursor,
        {
            let c = self.peek();
            if c == ' ' || c == '\t' || c == '\r' {
                self.advance();
            } else if c == '\n' {
                self.line = self.line + 1;
                self.advance();
            } else if c == '/' {
                if self.peek_next() == Some('/') {
                    let ghost start = self.cursor as int;
                    let ghost l0 = self.line as int;
                    proof {
                        lemma_find_nl(s, start);
                    }
                    assert(target == skip(s, find_from(s, '\n', start), l0));
                    while !self.is_at_end() && self.peek() != '\n'
                        invariant
                            self.wf(),
                            self.chars@ == s,
                            start <= self.cursor,
                            find_from(s, '\n', start) == find_from(s, '\n', self.cursor as int),
                            self.line == l0,
                        decreases s.len() - self.cursor,
                    {
                        self.advance();
                    }
                } else if self.peek_next() == Some('*') {
                    let ghost start = self.cursor as int;
                    let ghost l0 = self.line as int;
                    self.advance();
                    self.advance();
                    proof {
                        lemma_block_end(s, start + 2, l0);
                    }
                    assert(target == skip(s, block_end(s, start + 2, l0).0, block_end(s, start + 2, l0).1));
                    loop
                        invariant_except_break
                            self.chars@ == s,
                            start + 2 <= self.cursor <= s.len(),
                            1 <= self.line,
                            self.line as int - l0 <= self.cursor - (start + 2),
                            l0 <= start + 1,
                            s.len() < usize::MAX,
                            block_end(s, start + 2, l0) == block_end(s, self.cursor as int, self.line as int),
                        ensures
                            self.chars@ == s,
                            (self.cursor as int, self.line as int) == block_end(s, start + 2, l0),
                        decreases s.len() - self.cursor,
                    {
                        if self.is_at_end() {
                            break;
                        }
                        if self.peek() == '*' && self.peek_next() == Some('/') {
                            self.advance();
                            self.advance();
                            break;
                        }
                        if self.peek() == '\n' {
                            self.line = self.line + 1;
                        }
                        self.advance();
                    }
                } else {
                    break;
                }
            } else {
                break;
            }
        }
    }

    fn string(&mut self, quote: char) -> (r: Result<TokenKind, String>)
        requires
            old(self).wf(),
        ensures
            final(self).wf(),
            final(self).chars@ == old(self).chars@,
            match (r, string_from(old(self).chars@, old(self).cursor as int, quote, old(self).line as int, Seq::empty())) {
                (Ok(k), Ok((t, e, l))) => kind_view(k) == t && final(self).cursor == e && final(self).line == l,
                (Err(m), Err(n)) => m@ == n,
                _ => false,
            },
    {
        let ghost s = self.chars@;
        let ghost target = string_from(s, self.cursor as int, quote, self.line as int, Seq::empty());
        let mut out = String::new();
        while !self.is_at_end() && self.peek() != quote
            invariant
                self.wf(),
                self.chars@ == s,
                target == string_from(s, self.cursor as int, quote, self.line as int, out@),
            decreases s.len() - self.cursor,
        {
            let c = self.advance();
            if c == '\\' && !self.is_at_end() {
                let esc = self.advance();
                let e = if esc == 'n' {
                    '\n'
                } else if esc == 't' {
                    '\t'
                } else if esc == 'r' {
                    '\r'
                } else {
                    esc
                };
                push_char(&mut out, e);
            } else {
                if c == '\n' {
                    self.line = self.line + 1;
                }
                push_char(&mut out, c);
            }
        }
        if self.is_at_end() {
            let mut m = String::new();
            push_str(&mut m, "Unterminated string at line ");
            push_decimal(&mut m, self.line as u64);
            return Err(m);
        }
        self.advance();
        Ok(TokenKind::String(out))
    }

    fn number(&mut self, first: char) -> (r: Result<TokenKind, String>)
        requires
            old(self).wf(),
            old(self).cursor >= 1,
            old(self).chars@[old(self).cursor - 1] == first,
            is_digit(first),
        ensures
            final(self).wf(),
            final(self).chars@ == old(self).chars@,
            final(self).line == old(self).line,
            final(self).cursor as int == number_end(old(self).chars@, old(self).cursor - 1),
            r matches Ok(k) && kind_view(k) == TokView::Number(
                old(self).chars@.subrange(old(self).cursor - 1, number_end(old(self).chars@, old(self).cursor - 1)),
            ),
    {
        let ghost s = self.chars@;
        let ghost l0 = self.line;
        let start = self.cursor - 1;
        proof {
            lemma_digits_end(s, start + 1);
        }
        while !self.is_at_end() && is_digit_char(self.peek())
            invariant
                self.wf(),
                self.chars@ == s,
                self.line == l0,
                start + 1 <= self.cursor,
                digits_end(s, start + 1) == digits_end(s, self.cursor as int),
            decreases s.len() - self.cursor,
        {
            self.advance();
        }
        let nx = self.peek_next();
        let dot_digit = match nx {
            Some(c) => is_digit_char(c),
            None => false,
        };
        if self.peek() == '.' && dot_digit {
            self.advance();
            proof {
                lemma_digits_end(s, self.cursor as int);
            }
            let ghost mid = self.cursor as int;
            while !self.is_at_end() && is_digit_char(self.peek())
                invariant
                    self.wf(),
                    self.chars@ == s,
                    self.line == l0,
                self.line == l0,
                    mid <= self.cursor,
                    digits_end(s, mid) == digits_end(s, self.cursor as int),
                decreases s.len() - self.cursor,
            {
                self.advance();
            }
        }
        let text = string_of(&self.chars, start, self.cursor);
        Ok(TokenKind::Number(text))
    }

    fn identifier(&mut self, first: char) -> (k: TokenKind)
        requires
            old(self).wf(),
            old(self).cursor >= 1,
            old(self).chars@[old(self).cursor - 1] == first,
        ensures
            final(self).wf(),
            final(self).chars@ == old(self).chars@,
            final(self).line == old(self).line,
            final(self).cursor as int == ident_end(old(self).chars@, old(self).cursor as int),
            kind_view(k) == (match keyword(old(self).chars@.subrange(old(self).cursor - 1, final(self).cursor as int)) {
                Some(kw) => TokView::Other(kw),
                None => TokView::Ident(old(self).chars@.subrange(old(self).cursor - 1, final(self).cursor as int)),
            }),
    {
        let ghost s = self.chars@;
        let ghost l0 = self.line;
        let start = self.cursor - 1;
        let ghost c0 = self.cursor as int;
        proof {
            lemma_ident_end(s, c0);
        }
        while !self.is_at_end()
            invariant_except_break
                self.wf(),
                self.chars@ == s,
                self.line == l0,
                c0 <= self.cursor,
                ident_end(s, c0) == ident_end(s, self.cursor as int),
            ensures
                self.wf(),
                self.chars@ == s,
                self.line == l0,
                self.cursor as int == ident_end(s, c0),
            decreases s.len() - self.cursor,
        {
            let c = self.peek();
            if char_is_alphanumeric(c) || c == '_' || c == '$' {
                self.advance();
            } else {
                break;
            }
        }
        let w = crate::text::slice_of(&self.chars, start, self.cursor);
        keyword_or_name(&w)
    }

    /// The tokens of the rest of the source (see `lex`), or the first error.
    pub fn tokenize(&mut self) -> (r: Result<Vec<Token>, String>)
        requires
            old(self).wf(),
        ensures
            match (r, lex(old(self).chars_view(), old(self).cursor_view(), old(self).line_view())) {
                (Ok(ts), Ok(v)) => ts@.map_values(|t: Token| token_view(t)) == v,
                (Err(m), Err(n)) => m@ == n,
                _ => false,
            },
    {
        let ghost s = self.chars@;
        let ghost target = lex(s, self.cursor as int, self.line as int);
        assert(target == lex(old(self).chars_view(), old(self).cursor_view(), old(self).line_view()));
        let mut tokens: Vec<Token> = Vec::new();
        loop
            invariant
                self.wf(),
                self.chars@ == s,
                target == lex(old(self).chars_view(), old(self).cursor_view(), old(self).line_view()),
                match lex(s, self.cursor as int, self.line as int) {
                    Ok(rest) => target == Ok::<Seq<(TokView, int)>, Seq<char>>(tokens@.map_values(|t: Token| token_view(t)) + rest),
                    Err(m) => target == Err::<Seq<(TokView, int)>, Seq<char>>(m),
                },
            decreases s.len() - self.cursor,
        {
            let ghost pos0 = self.cursor as int;
            let ghost line0 = self.line as int;
            self.skip_whitespace_and_comments();
            proof {
                lemma_skip(s, pos0, line0);
            }
            if self.is_at_end() {
                assert(lex(s, pos0, line0) == Ok::<Seq<(TokView, int)>, Seq<char>>(seq![(TokView::Other(TokenKind::Eof), self.line as int)]));
                let ghost before = tokens@.map_values(|t: Token| token_view(t));
                tokens.push(Token { kind: TokenKind::Eof, line: self.line });
                assert(tokens@.map_values(|t: Token| token_view(t)) =~= before + seq![(TokView::Other(TokenKind::Eof), self.line as int)]);
                return Ok(tokens);
            }
            let start_line = self.line;
            let ghost p = self.cursor as int;
            proof {
                lemma_step(s, p, start_line as int);
            }
            let ch = self.advance();
            let kind = match self.lex_one(ch) {
                Ok(k) => k,
                Err(m) => {
                    assert(lex(s, pos0, line0) == Err::<Seq<(TokView, int)>, Seq<char>>(m@));
                    return Err(m);
                },
            };
            let ghost before = tokens@.map_values(|t: Token| token_view(t));
            tokens.push(Token { kind, line: start_line });
            assert(tokens@.map_values(|t: Token| token_view(t)) =~= before.push((kind_view(kind), start_line as int)));
            proof {
                match lex(s, self.cursor as int, self.line as int) {
                    Ok(rest) => {
                        assert(before.push((kind_view(kind), start_line as int)) + rest =~= before + (seq![(kind_view(kind), start_line as int)] + rest));
                    },
                    Err(_) => {},
                }
            }
        }
    }

    /// The token whose first character `ch` was just consumed.
    fn lex_one(&mut self, ch: char) -> (r: Result<TokenKind, String>)
        requires
            old(self).wf(),
            old(self).cursor >= 1,
            old(self).chars@[old(self).cursor - 1] == ch,
        ensures
            final(self).wf(),
            final(self).chars@ == old(self).chars@,
            match (r, step(old(self).chars@, old(self).cursor - 1, old(self).line as int)) {
                (Ok(k), Ok((t, e, l))) => kind_view(k) == t && final(self).cursor == e && final(self).line == l,
                (Err(m), Err(n)) => m@ == n,
                _ => false,
            },
    {
        let ghost s = self.chars@;
        let ghost p = self.cursor - 1;
        let ghost line = self.line as int;
        if ch == '(' {
            Ok(TokenKind::LeftParen)
        } else if ch == ')' {
            Ok(TokenKind::RightParen)
        } else if ch == '{' {
            Ok(TokenKind::LeftBrace)
        } else if ch == '}' {
            Ok(TokenKind::RightBrace)
        } else if ch == '[' {
            Ok(TokenKind::LeftBracket)
        } else if ch == ']' {
            Ok(TokenKind::RightBracket)
        } else if ch == ',' {
            Ok(TokenKind::Comma)
        } else if ch == ';' {
            Ok(TokenKind::Semicolon)
        } else if ch == ':' {
            Ok(TokenKind::Colon)
        } else if ch == '?' {
            Ok(TokenKind::Question)
        } else if ch == '.' {
            Ok(TokenKind::Dot)
        } else if ch == '+' {
            if self.match_char('=') {
                Ok(TokenKind::PlusEqual)
            } else {
                Ok(TokenKind::Plus)
            }
        } else if ch == '-' {
            if self.match_char('=') {
                Ok(TokenKind::MinusEqual)
            } else {
                Ok(TokenKind::Minus)
            }
        } else if ch == '*' {
            if self.match_char('=') {
                Ok(TokenKind::StarEqual)
            } else {
                Ok(TokenKind::Star)
            }
        } else if ch == '/' {
            if self.match_char('=') {
                Ok(TokenKind::SlashEqual)
            } else {
                Ok(TokenKind::Slash)
            }
        } else if ch == '%' {
            Ok(TokenKind::Percent)
        } else if ch == '!' {
            if self.match_char('=') {
                if self.match_char('=') {
                    Ok(TokenKind::NotEqualEqual)
                } else {
                    Ok(TokenKind::NotEqual)
                }
            } else {
                Ok(TokenKind::Bang)
            }
        } else if ch == '=' {
            if self.match_char('=') {
                if self.match_char('=') {
                    Ok(TokenKind::EqualEqualEqual)
                } else {
                    Ok(TokenKind::EqualEqual)
                }
            } else {
                Ok(TokenKind::Equal)
            }
        } else if ch == '<' {
            if self.match_char('=') {
                Ok(TokenKind::LessEqual)
            } else {
                Ok(TokenKind::Less)
            }
        } else if ch == '>' {
            if self.match_char('=') {
                Ok(TokenKind::GreaterEqual)
            } else {
                Ok(TokenKind::Greater)
            }
        } else if ch == '&' {
            if self.match_char('&') {
                Ok(TokenKind::AndAnd)
            } else {
                let mut m = String::new();
                push_str(&mut m, "Unexpected single '&' at line ");
                push_decimal(&mut m, self.line as u64);
                Err(m)
            }
        } else if ch == '|' {
            if self.match_char('|') {
                Ok(TokenKind::OrOr)
            } else {
                let mut m = String::new();
                push_str(&mut m, "Unexpected single '|' at line ");
                push_decimal(&mut m, self.line as u64);
                Err(m)
            }
        } else if ch == '"' || ch == '\'' || ch == '`' {
            self.string(ch)
        } else if is_digit_char(ch) {
            self.number(ch)
        } else if char_is_alphabetic(ch) || ch == '_' || ch == '$' {
            Ok(self.identifier(ch))
        } else {
            let mut m = String::new();
            push_str(&mut m, "Unexpected character '");
            push_char(&mut m, ch);
            push_str(&mut m, "' at line ");
            push_decimal(&mut m, self.line as u64);
            assert(m@ =~= "Unexpected character '"@ + seq![ch] + "' at line "@ + decimal(line as nat));
            Err(m)
        }
    }
}

fn is_digit_char(c: char) -> (b: bool)
    ensures
        b == is_digit(c),
{
    '0' <= c && c <= '9'
}

fn word_is(w: &Vec<char>, lit: &str) -> (b: bool)
    ensures
        b == (w@ == lit@),
{
    let l = chars_of(lit);
    crate::text::chars_eq(w, &l)
}

/// The keyword a word spells, or the word as a name.
fn keyword_or_name(w: &Vec<char>) -> (k: TokenKind)
    ensures
        kind_view(k) == (match keyword(w@) {
            Some(kw) => TokView::Other(kw),
            None => TokView::Ident(w@),
        }),
{
    if word_is(w, "let") {
        TokenKind::Let
    } else if word_is(w, "const") {
        TokenKind::Const
    } else if word_is(w, "var") {
        TokenKind::Var
    } else if word_is(w, "function") {
        TokenKind::Function
    } else if word_is(w, "async") {
        TokenKind::Async
    } else if word_is(w, "await") {
        TokenKind::Await
    } else if word_is(w, "class") {
        TokenKind::Class
    } else if word_is(w, "return") {
        TokenKind::Return
    } else if word_is(w, "if") {
        TokenKind::If
    } else if word_is(w, "else") {
        TokenKind::Else
    } else if word_is(w, "while") {
        TokenKind::While
    } else if word_is(w, "for") {
        TokenKind::For
    } else if word_is(w, "true") {
        TokenKind::True
    } else if word_is(w, "false") {
        TokenKind::False
    } else if word_is(w, "null") {
        TokenKind::Null
    } else if word_is(w, "undefined") {
        TokenKind::Undefined
    } else if word_is(w, "try") {
        TokenKind::Try
    } else if word_is(w, "catch") {
        TokenKind::Catch
    } else if word_is(w, "finally") {
        TokenKind::Finally
    } else if word_is(w, "throw") {
        TokenKind::Throw
    } else if word_is(w, "new") {
        TokenKind::New
    } else if word_is(w, "typeof") {
        TokenKind::TypeOf
    } else if word_is(w, "instanceof") {
        TokenKind::InstanceOf
    } else if word_is(w, "this") {
        TokenKind::This
    } else if word_is(w, "in") {
        TokenKind::In
    } else {
        TokenKind::Identifier(crate::text::string_of_all(w))
    }
}

/// Every successful tokenization ends with exactly one `Eof` token, the last,
/// and the line numbers of the tokens never decrease.
pub proof fn law_tokens_end_with_eof(s: Seq<char>, pos: int, line: int)
    requires
        0 <= pos <= s.len(),
    ensures
        lex(s, pos, line) matches Ok(v) ==> {
            &&& v.len() > 0
            &&& v.last().0 == TokView::Other(TokenKind::Eof)
            &&& forall|i: int| 0 <= i < v.len() - 1 ==> (#[trigger] v[i]).0 != TokView::Other(TokenKind::Eof)
            &&& forall|i: int, j: int| 0 <= i <= j < v.len() ==> line <= (#[trigger] v[i]).1 <= (#[trigger] v[j]).1
        },
    decreases s.len() - pos,
{
    lemma_skip(s, pos, line);
    let (p, l) = skip(s, pos, line);
    if p < s.len() {
        lemma_step(s, p, l);
        match step(s, p, l) {
            Ok((t, p2, l2)) => {
                if p < p2 <= s.len() {
                    law_tokens_end_with_eof(s, p2, l2);
                    match lex(s, p2, l2) {
                        Ok(rest) => {
                            let v = seq![(t, l)] + rest;
                            assert(v.last() == rest.last());
                            lemma_step_not_eof(s, p, l);
                            assert forall|i: int| 0 <= i < v.len() - 1 implies (#[trigger] v[i]).0 != TokView::Other(TokenKind::Eof) by {
                                if i > 0 {
                                    assert(v[i] == rest[i - 1]);
                                }
                            }
                            assert forall|i: int, j: int| 0 <= i <= j < v.len() implies line <= (#[trigger] v[i]).1 <= (#[trigger] v[j]).1 by {
                                if i > 0 {
                                    assert(v[i] == rest[i - 1]);
                                }
                                if j > 0 {
                                    assert(v[j] == rest[j - 1]);
                                    assert(rest[0].1 <= rest[j - 1].1);
                                }
                            }
                        },
                        Err(_) => {},
                    }
                }
            },
            Err(_) => {},
        }
    }
}

/// No step yields an `Eof` token.
proof fn lemma_step_not_eof(s: Seq<char>, p: int, line: int)
    requires
        0 <= p < s.len(),
    ensures
        step(s, p, line) matches Ok((t, _, _)) ==> t != TokView::Other(TokenKind::Eof),
{
    let c = s[p];
    if c == '"' || c == '\'' || c == '`' {
        lemma_string_from_not_eof(s, p + 1, c, line, Seq::empty());
    }
    if spec_is_alphabetic(c) || c == '_' || c == '$' {
        let e = ident_end(s, p + 1);
        let w = s.subrange(p, e);
        lemma_keyword_not_eof(w);
    }
}

proof fn lemma_keyword_not_eof(w: Seq<char>)
    ensures
        keyword(w) != Some(TokenKind::Eof),
{
}

proof fn lemma_string_from_not_eof(s: Seq<char>, i: int, quote: char, line: int, acc: Seq<char>)
    ensures
        string_from(s, i, quote, line, acc) matches Ok((t, _, _)) ==> t is Str,
    decreases s.len() - i,
{
    if 0 <= i < s.len() && s[i] != quote {
        if s[i] == '\\' && i + 1 < s.len() {
            lemma_string_from_not_eof(s, i + 2, quote, line, acc.push(escaped(s[i + 1])));
        } else if s[i] == '\n' {
            lemma_string_from_not_eof(s, i + 1, quote, line + 1, acc.push(s[i]));
        } else {
            lemma_string_from_not_eof(s, i + 1, quote, line, acc.push(s[i]));
        }
    }
}


/// The number of newline characters in `s[i..j]`.
pub open spec fn newlines(s: Seq<char>, i: int, j: int) -> int
    decreases j - i,
{
    if i >= j {
        0
    } else {
        (if s[i] == '\n' { 1int } else { 0int }) + newlines(s, i + 1, j)
    }
}

/// Whether the body of a string literal from `i`, up to its closing `quote`,
/// has no backslash directly before a newline.
pub open spec fn string_keeps_newlines(s: Seq<char>, i: int, quote: char) -> bool
    decreases s.len() - i,
{
    if i < 0 || i >= s.len() {
        true
    } else if s[i] == quote {
        true
    } else if s[i] == '\\' && i + 1 < s.len() {
        s[i + 1] != '\n' && string_keeps_newlines(s, i + 2, quote)
    } else {
        string_keeps_newlines(s, i + 1, quote)
    }
}

/// Whether no string literal that lexing from `pos` reads has a backslash
/// directly before a newline.
pub open spec fn strings_keep_newlines(s: Seq<char>, pos: int, line: int) -> bool
    decreases s.len() - pos,
{
    let (p, l) = skip(s, pos, line);
    if pos < 0 || p < pos || p >= s.len() {
        true
    } else {
        let c = s[p];
        let here = !(c == '"' || c == '\'' || c == '`') || string_keeps_newlines(s, p + 1, c);
        match step(s, p, l) {
            Ok((_, p2, l2)) => here && (if p < p2 <= s.len() {
                strings_keep_newlines(s, p2, l2)
            } else {
                true
            }),
            Err(_) => here,
        }
    }
}

proof fn lemma_newlines_split(s: Seq<char>, i: int, j: int, k: int)
    requires
        i <= j <= k,
    ensures
        newlines(s, i, k) == newlines(s, i, j) + newlines(s, j, k),
    decreases j - i,
{
    if i < j {
        lemma_newlines_split(s, i + 1, j, k);
    }
}

proof fn lemma_block_end_lines(s: Seq<char>, i: int, line: int)
    requires
        0 <= i <= s.len(),
    ensures
        block_end(s, i, line).1 == line + newlines(s, i, block_end(s, i, line).0),
    decreases s.len() - i,
{
    if i < s.len() {
        if s[i] == '*' && i + 1 < s.len() && s[i + 1] == '/' {
            assert(newlines(s, i + 2, i + 2) == 0);
            assert(newlines(s, i + 1, i + 2) == 0);
            assert(newlines(s, i, i + 2) == 0);
        } else if s[i] == '\n' {
            lemma_block_end(s, i + 1, line + 1);
            lemma_block_end_lines(s, i + 1, line + 1);
            let e = block_end(s, i + 1, line + 1).0;
            assert(newlines(s, i, e) == 1 + newlines(s, i + 1, e));
        } else {
            lemma_block_end(s, i + 1, line);
            lemma_block_end_lines(s, i + 1, line);
            let e = block_end(s, i + 1, line).0;
            assert(newlines(s, i, e) == newlines(s, i + 1, e));
        }
    }
}

proof fn lemma_find_nl_lines(s: Seq<char>, i: int)
    requires
        0 <= i <= s.len(),
    ensures
        newlines(s, i, find_from(s, '\n', i)) == 0,
    decreases s.len() - i,
{
    if i < s.len() && s[i] != '\n' {
        lemma_find_nl_lines(s, i + 1);
    }
}

proof fn lemma_skip_lines(s: Seq<char>, pos: int, line: int)
    requires
        0 <= pos <= s.len(),
    ensures
        skip(s, pos, line).1 == line + newlines(s, pos, skip(s, pos, line).0),
    decreases s.len() - pos,
{
    if pos < s.len() {
        let c = s[pos];
        if c == ' ' || c == '\t' || c == '\r' {
            lemma_skip(s, pos + 1, line);
            lemma_skip_lines(s, pos + 1, line);
            let e = skip(s, pos + 1, line).0;
            assert(newlines(s, pos, e) == newlines(s, pos + 1, e));
        } else if c == '\n' {
            lemma_skip(s, pos + 1, line + 1);
            lemma_skip_lines(s, pos + 1, line + 1);
            let e = skip(s, pos + 1, line + 1).0;
            assert(newlines(s, pos, e) == 1 + newlines(s, pos + 1, e));
        } else if c == '/' && pos + 1 < s.len() && s[pos + 1] == '/' {
            let e = find_from(s, '\n', pos);
            lemma_find_nl(s, pos);
            if pos < e <= s.len() {
                lemma_find_nl_lines(s, pos);
                lemma_skip(s, e, line);
                lemma_skip_lines(s, e, line);
                lemma_newlines_split(s, pos, e, skip(s, e, line).0);
            }
        } else if c == '/' && pos + 1 < s.len() && s[pos + 1] == '*' {
            let (e, l) = block_end(s, pos + 2, line);
            lemma_block_end(s, pos + 2, line);
            lemma_block_end_lines(s, pos + 2, line);
            if pos < e <= s.len() {
                lemma_skip(s, e, l);
                lemma_skip_lines(s, e, l);
                lemma_newlines_split(s, pos + 2, e, skip(s, e, l).0);
                lemma_newlines_split(s, pos, pos + 2, skip(s, e, l).0);
                assert(newlines(s, pos + 2, pos + 2) == 0);
                assert(newlines(s, pos + 1, pos + 2) == 0);
                assert(newlines(s, pos, pos + 2) == 0);
            }
        }
    }
}

proof fn lemma_string_lines(s: Seq<char>, i: int, quote: char, line: int, acc: Seq<char>)
    requires
        0 <= i <= s.len(),
        quote != '\n',
        string_keeps_newlines(s, i, quote),
    ensures
        string_from(s, i, quote, line, acc) matches Ok((_, e, l)) ==> l == line + newlines(s, i, e),
    decreases s.len() - i,
{
    if i < s.len() {
        if s[i] == quote {
            assert(newlines(s, i + 1, i + 1) == 0);
            assert(newlines(s, i, i + 1) == 0);
        } else if s[i] == '\\' && i + 1 < s.len() {
            lemma_string_lines(s, i + 2, quote, line, acc.push(escaped(s[i + 1])));
            lemma_string_from(s, i + 2, quote, line, acc.push(escaped(s[i + 1])));
            if let Ok((_, e, _)) = string_from(s, i + 2, quote, line, acc.push(escaped(s[i + 1]))) {
                assert(newlines(s, i + 1, e) == newlines(s, i + 2, e));
                assert(newlines(s, i, e) == newlines(s, i + 1, e));
            }
        } else if s[i] == '\n' {
            lemma_string_lines(s, i + 1, quote, line + 1, acc.push(s[i]));
            lemma_string_from(s, i + 1, quote, line + 1, acc.push(s[i]));
            if let Ok((_, e, _)) = string_from(s, i + 1, quote, line + 1, acc.push(s[i])) {
                assert(newlines(s, i, e) == 1 + newlines(s, i + 1, e));
            }
        } else {
            lemma_string_lines(s, i + 1, quote, line, acc.push(s[i]));
            lemma_string_from(s, i + 1, quote, line, acc.push(s[i]));
            if let Ok((_, e, _)) = string_from(s, i + 1, quote, line, acc.push(s[i])) {
                assert(newlines(s, i, e) == newlines(s, i + 1, e));
            }
        }
    }
}

proof fn lemma_digits_lines(s: Seq<char>, i: int)
    requires
        0 <= i <= s.len(),
    ensures
        newlines(s, i, digits_end(s, i)) == 0,
    decreases s.len() - i,
{
    if i < s.len() && is_digit(s[i]) {
        lemma_digits_lines(s, i + 1);
        lemma_digits_end(s, i + 1);
        assert(newlines(s, i, digits_end(s, i)) == newlines(s, i + 1, digits_end(s, i + 1)));
    }
}

proof fn lemma_ident_lines(s: Seq<char>, i: int)
    requires
        0 <= i <= s.len(),
        !spec_is_alphanumeric('\n'),
    ensures
        newlines(s, i, ident_end(s, i)) == 0,
    decreases s.len() - i,
{
    if i < s.len() && ident_char(s[i]) {
        lemma_ident_lines(s, i + 1);
        lemma_ident_end(s, i + 1);
        assert(newlines(s, i, ident_end(s, i)) == newlines(s, i + 1, ident_end(s, i + 1)));
    }
}

proof fn lemma_step_lines(s: Seq<char>, p: int, line: int)
    requires
        0 <= p < s.len(),
        s[p] != '\n',
        (s[p] == '"' || s[p] == '\'' || s[p] == '`') ==> string_keeps_newlines(s, p + 1, s[p]),
        !spec_is_alphanumeric('\n'),
    ensures
        step(s, p, line) matches Ok((_, e, l)) ==> l == line + newlines(s, p, e),
{
    let c = s[p];
    lemma_step(s, p, line);
    assert(newlines(s, p + 1, p + 1) == 0);
    assert(newlines(s, p, p + 1) == 0);
    if p + 1 < s.len() && s[p + 1] != '\n' {
        assert(newlines(s, p + 2, p + 2) == 0);
        assert(newlines(s, p + 1, p + 2) == 0);
        assert(newlines(s, p, p + 2) == 0);
        if p + 2 < s.len() && s[p + 2] != '\n' {
            assert(newlines(s, p + 3, p + 3) == 0);
            assert(newlines(s, p + 2, p + 3) == 0);
            assert(newlines(s, p + 1, p + 3) == 0);
            assert(newlines(s, p, p + 3) == 0);
        }
    }
    if c == '"' || c == '\'' || c == '`' {
        lemma_string_lines(s, p + 1, c, line, Seq::empty());
        lemma_string_from(s, p + 1, c, line, Seq::empty());
        if let Ok((_, e, _)) = string_from(s, p + 1, c, line, Seq::empty()) {
            assert(newlines(s, p, e) == newlines(s, p + 1, e));
        }
    } else if is_digit(c) {
        lemma_digits_end(s, p + 1);
        lemma_digits_lines(s, p + 1);
        let e1 = digits_end(s, p + 1);
        if e1 + 1 < s.len() && s[e1] == '.' && is_digit(s[e1 + 1]) {
            lemma_digits_end(s, e1 + 1);
            lemma_digits_lines(s, e1 + 1);
            let e2 = digits_end(s, e1 + 1);
            assert(newlines(s, e1, e2) == newlines(s, e1 + 1, e2));
            lemma_newlines_split(s, p + 1, e1, e2);
            assert(newlines(s, p, e2) == newlines(s, p + 1, e2));
        } else {
            assert(newlines(s, p, e1) == newlines(s, p + 1, e1));
        }
    } else if spec_is_alphabetic(c) || c == '_' || c == '$' {
        lemma_ident_end(s, p + 1);
        lemma_ident_lines(s, p + 1);
        let e = ident_end(s, p + 1);
        assert(newlines(s, p, e) == newlines(s, p + 1, e));
    }
}

/// Lines are counted from the start: when no string literal of the source has
/// a backslash directly before a newline, the end-of-input token of a
/// successful tokenization stands on the starting line plus the number of
/// newlines in the rest of the source. (A backslash before a newline inside a
/// string literal escapes it, and that newline is not counted.) The count
/// relies on a newline not being alphanumeric, so that no name runs across a
/// line end; `newline_ends_names` tells a caller so.
pub proof fn law_last_line_counts_newlines(s: Seq<char>, pos: int, line: int)
    requires
        0 <= pos <= s.len(),
        strings_keep_newlines(s, pos, line),
        !spec_is_alphanumeric('\n'),
    ensures
        lex(s, pos, line) matches Ok(v) ==> v.len() > 0 && v.last().1 == line + newlines(s, pos, s.len() as int),
    decreases s.len() - pos,
{
    lemma_skip(s, pos, line);
    lemma_skip_lines(s, pos, line);
    let (p, l) = skip(s, pos, line);
    if p < s.len() {
        lemma_skip_stops(s, pos, line);
        lemma_step(s, p, l);
        lemma_step_lines(s, p, l);
        lemma_skip(s, pos, line);
        match step(s, p, l) {
            Ok((t, p2, l2)) => {
                if p < p2 <= s.len() {
                    law_last_line_counts_newlines(s, p2, l2);
                    match lex(s, p2, l2) {
                        Ok(rest) => {
                            let v = seq![(t, l)] + rest;
                            assert(v.last() == rest.last());
                            lemma_newlines_split(s, p, p2, s.len() as int);
                            lemma_newlines_split(s, pos, p, s.len() as int);
                        },
                        Err(_) => {},
                    }
                }
            },
            Err(_) => {},
        }
    } else {
        assert(newlines(s, s.len() as int, s.len() as int) == 0);
    }
}

/// Skipping stops at a character that is not a newline.
proof fn lemma_skip_stops(s: Seq<char>, pos: int, line: int)
    requires
        0 <= pos <= s.len(),
    ensures
        skip(s, pos, line).0 < s.len() ==> s[skip(s, pos, line).0] != '\n',
    decreases s.len() - pos,
{
    if pos < s.len() {
        let c = s[pos];
        if c == ' ' || c == '\t' || c == '\r' {
            lemma_skip_stops(s, pos + 1, line);
        } else if c == '\n' {
            lemma_skip_stops(s, pos + 1, line + 1);
        } else if c == '/' && pos + 1 < s.len() && s[pos + 1] == '/' {
            let e = find_from(s, '\n', pos);
            if pos < e <= s.len() {
                lemma_skip_stops(s, e, line);
            }
        } else if c == '/' && pos + 1 < s.len() && s[pos + 1] == '*' {
            let (e, l) = block_end(s, pos + 2, line);
            if pos < e <= s.len() {
                lemma_skip_stops(s, e, l);
            }
        }
    }
}


/// Whether a newline ends a name, that is, cannot continue one: true with
/// std's `char::is_alphanumeric`, and what the line-count law needs.
pub fn newline_ends_names() -> (b: bool)
    ensures
        b == !spec_is_alphanumeric('\n'),
        b == !ident_char('\n'),
{
    !char_is_alphanumeric('\n')
}

} // verus!
