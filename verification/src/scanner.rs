//! The scanner: turns source text into a finite stream of tokens.
//!
//! `Scanner::next` hands out one `Result<Token, ScannerError>` at a time and
//! `None` once the input is exhausted. Errors do not end the stream: the
//! caller decides whether to keep scanning, which the compiler uses to
//! collect several diagnostics in one pass.
//!
//! The whole behaviour of the scanner is pinned by `spec_scan_next`, a
//! mathematical description of one scanning step over the source text as a
//! character sequence.

use vstd::prelude::*;
use vstd::string::StrSliceExecFns;

use crate::chunk::LineNum;
use crate::token::{keyword_kind, SpecToken, Token, TokenKind};

verus! {

/// An error found while scanning. Every variant carries the source line.
#[derive(Debug)]
pub enum ScannerError {
    /// A character that begins no token.
    BadChar { line: LineNum, c: char },
    /// A numeric run that is not a well-formed number literal.
    BadNumber { line: LineNum, n: String },
    /// A string literal still open when the input ended.
    UnterminatedString { line: LineNum },
}

/// The mathematical image of a `ScannerError`.
pub enum SpecScanError {
    BadChar { line: LineNum, c: char },
    BadNumber { line: LineNum, n: Seq<char> },
    UnterminatedString { line: LineNum },
}

impl View for ScannerError {
    type V = SpecScanError;

    open spec fn view(&self) -> SpecScanError {
        match self {
            ScannerError::BadChar { line, c } => SpecScanError::BadChar { line: *line, c: *c },
            ScannerError::BadNumber { line, n } => SpecScanError::BadNumber {
                line: *line,
                n: n@,
            },
            ScannerError::UnterminatedString { line } => SpecScanError::UnterminatedString {
                line: *line,
            },
        }
    }
}

impl Clone for ScannerError {
    fn clone(&self) -> (r: Self)
        ensures
            r@ == self@,
    {
        match self {
            ScannerError::BadChar { line, c } => ScannerError::BadChar { line: *line, c: *c },
            ScannerError::BadNumber { line, n } => ScannerError::BadNumber {
                line: *line,
                n: n.clone(),
            },
            ScannerError::UnterminatedString { line } => ScannerError::UnterminatedString {
                line: *line,
            },
        }
    }
}

impl ScannerError {
    /// The source line the error was found on.
    pub fn line(&self) -> (r: LineNum)
        ensures
            r == self.spec_line(),
    {
        *match self {
            Self::BadChar { line, c: _ } => line,
            Self::BadNumber { line, n: _ } => line,
            Self::UnterminatedString { line } => line,
        }
    }

    /// The line carried by the error, whatever its variant.
    pub open spec fn spec_line(&self) -> LineNum {
        match self {
            Self::BadChar { line, .. } => *line,
            Self::BadNumber { line, .. } => *line,
            Self::UnterminatedString { line } => *line,
        }
    }
}

/// Whether a character counts as whitespace to the scanner.
pub uninterp spec fn whitespace_char(c: char) -> bool;

/// Whether a character counts as numeric, and so may begin a number literal.
pub uninterp spec fn numeric_char(c: char) -> bool;

/// Whether a character counts as alphabetic, and so may begin an identifier.
pub uninterp spec fn alphabetic_char(c: char) -> bool;

/// Relies on char::is_whitespace: whether a character has the White_Space
/// property, a fact of the character alone.
#[verifier::external_body]
pub(crate) fn char_is_whitespace(c: char) -> (r: bool)
    ensures
        r == whitespace_char(c),
{
    c.is_whitespace()
}

/// Relies on char::is_numeric: whether a character is in a numeric general
/// category, a fact of the character alone.
#[verifier::external_body]
pub(crate) fn char_is_numeric(c: char) -> (r: bool)
    ensures
        r == numeric_char(c),
{
    c.is_numeric()
}

/// Relies on char::is_alphabetic: whether a character has the Alphabetic
/// property, a fact of the character alone.
#[verifier::external_body]
pub(crate) fn char_is_alphabetic(c: char) -> (r: bool)
    ensures
        r == alphabetic_char(c),
{
    c.is_alphabetic()
}

/// Whether a character may begin an identifier.
pub open spec fn spec_ident_char(c: char) -> bool {
    alphabetic_char(c) || c == '_'
}

/// Whether a character may begin an identifier: alphabetic or an underscore.
pub fn is_ident_char(c: char) -> (r: bool)
    ensures
        r == spec_ident_char(c),
{
    char_is_alphabetic(c) || c == '_'
}

/// Whether a character is an ASCII decimal digit.
pub open spec fn ascii_digit(c: char) -> bool {
    48 <= c as u32 && c as u32 <= 57
}

/// The number of dots in a character sequence.
pub open spec fn dot_count(s: Seq<char>) -> int
    decreases s.len(),
{
    if s.len() == 0 {
        0
    } else {
        dot_count(s.drop_last()) + if s.last() == '.' {
            1int
        } else {
            0int
        }
    }
}

/// A well-formed number literal: ASCII digits and at most one dot, with at
/// least one digit. Exactly these lexemes denote a double-precision value.
pub open spec fn valid_number_lexeme(s: Seq<char>) -> bool {
    &&& s.len() > 0
    &&& forall|k: int| 0 <= k < s.len() ==> ascii_digit(#[trigger] s[k]) || s[k] == '.'
    &&& dot_count(s) <= 1
    &&& exists|k: int| 0 <= k < s.len() && ascii_digit(#[trigger] s[k])
}

/// The line counter after one line feed, held at its ceiling rather than
/// wrapping.
pub open spec fn spec_bump_line(line: u32) -> u32 {
    if line < u32::MAX {
        (line + 1) as u32
    } else {
        line
    }
}

/// Where the numeric run that begins at `j` ends: the first position at or
/// after `j` holding neither a numeric character nor a dot.
pub open spec fn number_run_end(s: Seq<char>, j: int) -> int
    decreases s.len() - j,
{
    if 0 <= j < s.len() && (numeric_char(s[j]) || s[j] == '.') {
        number_run_end(s, j + 1)
    } else {
        j
    }
}

/// Where the identifier run that begins at `j` ends.
pub open spec fn ident_run_end(s: Seq<char>, j: int) -> int
    decreases s.len() - j,
{
    if 0 <= j < s.len() && (spec_ident_char(s[j]) || numeric_char(s[j])) {
        ident_run_end(s, j + 1)
    } else {
        j
    }
}

/// The position of the closing quote for a string whose body begins at `j`,
/// or the input's end if there is none.
pub open spec fn string_run_end(s: Seq<char>, j: int) -> int
    decreases s.len() - j,
{
    if 0 <= j < s.len() && s[j] != '"' {
        string_run_end(s, j + 1)
    } else {
        j
    }
}

/// The position of the line feed ending the comment body that begins at `j`,
/// or the input's end if there is none.
pub open spec fn comment_run_end(s: Seq<char>, j: int) -> int
    decreases s.len() - j,
{
    if 0 <= j < s.len() && s[j] != '\n' {
        comment_run_end(s, j + 1)
    } else {
        j
    }
}

proof fn lemma_number_run_end(s: Seq<char>, j: int)
    requires
        0 <= j <= s.len(),
    ensures
        j <= number_run_end(s, j) <= s.len(),
    decreases s.len() - j,
{
    if j < s.len() && (numeric_char(s[j]) || s[j] == '.') {
        lemma_number_run_end(s, j + 1);
    }
}

proof fn lemma_ident_run_end(s: Seq<char>, j: int)
    requires
        0 <= j <= s.len(),
    ensures
        j <= ident_run_end(s, j) <= s.len(),
    decreases s.len() - j,
{
    if j < s.len() && (spec_ident_char(s[j]) || numeric_char(s[j])) {
        lemma_ident_run_end(s, j + 1);
    }
}

proof fn lemma_string_run_end(s: Seq<char>, j: int)
    requires
        0 <= j <= s.len(),
    ensures
        j <= string_run_end(s, j) <= s.len(),
    decreases s.len() - j,
{
    if j < s.len() && s[j] != '"' {
        lemma_string_run_end(s, j + 1);
    }
}

proof fn lemma_comment_run_end(s: Seq<char>, j: int)
    requires
        0 <= j <= s.len(),
    ensures
        j <= comment_run_end(s, j) <= s.len(),
    decreases s.len() - j,
{
    if j < s.len() && s[j] != '\n' {
        lemma_comment_run_end(s, j + 1);
    }
}

/// One scanned item together with the position and line after it.
pub type SpecScanStep = (Option<Result<SpecToken, SpecScanError>>, int, u32);

/// A token step: the item, the position after the lexeme, the line unchanged.
pub open spec fn spec_token_step(kind: TokenKind, lexeme: Seq<char>, line: u32, end: int) -> SpecScanStep {
    (Some(Ok(SpecToken { kind, lexeme, line })), end, line)
}

/// One scanning step from position `i` on line `line`: skip whitespace
/// (counting line feeds) and comments, then emit the token or error that
/// begins there, or `None` at the input's end. Returns the item and the
/// position and line after it.
pub open spec fn spec_scan_next(s: Seq<char>, i: int, line: u32) -> SpecScanStep
    decreases s.len() - i, 1int,
{
    if i < 0 || i >= s.len() {
        (None, if i < 0 { i } else { s.len() as int }, line)
    } else if whitespace_char(s[i]) {
        spec_scan_next(s, i + 1, if s[i] == '\n' { spec_bump_line(line) } else { line })
    } else {
        spec_lex(s, i, line)
    }
}

/// The token or error that begins at the non-whitespace position `i`;
/// a comment resumes scanning after its body.
pub open spec fn spec_lex(s: Seq<char>, i: int, line: u32) -> SpecScanStep
    decreases s.len() - i, 0int,
{
    if !(0 <= i < s.len()) {
        (None, i, line)
    } else {
        let c = s[i];
        if c == '(' {
            spec_token_step(TokenKind::LParen, s.subrange(i, i + 1), line, i + 1)
        } else if c == ')' {
            spec_token_step(TokenKind::RParen, s.subrange(i, i + 1), line, i + 1)
        } else if c == '{' {
            spec_token_step(TokenKind::LCurly, s.subrange(i, i + 1), line, i + 1)
        } else if c == '}' {
            spec_token_step(TokenKind::RCurly, s.subrange(i, i + 1), line, i + 1)
        } else if c == ';' {
            spec_token_step(TokenKind::Semicolon, s.subrange(i, i + 1), line, i + 1)
        } else if c == ',' {
            spec_token_step(TokenKind::Comma, s.subrange(i, i + 1), line, i + 1)
        } else if c == '.' {
            spec_token_step(TokenKind::Dot, s.subrange(i, i + 1), line, i + 1)
        } else if c == '+' {
            spec_token_step(TokenKind::Plus, s.subrange(i, i + 1), line, i + 1)
        } else if c == '-' {
            spec_token_step(TokenKind::Minus, s.subrange(i, i + 1), line, i + 1)
        } else if c == '*' {
            spec_token_step(TokenKind::Star, s.subrange(i, i + 1), line, i + 1)
        } else if c == '/' {
            if i + 1 < s.len() && s[i + 1] == '/' {
                let j = comment_run_end(s, i + 2);
                if i < j <= s.len() {
                    spec_scan_next(s, j, line)
                } else {
                    (None, s.len() as int, line)
                }
            } else {
                spec_token_step(TokenKind::Slash, s.subrange(i, i + 1), line, i + 1)
            }
        } else if c == '!' {
            spec_two_char(s, i, line, '=', TokenKind::BangEq, TokenKind::Bang)
        } else if c == '=' {
            spec_two_char(s, i, line, '=', TokenKind::EqualEqual, TokenKind::Equal)
        } else if c == '<' {
            spec_two_char(s, i, line, '=', TokenKind::LtEq, TokenKind::Lt)
        } else if c == '>' {
            spec_two_char(s, i, line, '=', TokenKind::GtEq, TokenKind::Gt)
        } else if c == '"' {
            spec_lex_string(s, i, line)
        } else if numeric_char(c) {
            spec_lex_number(s, i, line)
        } else if spec_ident_char(c) {
            spec_lex_identifier(s, i, line)
        } else {
            (Some(Err(SpecScanError::BadChar { line, c })), i + 1, line)
        }
    }
}

/// An operator at `i` that may join with one following character: `yes`
/// when the next character is `guess`, otherwise `no`.
pub open spec fn spec_two_char(
    s: Seq<char>,
    i: int,
    line: u32,
    guess: char,
    yes: TokenKind,
    no: TokenKind,
) -> SpecScanStep {
    if i + 1 < s.len() && s[i + 1] == guess {
        spec_token_step(yes, s.subrange(i, i + 2), line, i + 2)
    } else {
        spec_token_step(no, s.subrange(i, i + 1), line, i + 1)
    }
}

/// A string literal whose opening quote stands at `i`: its body runs to the
/// matching quote, and the lexeme excludes the delimiters. If the input ends
/// first, the string is unterminated, reported at the line it began on.
pub open spec fn spec_lex_string(s: Seq<char>, i: int, line: u32) -> SpecScanStep {
    let j = string_run_end(s, i + 1);
    if j >= s.len() {
        (Some(Err(SpecScanError::UnterminatedString { line })), s.len() as int, line)
    } else {
        spec_token_step(TokenKind::Str, s.subrange(i + 1, j), line, j + 1)
    }
}

/// A number literal beginning at `i`: the maximal run of numeric characters
/// and dots. A run that is not a well-formed number literal is a `BadNumber`
/// error carrying the run's text.
pub open spec fn spec_lex_number(s: Seq<char>, i: int, line: u32) -> SpecScanStep {
    let j = number_run_end(s, i + 1);
    let lexeme = s.subrange(i, j);
    if valid_number_lexeme(lexeme) {
        spec_token_step(TokenKind::Number, lexeme, line, j)
    } else {
        (Some(Err(SpecScanError::BadNumber { line, n: lexeme })), j, line)
    }
}

/// An identifier or keyword beginning at `i`: the maximal run of identifier
/// and numeric characters, classified against the keyword table.
pub open spec fn spec_lex_identifier(s: Seq<char>, i: int, line: u32) -> SpecScanStep {
    let j = ident_run_end(s, i + 1);
    let lexeme = s.subrange(i, j);
    spec_token_step(keyword_kind(lexeme), lexeme, line, j)
}

/// A scanning step moves forward, and strictly so when it emits an item.
pub proof fn lemma_scan_next_advances(s: Seq<char>, i: int, line: u32)
    requires
        0 <= i <= s.len(),
    ensures
        i <= spec_scan_next(s, i, line).1 <= s.len(),
        spec_scan_next(s, i, line).0 is Some ==> spec_scan_next(s, i, line).1 > i,
        spec_scan_next(s, i, line).0 is None ==> spec_scan_next(s, i, line).1 == s.len(),
    decreases s.len() - i, 1int,
{
    if i < s.len() {
        if whitespace_char(s[i]) {
            lemma_scan_next_advances(
                s,
                i + 1,
                if s[i] == '\n' {
                    spec_bump_line(line)
                } else {
                    line
                },
            );
        } else {
            lemma_lex_advances(s, i, line);
        }
    }
}

proof fn lemma_lex_advances(s: Seq<char>, i: int, line: u32)
    requires
        0 <= i < s.len(),
    ensures
        i < spec_lex(s, i, line).1 <= s.len(),
        spec_lex(s, i, line).0 is None ==> spec_lex(s, i, line).1 == s.len(),
    decreases s.len() - i, 0int,
{
    let c = s[i];
    if c == '/' && i + 1 < s.len() && s[i + 1] == '/' {
        lemma_comment_run_end(s, i + 2);
        let j = comment_run_end(s, i + 2);
        lemma_scan_next_advances(s, j, line);
    } else if c == '"' {
        lemma_string_run_end(s, i + 1);
    } else if c == '(' || c == ')' || c == '{' || c == '}' || c == ';' || c == ',' || c == '.'
        || c == '+' || c == '-' || c == '*' || c == '/' || c == '!' || c == '=' || c == '<' || c
        == '>' {
    } else if numeric_char(c) {
        lemma_number_run_end(s, i + 1);
    } else if spec_ident_char(c) {
        lemma_ident_run_end(s, i + 1);
    }
}

/// Whether an emitted item agrees with its mathematical image.
pub open spec fn item_matches<'a>(
    r: Option<Result<Token<'a>, ScannerError>>,
    item: Option<Result<SpecToken, SpecScanError>>,
) -> bool {
    match r {
        None => item is None,
        Some(Ok(t)) => item == Some(Result::<SpecToken, SpecScanError>::Ok(t@)),
        Some(Err(e)) => item == Some(Result::<SpecToken, SpecScanError>::Err(e@)),
    }
}

/// The scanner's state: the source as characters, the start of the lexeme
/// being scanned, the position to scan next, and the current line.
pub struct SpecScanner {
    pub text: Seq<char>,
    pub start: int,
    pub pos: int,
    pub line: u32,
}

/// The scanner: owns a position and a line counter over borrowed source
/// text. Not restartable, but a fresh scanner can always be built from the
/// same text. Positions are character indices, so a lexeme never splits a
/// multi-byte character.
pub struct Scanner<'a> {
    source: &'a str,
    len: usize,
    start: usize,
    pos: usize,
    line: LineNum,
}

impl<'a> View for Scanner<'a> {
    type V = SpecScanner;

    closed spec fn view(&self) -> SpecScanner {
        SpecScanner {
            text: self.source@,
            start: self.start as int,
            pos: self.pos as int,
            line: self.line,
        }
    }
}

impl<'a> Scanner<'a> {
    #[verifier::type_invariant]
    spec fn type_inv(self) -> bool {
        &&& self.len == self.source@.len()
        &&& self.start <= self.pos <= self.len
    }

    /// A fresh scanner at the beginning of `source`, on line 1.
    pub fn new(source: &'a str) -> (r: Self)
        ensures
            r@.text == source@,
            r@.pos == 0,
            r@.line == 1,
    {
        let len = source.unicode_len();
        Self { source, len, start: 0, pos: 0, line: 1 }
    }

    /// The scanner's position always lies within its text.
    pub fn check_in_bounds(&self)
        ensures
            0 <= self@.pos <= self@.text.len(),
            0 <= self@.start <= self@.pos,
    {
        proof {
            use_type_invariant(self);
        }
    }

    /// The lexeme between `start` and the current position.
    fn make_lexeme(&self) -> (r: &'a str)
        ensures
            r@ == self@.text.subrange(self@.start, self@.pos),
    {
        proof {
            use_type_invariant(self);
        }
        self.source.substring_char(self.start, self.pos)
    }

    /// A token of the given kind spanning the current lexeme.
    fn make_token(&self, kind: TokenKind) -> (r: Token<'a>)
        ensures
            r@ == (SpecToken {
                kind,
                lexeme: self@.text.subrange(self@.start, self@.pos),
                line: self@.line,
            }),
    {
        Token { kind, line: self.line, lexeme: self.make_lexeme() }
    }

    /// Consume whitespace, counting each line feed passed over.
    #[verifier::loop_isolation(false)]
    fn skip_whitespace(&mut self)
        ensures
            final(self)@.text == old(self)@.text,
            final(self)@.start == old(self)@.start,
            old(self)@.pos <= final(self)@.pos <= final(self)@.text.len(),
            spec_scan_next(final(self)@.text, old(self)@.pos, old(self)@.line) == spec_scan_next(
                final(self)@.text,
                final(self)@.pos,
                final(self)@.line,
            ),
            final(self)@.pos == final(self)@.text.len() || !whitespace_char(
                final(self)@.text[final(self)@.pos],
            ),
    {
        proof {
            use_type_invariant(&*self);
        }
        let ghost s0 = *self;
        loop
            invariant
                self.len == self.source@.len(),
                self.start <= self.pos <= self.len,
                self.source@ == s0.source@,
                self.start == s0.start,
                s0.pos <= self.pos,
                spec_scan_next(self.source@, s0.pos as int, s0.line) == spec_scan_next(
                    self.source@,
                    self.pos as int,
                    self.line,
                ),
            decreases self.len - self.pos,
        {
            if self.pos == self.len {
                return ;
            }
            let c = self.source.get_char(self.pos);
            if !char_is_whitespace(c) {
                return ;
            }
            if c == '\n' {
                self.line = if self.line < u32::MAX {
                    self.line + 1
                } else {
                    self.line
                };
            }
            self.pos = self.pos + 1;
        }
    }

    /// Peek at the next character: if it is `guess`, consume it and make a
    /// `yes` token, otherwise make a `no` token.
    fn match_next(&mut self, guess: char, yes: TokenKind, no: TokenKind) -> (r: Token<'a>)
        requires
            old(self)@.start + 1 == old(self)@.pos,
        ensures
            final(self)@.text == old(self)@.text,
            final(self)@.start == old(self)@.start,
            final(self)@.line == old(self)@.line,
            ({
                let step = spec_two_char(
                    final(self)@.text,
                    old(self)@.start,
                    old(self)@.line,
                    guess,
                    yes,
                    no,
                );
                &&& item_matches(Some(Result::<Token<'a>, ScannerError>::Ok(r)), step.0)
                &&& final(self)@.pos == step.1
            }),
    {
        proof {
            use_type_invariant(&*self);
        }
        if self.pos < self.len && self.source.get_char(self.pos) == guess {
            self.pos = self.pos + 1;
            self.make_token(yes)
        } else {
            self.make_token(no)
        }
    }

    /// Scan a string literal whose opening quote was just consumed.
    #[verifier::loop_isolation(false)]
    fn lex_string(&mut self) -> (r: Option<Result<Token<'a>, ScannerError>>)
        requires
            old(self)@.start + 1 == old(self)@.pos,
        ensures
            final(self)@.text == old(self)@.text,
            ({
                let step = spec_lex_string(final(self)@.text, old(self)@.start, old(self)@.line);
                &&& item_matches(r, step.0)
                &&& final(self)@.pos == step.1
                &&& final(self)@.line == step.2
            }),
    {
        proof {
            use_type_invariant(&*self);
        }
        let ghost s0 = *self;
        loop
            invariant
                self.len == self.source@.len(),
                self.start <= self.pos <= self.len,
                self.source@ == s0.source@,
                self.start == s0.start,
                self.line == s0.line,
                s0.pos <= self.pos,
                string_run_end(self.source@, s0.pos as int) == string_run_end(
                    self.source@,
                    self.pos as int,
                ),
            decreases self.len - self.pos,
        {
            if self.pos == self.len {
                break ;
            }
            if self.source.get_char(self.pos) == '"' {
                break ;
            }
            self.pos = self.pos + 1;
        }
        if self.pos == self.len {
            return Some(Err(ScannerError::UnterminatedString { line: self.line }));
        }
        // Consume the closing quote; the lexeme excludes both delimiters.
        self.pos = self.pos + 1;
        let lexeme = self.source.substring_char(self.start + 1, self.pos - 1);
        Some(Ok(Token { kind: TokenKind::Str, line: self.line, lexeme }))
    }

    /// Scan a number literal whose first character was just consumed.
    #[verifier::loop_isolation(false)]
    fn lex_number(&mut self) -> (r: Option<Result<Token<'a>, ScannerError>>)
        requires
            old(self)@.start + 1 == old(self)@.pos,
        ensures
            final(self)@.text == old(self)@.text,
            ({
                let step = spec_lex_number(final(self)@.text, old(self)@.start, old(self)@.line);
                &&& item_matches(r, step.0)
                &&& final(self)@.pos == step.1
                &&& final(self)@.line == step.2
            }),
    {
        proof {
            use_type_invariant(&*self);
        }
        let ghost s0 = *self;
        loop
            invariant
                self.len == self.source@.len(),
                self.start <= self.pos <= self.len,
                self.source@ == s0.source@,
                self.start == s0.start,
                self.line == s0.line,
                s0.pos <= self.pos,
                number_run_end(self.source@, s0.pos as int) == number_run_end(
                    self.source@,
                    self.pos as int,
                ),
            decreases self.len - self.pos,
        {
            if self.pos == self.len {
                break ;
            }
            let c = self.source.get_char(self.pos);
            if !(char_is_numeric(c) || c == '.') {
                break ;
            }
            self.pos = self.pos + 1;
        }
        let lexeme = self.make_lexeme();
        if valid_number(lexeme) {
            Some(Ok(Token { kind: TokenKind::Number, line: self.line, lexeme }))
        } else {
            Some(Err(ScannerError::BadNumber { line: self.line, n: lexeme.to_owned() }))
        }
    }

    /// Scan an identifier or keyword whose first character was just consumed.
    #[verifier::loop_isolation(false)]
    fn lex_identifier(&mut self) -> (r: Token<'a>)
        requires
            old(self)@.start + 1 == old(self)@.pos,
        ensures
            final(self)@.text == old(self)@.text,
            ({
                let step = spec_lex_identifier(final(self)@.text, old(self)@.start, old(self)@.line);
                &&& item_matches(Some(Result::<Token<'a>, ScannerError>::Ok(r)), step.0)
                &&& final(self)@.pos == step.1
                &&& final(self)@.line == step.2
            }),
    {
        proof {
            use_type_invariant(&*self);
        }
        let ghost s0 = *self;
        loop
            invariant
                self.len == self.source@.len(),
                self.start <= self.pos <= self.len,
                self.source@ == s0.source@,
                self.start == s0.start,
                self.line == s0.line,
                s0.pos <= self.pos,
                ident_run_end(self.source@, s0.pos as int) == ident_run_end(
                    self.source@,
                    self.pos as int,
                ),
            decreases self.len - self.pos,
        {
            if self.pos == self.len {
                break ;
            }
            let c = self.source.get_char(self.pos);
            if !(is_ident_char(c) || char_is_numeric(c)) {
                break ;
            }
            self.pos = self.pos + 1;
        }
        let lexeme = self.make_lexeme();
        Token { kind: keyword_lookup(lexeme), line: self.line, lexeme }
    }

    /// The next token or error, or `None` once the input is exhausted.
    #[verifier::loop_isolation(false)]
    pub fn next(&mut self) -> (r: Option<Result<Token<'a>, ScannerError>>)
        ensures
            final(self)@.text == old(self)@.text,
            ({
                let step = spec_scan_next(old(self)@.text, old(self)@.pos, old(self)@.line);
                &&& item_matches(r, step.0)
                &&& final(self)@.pos == step.1
                &&& final(self)@.line == step.2
            }),
    {
        proof {
            use_type_invariant(&*self);
        }
        let ghost s0 = *self;
        loop
            invariant
                self.len == self.source@.len(),
                self.start <= self.pos <= self.len,
                self.source@ == s0.source@,
                s0.pos <= self.pos,
                spec_scan_next(self.source@, s0.pos as int, s0.line) == spec_scan_next(
                    self.source@,
                    self.pos as int,
                    self.line,
                ),
            decreases self.len - self.pos,
        {
            self.skip_whitespace();
            proof {
                use_type_invariant(&*self);
            }
            self.start = self.pos;
            if self.pos == self.len {
                return None;
            }
            let c = self.source.get_char(self.pos);
            self.pos = self.pos + 1;
            proof {
                assert(spec_scan_next(self.source@, s0.pos as int, s0.line) == spec_lex(
                    self.source@,
                    self.pos as int - 1,
                    self.line,
                ));
            }
            match c {
                '(' => {
                    return Some(Ok(self.make_token(TokenKind::LParen)));
                },
                ')' => {
                    return Some(Ok(self.make_token(TokenKind::RParen)));
                },
                '{' => {
                    return Some(Ok(self.make_token(TokenKind::LCurly)));
                },
                '}' => {
                    return Some(Ok(self.make_token(TokenKind::RCurly)));
                },
                ';' => {
                    return Some(Ok(self.make_token(TokenKind::Semicolon)));
                },
                ',' => {
                    return Some(Ok(self.make_token(TokenKind::Comma)));
                },
                '.' => {
                    return Some(Ok(self.make_token(TokenKind::Dot)));
                },
                '+' => {
                    return Some(Ok(self.make_token(TokenKind::Plus)));
                },
                '-' => {
                    return Some(Ok(self.make_token(TokenKind::Minus)));
                },
                '*' => {
                    return Some(Ok(self.make_token(TokenKind::Star)));
                },
                '/' => {
                    if self.pos < self.len && self.source.get_char(self.pos) == '/' {
                        // A comment: consume through the line's end; the line
                        // feed itself is left for skip_whitespace to count.
                        let ghost comment_from = self.pos + 1;
                        self.pos = self.pos + 1;
                        let ghost line1 = self.line;
                        loop
                            invariant
                                self.len == self.source@.len(),
                                self.start <= self.pos <= self.len,
                                self.source@ == s0.source@,
                                self.line == line1,
                                comment_from <= self.pos,
                                comment_run_end(self.source@, comment_from) == comment_run_end(
                                    self.source@,
                                    self.pos as int,
                                ),
                            decreases self.len - self.pos,
                        {
                            if self.pos == self.len {
                                break ;
                            }
                            if self.source.get_char(self.pos) == '\n' {
                                break ;
                            }
                            self.pos = self.pos + 1;
                        }
                        proof {
                            lemma_comment_run_end(self.source@, comment_from);
                        }
                        continue ;
                    }
                    return Some(Ok(self.make_token(TokenKind::Slash)));
                },
                '!' => {
                    return Some(Ok(self.match_next('=', TokenKind::BangEq, TokenKind::Bang)));
                },
                '=' => {
                    return Some(Ok(self.match_next('=', TokenKind::EqualEqual, TokenKind::Equal)));
                },
                '<' => {
                    return Some(Ok(self.match_next('=', TokenKind::LtEq, TokenKind::Lt)));
                },
                '>' => {
                    return Some(Ok(self.match_next('=', TokenKind::GtEq, TokenKind::Gt)));
                },
                '"' => {
                    return self.lex_string();
                },
                _ => {
                    if char_is_numeric(c) {
                        return self.lex_number();
                    }
                    if is_ident_char(c) {
                        return Some(Ok(self.lex_identifier()));
                    }
                    return Some(Err(ScannerError::BadChar { line: self.line, c }));
                },
            }
        }
    }
}

/// Whether two string slices hold the same characters.
#[verifier::loop_isolation(false)]
fn str_eq_chars(a: &str, b: &str) -> (r: bool)
    ensures
        r == (a@ == b@),
{
    let na = a.unicode_len();
    let nb = b.unicode_len();
    if na != nb {
        return false;
    }
    let mut k: usize = 0;
    while k < na
        invariant
            na == a@.len(),
            nb == b@.len(),
            na == nb,
            k <= na,
            forall|j: int| 0 <= j < k ==> a@[j] == b@[j],
        decreases na - k,
    {
        if a.get_char(k) != b.get_char(k) {
            return false;
        }
        k = k + 1;
    }
    proof {
        assert(a@ =~= b@);
    }
    true
}

/// Classify an identifier lexeme against the fixed keyword table; a miss is
/// a plain identifier. The table is a fixed list searched in order.
fn keyword_lookup(lexeme: &str) -> (r: TokenKind)
    ensures
        r == keyword_kind(lexeme@),
{
    if str_eq_chars(lexeme, "and") {
        TokenKind::And
    } else if str_eq_chars(lexeme, "or") {
        TokenKind::Or
    } else if str_eq_chars(lexeme, "true") {
        TokenKind::True
    } else if str_eq_chars(lexeme, "false") {
        TokenKind::False
    } else if str_eq_chars(lexeme, "if") {
        TokenKind::If
    } else if str_eq_chars(lexeme, "else") {
        TokenKind::Else
    } else if str_eq_chars(lexeme, "while") {
        TokenKind::While
    } else if str_eq_chars(lexeme, "for") {
        TokenKind::For
    } else if str_eq_chars(lexeme, "class") {
        TokenKind::Class
    } else if str_eq_chars(lexeme, "super") {
        TokenKind::Super
    } else if str_eq_chars(lexeme, "this") {
        TokenKind::This
    } else if str_eq_chars(lexeme, "fun") {
        TokenKind::Fun
    } else if str_eq_chars(lexeme, "return") {
        TokenKind::Return
    } else if str_eq_chars(lexeme, "nil") {
        TokenKind::Nil
    } else if str_eq_chars(lexeme, "print") {
        TokenKind::Print
    } else if str_eq_chars(lexeme, "var") {
        TokenKind::Var
    } else {
        TokenKind::Identifier
    }
}

/// Whether a string slice is a well-formed number literal.
#[verifier::loop_isolation(false)]
fn valid_number(lexeme: &str) -> (r: bool)
    ensures
        r == valid_number_lexeme(lexeme@),
{
    let n = lexeme.unicode_len();
    if n == 0 {
        return false;
    }
    let mut dots: usize = 0;
    let mut has_digit = false;
    let mut all_ok = true;
    let mut k: usize = 0;
    while k < n
        invariant
            n == lexeme@.len(),
            k <= n,
            dots <= k,
            dots == dot_count(lexeme@.subrange(0, k as int)),
            has_digit == exists|j: int| 0 <= j < k && ascii_digit(#[trigger] lexeme@[j]),
            all_ok == forall|j: int|
                0 <= j < k ==> ascii_digit(#[trigger] lexeme@[j]) || lexeme@[j] == '.',
        decreases n - k,
    {
        let c = lexeme.get_char(k);
        let u = c as u32;
        proof {
            assert(lexeme@.subrange(0, k + 1).drop_last() =~= lexeme@.subrange(0, k as int));
            assert(lexeme@.subrange(0, k + 1).last() == lexeme@[k as int]);
        }
        if 48 <= u && u <= 57 {
            has_digit = true;
        } else if c == '.' {
            dots = dots + 1;
        } else {
            all_ok = false;
        }
        k = k + 1;
    }
    proof {
        assert(lexeme@.subrange(0, n as int) =~= lexeme@);
    }
    all_ok && dots <= 1 && has_digit
}

/// The sequence of items scanning yields from position `i` on line `line`.
pub open spec fn spec_items_from(s: Seq<char>, i: int, line: u32) -> Seq<
    Result<SpecToken, SpecScanError>,
>
    decreases s.len() - i,
{
    if !(0 <= i <= s.len()) {
        Seq::empty()
    } else {
        let step = spec_scan_next(s, i, line);
        match step.0 {
            None => Seq::empty(),
            Some(item) => if i < step.1 <= s.len() {
                seq![item] + spec_items_from(s, step.1, step.2)
            } else {
                seq![item]
            },
        }
    }
}

/// The sequence of items scanning the whole source yields.
pub open spec fn spec_items(s: Seq<char>) -> Seq<Result<SpecToken, SpecScanError>> {
    spec_items_from(s, 0, 1)
}

/// The lexemes of the number tokens scanning yields from `i`, in order.
pub open spec fn spec_number_lexemes_from(s: Seq<char>, i: int, line: u32) -> Seq<Seq<char>>
    decreases s.len() - i,
{
    if !(0 <= i <= s.len()) {
        Seq::empty()
    } else {
        let step = spec_scan_next(s, i, line);
        match step.0 {
            None => Seq::empty(),
            Some(item) => {
                let rest = if i < step.1 <= s.len() {
                    spec_number_lexemes_from(s, step.1, step.2)
                } else {
                    Seq::empty()
                };
                match item {
                    Ok(t) => if t.kind is Number {
                        seq![t.lexeme] + rest
                    } else {
                        rest
                    },
                    Err(_) => rest,
                }
            },
        }
    }
}

/// The lexemes of the number tokens in the whole source, in order. The host
/// resolves each into the 64-bit encoding of the double-precision value it
/// denotes and hands the results to `compile`.
pub open spec fn spec_number_lexemes(s: Seq<char>) -> Seq<Seq<char>> {
    spec_number_lexemes_from(s, 0, 1)
}

proof fn lemma_string_run_to_end(s: Seq<char>, j: int)
    requires
        0 <= j <= s.len(),
        forall|k: int| j <= k < s.len() ==> #[trigger] s[k] != '"',
    ensures
        string_run_end(s, j) == s.len(),
    decreases s.len() - j,
{
    if j < s.len() {
        lemma_string_run_to_end(s, j + 1);
    }
}

/// Law: a string literal still open when the input ends scans to an
/// `UnterminatedString` error reported at the line the string began on,
/// and scanning stops at the input's end.
pub proof fn lemma_unterminated_string(s: Seq<char>, i: int, line: LineNum)
    requires
        0 <= i < s.len(),
        s[i] == '"',
        forall|j: int| i < j < s.len() ==> #[trigger] s[j] != '"',
    ensures
        spec_lex(s, i, line) == (
            Some(
                Result::<SpecToken, SpecScanError>::Err(
                    SpecScanError::UnterminatedString { line },
                ),
            ),
            s.len() as int,
            line,
        ),
{
    lemma_string_run_to_end(s, i + 1);
}

/// The number lexemes of a scanned item sequence: each number token's
/// lexeme, in order.
pub open spec fn spec_item_number_lexemes(items: Seq<Result<SpecToken, SpecScanError>>) -> Seq<
    Seq<char>,
>
    decreases items.len(),
{
    if items.len() == 0 {
        Seq::empty()
    } else {
        let rest = spec_item_number_lexemes(items.drop_first());
        match items[0] {
            Ok(t) => if t.kind is Number {
                seq![t.lexeme] + rest
            } else {
                rest
            },
            Err(_) => rest,
        }
    }
}

proof fn lemma_number_lexemes_from(s: Seq<char>, i: int, line: LineNum)
    requires
        0 <= i <= s.len(),
    ensures
        spec_number_lexemes_from(s, i, line) == spec_item_number_lexemes(
            spec_items_from(s, i, line),
        ),
    decreases s.len() - i,
{
    lemma_scan_next_advances(s, i, line);
    let step = spec_scan_next(s, i, line);
    match step.0 {
        None => {
        },
        Some(item) => {
            lemma_number_lexemes_from(s, step.1, step.2);
            let rest_items = spec_items_from(s, step.1, step.2);
            assert((seq![item] + rest_items).drop_first() =~= rest_items);
            assert((seq![item] + rest_items)[0] == item);
        },
    }
}

/// Law: the number-lexeme table is aligned with the token stream: its k-th
/// entry is the lexeme of the k-th number token among the scanned items,
/// in scan order. A host that resolves `number_lexemes` entry by entry
/// therefore supplies each literal's own value.
pub proof fn lemma_number_lexemes_are_number_tokens(s: Seq<char>)
    ensures
        spec_number_lexemes(s) == spec_item_number_lexemes(spec_items(s)),
{
    lemma_number_lexemes_from(s, 0, 1);
}

/// Collect the lexemes of every number token in the source, in scan order.
#[verifier::loop_isolation(false)]
pub fn number_lexemes(source: &str) -> (r: Vec<String>)
    ensures
        r.deep_view() == spec_number_lexemes(source@),
{
    let mut scanner = Scanner::new(source);
    let mut out: Vec<String> = Vec::new();
    loop
        invariant
            scanner@.text == source@,
            0 <= scanner@.pos <= source@.len(),
            out.deep_view() + spec_number_lexemes_from(source@, scanner@.pos, scanner@.line)
                == spec_number_lexemes(source@),
        decreases source@.len() - scanner@.pos,
    {
        let ghost pos0 = scanner@.pos;
        let ghost line0 = scanner@.line;
        proof {
            lemma_scan_next_advances(source@, pos0, line0);
        }
        match scanner.next() {
            None => {
                proof {
                    assert(out.deep_view() + Seq::<Seq<char>>::empty() =~= out.deep_view());
                }
                break ;
            },
            Some(Ok(t)) => {
                if matches!(t.kind, TokenKind::Number) {
                    let ghost prev = out.deep_view();
                    let s: String = t.lexeme.to_owned();
                    out.push(s);
                    proof {
                        assert(out.deep_view() =~= prev + seq![t.lexeme@]);
                        assert(prev + seq![t.lexeme@] + spec_number_lexemes_from(
                            source@,
                            scanner@.pos,
                            scanner@.line,
                        ) =~= prev + (seq![t.lexeme@] + spec_number_lexemes_from(
                            source@,
                            scanner@.pos,
                            scanner@.line,
                        )));
                    }
                }
            },
            Some(Err(_)) => {},
        }
    }
    out
}

} // verus!
