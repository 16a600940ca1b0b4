//! The compiler: a single-pass operator-precedence parser that emits
//! instructions straight into a chunk, with no tree in between.
//!
//! The parser keeps one token of lookahead (`current`) beside the token just
//! consumed (`previous`). Errors are collected, not fatal: a scan error or a
//! parse error sets a sticky error flag and a panic flag, and while
//! panicking further parse diagnostics are suppressed until a token that
//! plausibly begins a statement. The whole input is scanned once per call,
//! and the compile fails if any diagnostic was recorded.
//!
//! Number literals are resolved through a table supplied by the caller: the
//! k-th entry is the 64-bit encoding of the k-th number lexeme of the source
//! (see `number_lexemes`), or nothing where the lexeme denotes no value.

use vstd::prelude::*;

use crate::chunk::{
    spec_push_line_table, spec_push_lines, Chunk, LineNum, OpCode, SpecChunk, Value,
};
use crate::scanner::{
    spec_items_from, spec_scan_next, lemma_scan_next_advances, Scanner, ScannerError, SpecScanError,
};
use crate::token::{SpecToken, Token, TokenKind};

verus! {

/// One diagnostic recorded during a compile. Scan errors carry what the
/// scanner found; the rest are parse errors, each with the line it was
/// found on.
#[derive(Debug, Clone)]
pub enum Diagnostic {
    /// The scanner could not form a token.
    Scan { err: ScannerError },
    /// A token that no expression can begin with.
    ExpectedExpression { line: LineNum },
    /// A particular token was expected and something else was found.
    ExpectedToken { expected: TokenKind, line: LineNum },
    /// A complete expression was parsed and input remains.
    ExpectedEnd { line: LineNum },
    /// The input ended where an expression was expected.
    UnexpectedEnd { line: LineNum },
    /// A number literal denotes no double-precision value. The scanner
    /// rejects malformed literals itself; this arises only when the
    /// caller's number table has no value for the literal.
    BadNumberValue { line: LineNum, n: String },
    /// The constant pool cannot grow past what a load operand can index.
    TooManyConstants { line: LineNum },
}

/// The mathematical image of a diagnostic.
pub enum SpecDiagnostic {
    Scan { err: SpecScanError },
    ExpectedExpression { line: LineNum },
    ExpectedToken { expected: TokenKind, line: LineNum },
    ExpectedEnd { line: LineNum },
    UnexpectedEnd { line: LineNum },
    BadNumberValue { line: LineNum, n: Seq<char> },
    TooManyConstants { line: LineNum },
}

impl View for Diagnostic {
    type V = SpecDiagnostic;

    open spec fn view(&self) -> SpecDiagnostic {
        match self {
            Diagnostic::Scan { err } => SpecDiagnostic::Scan { err: err@ },
            Diagnostic::ExpectedExpression { line } => SpecDiagnostic::ExpectedExpression {
                line: *line,
            },
            Diagnostic::ExpectedToken { expected, line } => SpecDiagnostic::ExpectedToken {
                expected: *expected,
                line: *line,
            },
            Diagnostic::ExpectedEnd { line } => SpecDiagnostic::ExpectedEnd { line: *line },
            Diagnostic::UnexpectedEnd { line } => SpecDiagnostic::UnexpectedEnd { line: *line },
            Diagnostic::BadNumberValue { line, n } => SpecDiagnostic::BadNumberValue {
                line: *line,
                n: n@,
            },
            Diagnostic::TooManyConstants { line } => SpecDiagnostic::TooManyConstants {
                line: *line,
            },
        }
    }
}

/// The aggregate signal that a compile failed, carrying every diagnostic
/// recorded during the pass, in order.
#[derive(Debug)]
pub struct CompilerError {
    pub diagnostics: Vec<Diagnostic>,
}

/// The view of a diagnostic list.
pub open spec fn diags_view(v: Seq<Diagnostic>) -> Seq<SpecDiagnostic> {
    v.map_values(|d: Diagnostic| d@)
}

impl View for CompilerError {
    type V = Seq<SpecDiagnostic>;

    open spec fn view(&self) -> Seq<SpecDiagnostic> {
        diags_view(self.diagnostics@)
    }
}

/// The view of a scanned item list.
pub open spec fn toks_view(v: Seq<Result<Token, ScannerError>>) -> Seq<
    Result<SpecToken, SpecScanError>,
> {
    v.map_values(
        |r: Result<Token, ScannerError>|
            match r {
                Ok(t) => Result::<SpecToken, SpecScanError>::Ok(t@),
                Err(e) => Result::<SpecToken, SpecScanError>::Err(e@),
            },
    )
}

/// The parser's state: the scanned items, how many are consumed, the one
/// token of lookahead beside the one last consumed, the error and panic
/// flags, the diagnostics so far, how many number literals were resolved,
/// and the last line seen.
pub struct SpecParser {
    pub toks: Seq<Result<SpecToken, SpecScanError>>,
    pub idx: int,
    pub current: Option<SpecToken>,
    pub previous: Option<SpecToken>,
    pub erred: bool,
    pub panicking: bool,
    pub diags: Seq<SpecDiagnostic>,
    pub next_number: int,
    pub last_line: LineNum,
}

/// A sound parser position: consumption never passes the end.
pub open spec fn sp_wf(p: SpecParser) -> bool {
    &&& 0 <= p.idx <= p.toks.len()
    &&& 0 <= p.next_number
}

/// How much input is left to consume: the unconsumed items plus the
/// lookahead token.
pub open spec fn sp_remaining(p: SpecParser) -> int {
    p.toks.len() - p.idx + if p.current is Some {
        1int
    } else {
        0int
    }
}

/// Record a scan error: always kept, and the parser enters panic mode.
pub open spec fn sp_report_scan(p: SpecParser, e: SpecScanError) -> SpecParser {
    SpecParser {
        erred: true,
        panicking: true,
        diags: p.diags.push(SpecDiagnostic::Scan { err: e }),
        ..p
    }
}

/// Record a parse diagnostic: kept only outside panic mode, and the parser
/// enters panic mode.
pub open spec fn sp_report_parse(p: SpecParser, d: SpecDiagnostic) -> SpecParser {
    SpecParser {
        erred: true,
        panicking: true,
        diags: if p.panicking {
            p.diags
        } else {
            p.diags.push(d)
        },
        ..p
    }
}

/// The line a scan error stands on.
pub open spec fn sp_err_line(e: SpecScanError) -> LineNum {
    match e {
        SpecScanError::BadChar { line, .. } => line,
        SpecScanError::BadNumber { line, .. } => line,
        SpecScanError::UnterminatedString { line } => line,
    }
}

/// Advance past scan errors, recording each, until a token or the end.
pub open spec fn sp_advance_loop(p: SpecParser) -> SpecParser
    decreases p.toks.len() - p.idx,
{
    if !(0 <= p.idx < p.toks.len()) {
        SpecParser { current: None, ..p }
    } else {
        match p.toks[p.idx] {
            Ok(t) => SpecParser { current: Some(t), idx: p.idx + 1, last_line: t.line, ..p },
            Err(e) => sp_advance_loop(
                SpecParser {
                    idx: p.idx + 1,
                    last_line: sp_err_line(e),
                    ..sp_report_scan(p, e)
                },
            ),
        }
    }
}

/// One advance: the lookahead becomes the previous token, and the next
/// token becomes the lookahead, with every scan error on the way recorded.
pub open spec fn sp_advance(p: SpecParser) -> SpecParser {
    sp_advance_loop(SpecParser { previous: p.current, current: None, ..p })
}

/// The binding precedence of an infix operator; tokens that are no infix
/// operator bind not at all.
pub const PREC_NONE: u8 = 0;

/// The precedence of addition and subtraction.
pub const PREC_TERM: u8 = 1;

/// The precedence of multiplication and division.
pub const PREC_FACTOR: u8 = 2;

/// The precedence of unary negation.
pub const PREC_UNARY: u8 = 3;

/// The infix binding precedence of a token kind.
pub open spec fn spec_infix_prec(kind: TokenKind) -> u8 {
    match kind {
        TokenKind::Plus => PREC_TERM,
        TokenKind::Minus => PREC_TERM,
        TokenKind::Star => PREC_FACTOR,
        TokenKind::Slash => PREC_FACTOR,
        _ => PREC_NONE,
    }
}

/// The infix binding precedence of a token kind.
pub fn infix_prec(kind: TokenKind) -> (r: u8)
    ensures
        r == spec_infix_prec(kind),
{
    match kind {
        TokenKind::Plus => PREC_TERM,
        TokenKind::Minus => PREC_TERM,
        TokenKind::Star => PREC_FACTOR,
        TokenKind::Slash => PREC_FACTOR,
        _ => PREC_NONE,
    }
}

/// The instruction an infix operator token emits.
pub open spec fn spec_binary_opcode(kind: TokenKind) -> OpCode {
    match kind {
        TokenKind::Plus => OpCode::Add,
        TokenKind::Minus => OpCode::Subtract,
        TokenKind::Star => OpCode::Multiply,
        _ => OpCode::Divide,
    }
}

/// Whether a token plausibly begins a statement, ending panic mode.
pub open spec fn spec_sync_token(kind: TokenKind) -> bool {
    match kind {
        TokenKind::Semicolon => true,
        TokenKind::Class => true,
        TokenKind::Fun => true,
        TokenKind::Var => true,
        TokenKind::For => true,
        TokenKind::If => true,
        TokenKind::While => true,
        TokenKind::Print => true,
        TokenKind::Return => true,
        _ => false,
    }
}

/// Whether a token plausibly begins a statement, ending panic mode.
pub fn sync_token(kind: TokenKind) -> (r: bool)
    ensures
        r == spec_sync_token(kind),
{
    match kind {
        TokenKind::Semicolon => true,
        TokenKind::Class => true,
        TokenKind::Fun => true,
        TokenKind::Var => true,
        TokenKind::For => true,
        TokenKind::If => true,
        TokenKind::While => true,
        TokenKind::Print => true,
        TokenKind::Return => true,
        _ => false,
    }
}

/// The parser: owns the scanned items and consumes them one at a time,
/// emitting instructions as grammar rules complete. Lives for one compile.
#[derive(Debug)]
pub struct Parser<'a> {
    pub tokens: Vec<Result<Token<'a>, ScannerError>>,
    pub idx: usize,
    pub current: Option<Token<'a>>,
    pub previous: Option<Token<'a>>,
    pub erred: bool,
    pub panicking: bool,
    pub diagnostics: Vec<Diagnostic>,
    pub next_number: usize,
    pub last_line: LineNum,
}

impl<'a> View for Parser<'a> {
    type V = SpecParser;

    open spec fn view(&self) -> SpecParser {
        SpecParser {
            toks: toks_view(self.tokens@),
            idx: self.idx as int,
            current: match self.current {
                Some(t) => Some(t@),
                None => None,
            },
            previous: match self.previous {
                Some(t) => Some(t@),
                None => None,
            },
            erred: self.erred,
            panicking: self.panicking,
            diags: diags_view(self.diagnostics@),
            next_number: self.next_number as int,
            last_line: self.last_line,
        }
    }
}

impl<'a> Parser<'a> {
    /// A fresh parser over everything the scanner has left to yield. The
    /// scanner is drained here; the parser owns the items.
    #[verifier::loop_isolation(false)]
    pub fn new(scanner: Scanner<'a>) -> (r: Self)
        ensures
            r@ == (SpecParser {
                toks: spec_items_from(scanner@.text, scanner@.pos, scanner@.line),
                idx: 0,
                current: None,
                previous: None,
                erred: false,
                panicking: false,
                diags: Seq::<SpecDiagnostic>::empty(),
                next_number: 0,
                last_line: 1,
            }),
            sp_wf(r@),
    {
        let ghost text = scanner@.text;
        let ghost pos_init = scanner@.pos;
        let ghost line_init = scanner@.line;
        let mut scanner = scanner;
        let mut tokens: Vec<Result<Token<'a>, ScannerError>> = Vec::new();
        scanner.check_in_bounds();
        loop
            invariant
                scanner@.text == text,
                0 <= scanner@.pos <= text.len(),
                toks_view(tokens@) + spec_items_from(text, scanner@.pos, scanner@.line)
                    == spec_items_from(text, pos_init, line_init),
            decreases text.len() - scanner@.pos,
        {
            let ghost pos0 = scanner@.pos;
            let ghost line0 = scanner@.line;
            proof {
                lemma_scan_next_advances(text, pos0, line0);
            }
            match scanner.next() {
                None => {
                    proof {
                        assert(toks_view(tokens@) + Seq::<
                            Result<SpecToken, SpecScanError>,
                        >::empty() =~= toks_view(tokens@));
                    }
                    break ;
                },
                Some(item) => {
                    let ghost prev = toks_view(tokens@);
                    let ghost spec_item = spec_scan_next(text, pos0, line0).0->Some_0;
                    tokens.push(item);
                    proof {
                        assert(toks_view(tokens@) =~= prev + seq![spec_item]);
                        assert(prev + seq![spec_item] + spec_items_from(
                            text,
                            scanner@.pos,
                            scanner@.line,
                        ) =~= prev + (seq![spec_item] + spec_items_from(
                            text,
                            scanner@.pos,
                            scanner@.line,
                        )));
                    }
                },
            }
        }
        let r = Self {
            tokens,
            idx: 0,
            current: None,
            previous: None,
            erred: false,
            panicking: false,
            diagnostics: Vec::new(),
            next_number: 0,
            last_line: 1,
        };
        proof {
            assert(diags_view(r.diagnostics@) =~= Seq::<SpecDiagnostic>::empty());
        }
        r
    }

    /// Record a scan error: always kept; the parser enters panic mode.
    pub(crate) fn report_err(&mut self, error: ScannerError)
        ensures
            final(self)@ == sp_report_scan(old(self)@, error@),
    {
        self.erred = true;
        self.panicking = true;
        let ghost prev = diags_view(self.diagnostics@);
        let ghost e = error@;
        self.diagnostics.push(Diagnostic::Scan { err: error });
        proof {
            assert(diags_view(self.diagnostics@) =~= prev.push(SpecDiagnostic::Scan { err: e }));
        }
    }

    /// Record a parse diagnostic: suppressed while panicking; the parser
    /// enters panic mode either way.
    pub(crate) fn report_parse(&mut self, diagnostic: Diagnostic)
        ensures
            final(self)@ == sp_report_parse(old(self)@, diagnostic@),
    {
        if !self.panicking {
            let ghost prev = diags_view(self.diagnostics@);
            let ghost d = diagnostic@;
            self.diagnostics.push(diagnostic);
            proof {
                assert(diags_view(self.diagnostics@) =~= prev.push(d));
            }
        }
        self.erred = true;
        self.panicking = true;
    }

    /// Step to the next token: the lookahead becomes the previous token,
    /// and scan errors on the way are reported and passed over.
    #[verifier::loop_isolation(false)]
    pub(crate) fn advance(&mut self)
        requires
            sp_wf(old(self)@),
        ensures
            final(self)@ == sp_advance(old(self)@),
            sp_wf(final(self)@),
            final(self)@.toks == old(self)@.toks,
            final(self)@.previous == old(self)@.current,
            final(self)@.next_number == old(self)@.next_number,
            sp_remaining(final(self)@) <= sp_remaining(old(self)@),
            old(self)@.current is Some ==> sp_remaining(final(self)@) < sp_remaining(old(self)@),
            final(self)@.current is Some ==> final(self)@.idx > old(self)@.idx,
    {
        self.previous = self.current;
        self.current = None;
        loop
            invariant
                self@.idx <= self@.toks.len(),
                old(self)@.idx <= self@.idx,
                self@.toks == old(self)@.toks,
                self@.current is None,
                self@.previous == old(self)@.current,
                self@.next_number == old(self)@.next_number,
                sp_advance(old(self)@) == sp_advance_loop(self@),
            decreases self@.toks.len() - self@.idx,
        {
            if self.idx >= self.tokens.len() {
                break ;
            }
            proof {
                assert(self@.toks[self@.idx] == toks_view(self.tokens@)[self@.idx]);
            }
            let step_taken = {
                let item = &self.tokens[self.idx];
                match item {
                    Ok(t) => {
                        let t = *t;
                        self.idx = self.idx + 1;
                        self.current = Some(t);
                        self.last_line = t.line;
                        true
                    },
                    Err(e) => {
                        let e = e.clone();
                        self.idx = self.idx + 1;
                        let line = e.line();
                        self.last_line = line;
                        self.report_err(e);
                        false
                    },
                }
            };
            if step_taken {
                break ;
            }
        }
    }
}

/// A chunk after one stand-alone instruction with its line entry.
pub open spec fn sp_push_opcode(ch: SpecChunk, op: OpCode, line: LineNum) -> SpecChunk {
    SpecChunk {
        code: ch.code.push(op.spec_byte()),
        lines: spec_push_line_table(ch.lines, line),
        ..ch
    }
}

/// A chunk after a load of a fresh constant: the value and its text join
/// the pool, the tag and operand join the stream, and five line entries are
/// recorded.
pub open spec fn sp_push_const(ch: SpecChunk, v: Value, text: Seq<char>, line: LineNum) -> SpecChunk {
    SpecChunk {
        code: ch.code.push(OpCode::LoadConstant.spec_byte()) + crate::chunk::spec_le_bytes(
            ch.constants.len() as u32,
        ),
        constants: ch.constants.push(v),
        constant_texts: ch.constant_texts.push(text),
        lines: spec_push_lines(ch.lines, line, 5),
    }
}

/// Record a diagnostic that is never suppressed; the parser enters panic
/// mode.
pub open spec fn sp_report_always(p: SpecParser, d: SpecDiagnostic) -> SpecParser {
    SpecParser { erred: true, panicking: true, diags: p.diags.push(d), ..p }
}

/// The bounded count of resolved number literals after one more.
pub open spec fn sp_bump_number(k: int) -> int {
    if k < usize::MAX {
        k + 1
    } else {
        k
    }
}

/// A number literal was consumed (it stands in `previous`): look its value
/// up in the table and emit a load, or record why none could be emitted.
pub open spec fn sp_number(p: SpecParser, ch: SpecChunk, nums: Seq<Option<Value>>) -> (
    SpecParser,
    SpecChunk,
) {
    let t = p.previous->Some_0;
    let k = p.next_number;
    let p1 = SpecParser { next_number: sp_bump_number(k), ..p };
    if 0 <= k < nums.len() && nums[k] is Some {
        if ch.constants.len() < u32::MAX {
            (p1, sp_push_const(ch, nums[k]->Some_0, t.lexeme, t.line))
        } else {
            (sp_report_parse(p1, SpecDiagnostic::TooManyConstants { line: t.line }), ch)
        }
    } else {
        (
            sp_report_always(p1, SpecDiagnostic::BadNumberValue { line: t.line, n: t.lexeme }),
            ch,
        )
    }
}

/// Expect the lookahead to be of the given kind: consume it, or record what
/// was expected without consuming anything.
pub open spec fn sp_consume(p: SpecParser, expected: TokenKind) -> SpecParser {
    if p.current matches Some(t) && t.kind == expected {
        sp_advance(p)
    } else {
        let line = if p.current is Some {
            p.current->Some_0.line
        } else {
            p.last_line
        };
        sp_report_parse(p, SpecDiagnostic::ExpectedToken { expected, line })
    }
}

/// A parenthesised group (its `(` stands in `previous`): the inner
/// expression, then the matching `)`.
pub open spec fn sp_grouping(p: SpecParser, ch: SpecChunk, nums: Seq<Option<Value>>) -> (
    SpecParser,
    SpecChunk,
)
    decreases sp_remaining(p), 4int,
{
    let (p1, ch1) = sp_parse_precedence(p, ch, nums, PREC_TERM);
    (sp_consume(p1, TokenKind::RParen), ch1)
}

/// A unary minus (standing in `previous`): the operand at unary
/// precedence, then a negate instruction carrying the operator's line.
pub open spec fn sp_unary(p: SpecParser, ch: SpecChunk, nums: Seq<Option<Value>>) -> (
    SpecParser,
    SpecChunk,
)
    decreases sp_remaining(p), 4int,
{
    let line = p.previous->Some_0.line;
    let (p1, ch1) = sp_parse_precedence(p, ch, nums, PREC_UNARY);
    (p1, sp_push_opcode(ch1, OpCode::Negate, line))
}

/// A binary operator (standing in `previous`): the right operand one
/// precedence level up - operators are left-associative - then the matching
/// instruction carrying the operator's line.
pub open spec fn sp_binary(p: SpecParser, ch: SpecChunk, nums: Seq<Option<Value>>) -> (
    SpecParser,
    SpecChunk,
)
    decreases sp_remaining(p), 4int,
{
    let t = p.previous->Some_0;
    let (p1, ch1) = sp_parse_precedence(
        p,
        ch,
        nums,
        (spec_infix_prec(t.kind) + 1) as u8,
    );
    (p1, sp_push_opcode(ch1, spec_binary_opcode(t.kind), t.line))
}

/// Parse one expression whose operators bind at least `min_prec` tight:
/// consume one token and apply its prefix rule, then fold in infix
/// operators while their precedence reaches `min_prec`.
pub open spec fn sp_parse_precedence(
    p: SpecParser,
    ch: SpecChunk,
    nums: Seq<Option<Value>>,
    min_prec: u8,
) -> (SpecParser, SpecChunk)
    decreases sp_remaining(p), 3int,
{
    let p1 = sp_advance(p);
    match p1.previous {
        None => (sp_report_parse(p1, SpecDiagnostic::UnexpectedEnd { line: p1.last_line }), ch),
        Some(t) => {
            if t.kind is Number || t.kind is LParen || t.kind is Minus {
                let (p2, ch2) = if t.kind is Number {
                    sp_number(p1, ch, nums)
                } else if 0 <= sp_remaining(p1) < sp_remaining(p) {
                    if t.kind is LParen {
                        sp_grouping(p1, ch, nums)
                    } else {
                        sp_unary(p1, ch, nums)
                    }
                } else {
                    (p1, ch)
                };
                if 0 <= sp_remaining(p2) < sp_remaining(p) {
                    sp_infix(p2, ch2, nums, min_prec)
                } else {
                    (p2, ch2)
                }
            } else {
                (sp_report_parse(p1, SpecDiagnostic::ExpectedExpression { line: t.line }), ch)
            }
        },
    }
}

/// Fold in infix operators: while the lookahead's precedence reaches
/// `min_prec`, consume the operator and parse its right operand.
pub open spec fn sp_infix(
    p: SpecParser,
    ch: SpecChunk,
    nums: Seq<Option<Value>>,
    min_prec: u8,
) -> (SpecParser, SpecChunk)
    decreases sp_remaining(p), 2int,
{
    if p.current matches Some(t) && spec_infix_prec(t.kind) >= min_prec {
        let pa = sp_advance(p);
        let (p1, ch1) = if 0 <= sp_remaining(pa) < sp_remaining(p) {
            sp_binary(pa, ch, nums)
        } else {
            (pa, ch)
        };
        if 0 <= sp_remaining(p1) < sp_remaining(p) {
            sp_infix(p1, ch1, nums, min_prec)
        } else {
            (p1, ch1)
        }
    } else {
        (p, ch)
    }
}

/// Scan out the rest of the input: a first leftover token is a diagnostic,
/// later ones are passed over silently until a token that plausibly begins
/// a statement ends panic mode.
pub open spec fn sp_finish(p: SpecParser) -> SpecParser
    decreases sp_remaining(p), 1int,
{
    match p.current {
        None => p,
        Some(t) => {
            let p1 = if p.panicking {
                if spec_sync_token(t.kind) {
                    SpecParser { panicking: false, ..p }
                } else {
                    p
                }
            } else {
                sp_report_parse(p, SpecDiagnostic::ExpectedEnd { line: t.line })
            };
            let p2 = sp_advance(p1);
            if 0 <= sp_remaining(p2) < sp_remaining(p) {
                sp_finish(p2)
            } else {
                p2
            }
        },
    }
}

/// What compiling a source under a number table yields: the chunk when no
/// diagnostic was recorded, else every diagnostic in order.
pub open spec fn spec_compile(s: Seq<char>, nums: Seq<Option<Value>>) -> Result<
    SpecChunk,
    Seq<SpecDiagnostic>,
> {
    let p0 = SpecParser {
        toks: crate::scanner::spec_items(s),
        idx: 0,
        current: None,
        previous: None,
        erred: false,
        panicking: false,
        diags: Seq::<SpecDiagnostic>::empty(),
        next_number: 0,
        last_line: 1,
    };
    let ch0 = SpecChunk {
        code: Seq::<u8>::empty(),
        constants: Seq::<Value>::empty(),
        constant_texts: Seq::<Seq<char>>::empty(),
        lines: Seq::<(LineNum, usize)>::empty(),
    };
    let p1 = sp_advance(p0);
    let (p2, ch1) = sp_parse_precedence(p1, ch0, nums, PREC_TERM);
    let p3 = sp_finish(p2);
    let ch2 = sp_push_opcode(ch1, OpCode::Return, p3.last_line);
    if p3.erred {
        Err(p3.diags)
    } else {
        Ok(ch2)
    }
}

impl<'a> Parser<'a> {
    /// Emit the load for the number literal standing in `previous`,
    /// resolving its value through the caller's table.
    pub(crate) fn number(&mut self, chunk: &mut Chunk, numbers: &Vec<Option<Value>>)
        requires
            sp_wf(old(self)@),
            old(self)@.previous is Some,
        ensures
            (final(self)@, final(chunk)@) == sp_number(old(self)@, old(chunk)@, numbers@),
            sp_wf(final(self)@),
            final(self)@.toks == old(self)@.toks,
            final(self)@.idx == old(self)@.idx,
            final(self)@.current == old(self)@.current,
    {
        if let Some(t) = self.previous {
            let k = self.next_number;
            self.next_number = if k < usize::MAX {
                k + 1
            } else {
                k
            };
            let mut value: Option<Value> = None;
            if k < numbers.len() {
                value = numbers[k];
            }
            match value {
                Some(v) => {
                    if chunk.constants.len() < (u32::MAX as usize) {
                        chunk.push_const_opcode(v, t.lexeme.to_owned(), t.line);
                    } else {
                        self.report_parse(Diagnostic::TooManyConstants { line: t.line });
                    }
                },
                None => {
                    let diag = Diagnostic::BadNumberValue { line: t.line, n: t.lexeme.to_owned() };
                    let ghost prev = diags_view(self.diagnostics@);
                    let ghost d = diag@;
                    self.diagnostics.push(diag);
                    self.erred = true;
                    self.panicking = true;
                    proof {
                        assert(diags_view(self.diagnostics@) =~= prev.push(d));
                    }
                },
            }
        }
    }

    /// Expect the lookahead to be of the given kind: consume it, or record
    /// what was expected without consuming anything.
    pub(crate) fn consume(&mut self, expected: TokenKind)
        requires
            sp_wf(old(self)@),
        ensures
            final(self)@ == sp_consume(old(self)@, expected),
            sp_wf(final(self)@),
            final(self)@.toks == old(self)@.toks,
            sp_remaining(final(self)@) <= sp_remaining(old(self)@),
    {
        match self.current {
            Some(t) => {
                if t.kind == expected {
                    self.advance();
                } else {
                    self.report_parse(Diagnostic::ExpectedToken { expected, line: t.line });
                }
            },
            None => {
                let line = self.last_line;
                self.report_parse(Diagnostic::ExpectedToken { expected, line });
            },
        }
    }

    /// Parse a parenthesised group whose `(` stands in `previous`.
    pub(crate) fn grouping(&mut self, chunk: &mut Chunk, numbers: &Vec<Option<Value>>)
        requires
            sp_wf(old(self)@),
        ensures
            (final(self)@, final(chunk)@) == sp_grouping(old(self)@, old(chunk)@, numbers@),
            sp_wf(final(self)@),
            final(self)@.toks == old(self)@.toks,
            sp_remaining(final(self)@) <= sp_remaining(old(self)@),
        decreases sp_remaining(old(self)@), 4int,
    {
        self.parse_precedence(chunk, numbers, PREC_TERM);
        self.consume(TokenKind::RParen);
    }

    /// Parse a negation whose `-` stands in `previous`.
    pub(crate) fn unary(&mut self, chunk: &mut Chunk, numbers: &Vec<Option<Value>>)
        requires
            sp_wf(old(self)@),
            old(self)@.previous is Some,
        ensures
            (final(self)@, final(chunk)@) == sp_unary(old(self)@, old(chunk)@, numbers@),
            sp_wf(final(self)@),
            final(self)@.toks == old(self)@.toks,
            sp_remaining(final(self)@) <= sp_remaining(old(self)@),
        decreases sp_remaining(old(self)@), 4int,
    {
        let line = match self.previous {
            Some(t) => t.line,
            None => 1,
        };
        self.parse_precedence(chunk, numbers, PREC_UNARY);
        chunk.push_opcode(OpCode::Negate, line);
    }

    /// Parse the right operand of the binary operator standing in
    /// `previous`, then emit the operator's instruction.
    pub(crate) fn binary(&mut self, chunk: &mut Chunk, numbers: &Vec<Option<Value>>)
        requires
            sp_wf(old(self)@),
            old(self)@.previous is Some,
        ensures
            (final(self)@, final(chunk)@) == sp_binary(old(self)@, old(chunk)@, numbers@),
            sp_wf(final(self)@),
            final(self)@.toks == old(self)@.toks,
            sp_remaining(final(self)@) <= sp_remaining(old(self)@),
        decreases sp_remaining(old(self)@), 4int,
    {
        let (kind, line) = match self.previous {
            Some(t) => (t.kind, t.line),
            None => (TokenKind::Plus, 1),
        };
        let prec = infix_prec(kind);
        self.parse_precedence(chunk, numbers, prec + 1);
        let op = match kind {
            TokenKind::Plus => OpCode::Add,
            TokenKind::Minus => OpCode::Subtract,
            TokenKind::Star => OpCode::Multiply,
            _ => OpCode::Divide,
        };
        chunk.push_opcode(op, line);
    }

    /// Parse one expression whose operators bind at least `min_prec` tight.
    #[verifier::loop_isolation(false)]
    pub(crate) fn parse_precedence(
        &mut self,
        chunk: &mut Chunk,
        numbers: &Vec<Option<Value>>,
        min_prec: u8,
    )
        requires
            sp_wf(old(self)@),
        ensures
            (final(self)@, final(chunk)@) == sp_parse_precedence(
                old(self)@,
                old(chunk)@,
                numbers@,
                min_prec,
            ),
            sp_wf(final(self)@),
            final(self)@.toks == old(self)@.toks,
            sp_remaining(final(self)@) <= sp_remaining(old(self)@),
        decreases sp_remaining(old(self)@), 3int,
    {
        let ghost target = sp_parse_precedence(old(self)@, old(chunk)@, numbers@, min_prec);
        self.advance();
        let ghost p1 = self@;
        let prev = self.previous;
        match prev {
            None => {
                let line = self.last_line;
                self.report_parse(Diagnostic::UnexpectedEnd { line });
                return ;
            },
            Some(t) => {
                match t.kind {
                    TokenKind::Number => {
                        self.number(chunk, numbers);
                    },
                    TokenKind::LParen => {
                        self.grouping(chunk, numbers);
                    },
                    TokenKind::Minus => {
                        self.unary(chunk, numbers);
                    },
                    _ => {
                        self.report_parse(Diagnostic::ExpectedExpression { line: t.line });
                        return ;
                    },
                }
            },
        }
        proof {
            assert(target == sp_infix(self@, chunk@, numbers@, min_prec));
        }
        loop
            invariant
                sp_wf(self@),
                self@.toks == old(self)@.toks,
                sp_remaining(self@) < sp_remaining(old(self)@),
                target == sp_infix(self@, chunk@, numbers@, min_prec),
            decreases sp_remaining(self@),
        {
            let t = match self.current {
                Some(t) => t,
                None => {
                    break ;
                },
            };
            let prec = infix_prec(t.kind);
            if prec < min_prec {
                break ;
            }
            self.advance();
            self.binary(chunk, numbers);
        }
    }

    /// Parse one whole expression.
    pub(crate) fn expression(&mut self, chunk: &mut Chunk, numbers: &Vec<Option<Value>>)
        requires
            sp_wf(old(self)@),
        ensures
            (final(self)@, final(chunk)@) == sp_parse_precedence(
                old(self)@,
                old(chunk)@,
                numbers@,
                PREC_TERM,
            ),
            sp_wf(final(self)@),
            final(self)@.toks == old(self)@.toks,
    {
        self.parse_precedence(chunk, numbers, PREC_TERM);
    }

    /// Scan out whatever input remains, reporting a first leftover token
    /// and synchronising on statement boundaries.
    #[verifier::loop_isolation(false)]
    pub(crate) fn finish(&mut self)
        requires
            sp_wf(old(self)@),
        ensures
            final(self)@ == sp_finish(old(self)@),
            sp_wf(final(self)@),
            final(self)@.toks == old(self)@.toks,
    {
        loop
            invariant
                sp_wf(self@),
                self@.toks == old(self)@.toks,
                sp_finish(old(self)@) == sp_finish(self@),
            decreases sp_remaining(self@),
        {
            let t = match self.current {
                None => {
                    break ;
                },
                Some(t) => t,
            };
            if self.panicking {
                if sync_token(t.kind) {
                    self.panicking = false;
                }
            } else {
                self.report_parse(Diagnostic::ExpectedEnd { line: t.line });
            }
            self.advance();
        }
    }
}

/// Compile source text into a chunk, resolving each number literal through
/// `numbers`: its k-th entry is the value of the k-th number lexeme (see
/// `number_lexemes`). Any diagnostic makes the whole compile fail, and all
/// recorded diagnostics are returned in order.
pub fn compile<'a>(source: &'a str, numbers: &Vec<Option<Value>>) -> (r: Result<
    Chunk,
    CompilerError,
>)
    ensures
        ({
            let sc = spec_compile(source@, numbers@);
            match r {
                Ok(ch) => sc == Result::<SpecChunk, Seq<SpecDiagnostic>>::Ok(ch@),
                Err(e) => sc == Result::<SpecChunk, Seq<SpecDiagnostic>>::Err(e@),
            }
        }),
{
    let scanner = Scanner::new(source);
    let mut parser = Parser::new(scanner);
    let mut chunk = Chunk::new();
    parser.advance();
    parser.expression(&mut chunk, numbers);
    parser.finish();
    chunk.push_opcode(OpCode::Return, parser.last_line);
    if parser.erred {
        Err(CompilerError { diagnostics: parser.diagnostics })
    } else {
        Ok(chunk)
    }
}

/// The diagnostic a scan error is recorded as.
pub open spec fn sp_scan_diag(e: SpecScanError) -> SpecDiagnostic {
    SpecDiagnostic::Scan { err: e }
}

/// Every scan error among the consumed items stands in the diagnostics.
pub open spec fn sp_errors_recorded(p: SpecParser) -> bool {
    forall|j: int|
        0 <= j < p.idx && (#[trigger] p.toks[j]) is Err ==> p.diags.contains(
            sp_scan_diag(p.toks[j]->Err_0),
        )
}

/// The bookkeeping that holds at every point of a compile: the position is
/// sound, the error flag is set exactly when something was recorded, panic
/// mode implies the error flag, and no consumed scan error went
/// unrecorded.
pub open spec fn sp_inv_core(p: SpecParser) -> bool {
    &&& sp_wf(p)
    &&& (p.erred <==> p.diags.len() > 0)
    &&& (p.panicking ==> p.erred)
    &&& sp_errors_recorded(p)
}

/// The bookkeeping between advances: additionally, the lookahead is empty
/// only at the input's end.
pub open spec fn sp_inv(p: SpecParser) -> bool {
    &&& sp_inv_core(p)
    &&& (p.current is None ==> p.idx == p.toks.len())
}

pub(crate) proof fn lemma_prefix_trans<A>(a: Seq<A>, b: Seq<A>, c: Seq<A>)
    requires
        a.is_prefix_of(b),
        b.is_prefix_of(c),
    ensures
        a.is_prefix_of(c),
{
    assert(a =~= c.subrange(0, a.len() as int));
}

pub(crate) proof fn lemma_contains_of_prefix<A>(a: Seq<A>, b: Seq<A>, x: A)
    requires
        a.is_prefix_of(b),
        a.contains(x),
    ensures
        b.contains(x),
{
    let i = choose|i: int| 0 <= i < a.len() && a[i] == x;
    assert(b[i] == x);
}

pub(crate) proof fn lemma_push_prefix<A>(a: Seq<A>, x: A)
    ensures
        a.is_prefix_of(a.push(x)),
{
    assert(a =~= a.push(x).subrange(0, a.len() as int));
}

pub(crate) proof fn lemma_prefix_refl<A>(a: Seq<A>)
    ensures
        a.is_prefix_of(a),
{
    assert(a =~= a.subrange(0, a.len() as int));
}

pub(crate) proof fn lemma_report_parse_inv(p: SpecParser, d: SpecDiagnostic)
    requires
        sp_inv_core(p),
    ensures
        ({
            let q = sp_report_parse(p, d);
            &&& sp_inv_core(q)
            &&& q.toks == p.toks
            &&& q.idx == p.idx
            &&& q.current == p.current
            &&& q.next_number == p.next_number
            &&& q.erred
            &&& p.diags.is_prefix_of(q.diags)
        }),
{
    let q = sp_report_parse(p, d);
    if p.panicking {
        lemma_prefix_refl(p.diags);
    } else {
        lemma_push_prefix(p.diags, d);
        assert forall|j: int|
            0 <= j < q.idx && (#[trigger] q.toks[j]) is Err implies q.diags.contains(
            sp_scan_diag(q.toks[j]->Err_0),
        ) by {
            lemma_contains_of_prefix(p.diags, q.diags, sp_scan_diag(p.toks[j]->Err_0));
        }
    }
}

pub(crate) proof fn lemma_advance_loop_inv(p: SpecParser)
    requires
        sp_inv_core(p),
        p.current is None,
    ensures
        ({
            let q = sp_advance_loop(p);
            &&& sp_inv(q)
            &&& q.toks == p.toks
            &&& q.previous == p.previous
            &&& q.next_number == p.next_number
            &&& p.idx <= q.idx
            &&& (q.current is Some ==> q.idx > p.idx)
            &&& (p.erred ==> q.erred)
            &&& p.diags.is_prefix_of(q.diags)
        }),
    decreases p.toks.len() - p.idx,
{
    let q = sp_advance_loop(p);
    if !(0 <= p.idx < p.toks.len()) {
        lemma_prefix_refl(p.diags);
    } else {
        match p.toks[p.idx] {
            Ok(t) => {
                lemma_prefix_refl(p.diags);
            },
            Err(e) => {
                let p1 = SpecParser {
                    idx: p.idx + 1,
                    last_line: sp_err_line(e),
                    ..sp_report_scan(p, e)
                };
                lemma_push_prefix(p.diags, sp_scan_diag(e));
                assert(p1.diags.last() == sp_scan_diag(e));
                assert forall|j: int|
                    0 <= j < p1.idx && (#[trigger] p1.toks[j]) is Err implies p1.diags.contains(
                    sp_scan_diag(p1.toks[j]->Err_0),
                ) by {
                    if j < p.idx {
                        lemma_contains_of_prefix(
                            p.diags,
                            p1.diags,
                            sp_scan_diag(p.toks[j]->Err_0),
                        );
                    } else {
                        assert(p1.diags[p1.diags.len() - 1] == sp_scan_diag(e));
                    }
                }
                lemma_advance_loop_inv(p1);
                lemma_prefix_trans(p.diags, p1.diags, q.diags);
            },
        }
    }
}

pub(crate) proof fn lemma_advance_inv(p: SpecParser)
    requires
        sp_inv_core(p),
    ensures
        ({
            let q = sp_advance(p);
            &&& sp_inv(q)
            &&& q.toks == p.toks
            &&& q.previous == p.current
            &&& q.next_number == p.next_number
            &&& p.idx <= q.idx
            &&& (p.erred ==> q.erred)
            &&& p.diags.is_prefix_of(q.diags)
            &&& (p.current is Some ==> sp_remaining(q) < sp_remaining(p))
        }),
{
    let q0 = SpecParser { previous: p.current, current: None, ..p };
    lemma_advance_loop_inv(q0);
}

pub(crate) proof fn lemma_number_inv(p: SpecParser, ch: SpecChunk, nums: Seq<Option<Value>>)
    requires
        sp_inv(p),
        p.previous is Some,
    ensures
        ({
            let q = sp_number(p, ch, nums).0;
            &&& sp_inv(q)
            &&& q.toks == p.toks
            &&& q.idx == p.idx
            &&& q.current == p.current
            &&& (p.erred ==> q.erred)
            &&& p.diags.is_prefix_of(q.diags)
        }),
{
    let t = p.previous->Some_0;
    let k = p.next_number;
    let p1 = SpecParser { next_number: sp_bump_number(k), ..p };
    if 0 <= k < nums.len() && nums[k] is Some {
        if ch.constants.len() < u32::MAX {
            lemma_prefix_refl(p.diags);
        } else {
            lemma_report_parse_inv(p1, SpecDiagnostic::TooManyConstants { line: t.line });
        }
    } else {
        let d = SpecDiagnostic::BadNumberValue { line: t.line, n: t.lexeme };
        let q = sp_report_always(p1, d);
        lemma_push_prefix(p.diags, d);
        assert forall|j: int|
            0 <= j < q.idx && (#[trigger] q.toks[j]) is Err implies q.diags.contains(
            sp_scan_diag(q.toks[j]->Err_0),
        ) by {
            lemma_contains_of_prefix(p.diags, q.diags, sp_scan_diag(p.toks[j]->Err_0));
        }
    }
}

pub(crate) proof fn lemma_consume_inv(p: SpecParser, expected: TokenKind)
    requires
        sp_inv(p),
    ensures
        ({
            let q = sp_consume(p, expected);
            &&& sp_inv(q)
            &&& q.toks == p.toks
            &&& q.next_number == p.next_number
            &&& p.idx <= q.idx
            &&& (p.erred ==> q.erred)
            &&& p.diags.is_prefix_of(q.diags)
            &&& sp_remaining(q) <= sp_remaining(p)
        }),
{
    if p.current matches Some(t) && t.kind == expected {
        lemma_advance_inv(p);
    } else {
        let line = if p.current is Some {
            p.current->Some_0.line
        } else {
            p.last_line
        };
        lemma_report_parse_inv(p, SpecDiagnostic::ExpectedToken { expected, line });
    }
}

pub(crate) proof fn lemma_grouping_inv(p: SpecParser, ch: SpecChunk, nums: Seq<Option<Value>>)
    requires
        sp_inv(p),
    ensures
        ({
            let q = sp_grouping(p, ch, nums).0;
            &&& sp_inv(q)
            &&& q.toks == p.toks
            &&& p.idx <= q.idx
            &&& (p.erred ==> q.erred)
            &&& p.diags.is_prefix_of(q.diags)
            &&& sp_remaining(q) <= sp_remaining(p)
        }),
    decreases sp_remaining(p), 4int,
{
    lemma_pp_inv(p, ch, nums, PREC_TERM);
    let p1 = sp_parse_precedence(p, ch, nums, PREC_TERM).0;
    lemma_consume_inv(p1, TokenKind::RParen);
    lemma_prefix_trans(p.diags, p1.diags, sp_consume(p1, TokenKind::RParen).diags);
}

pub(crate) proof fn lemma_unary_inv(p: SpecParser, ch: SpecChunk, nums: Seq<Option<Value>>)
    requires
        sp_inv(p),
    ensures
        ({
            let q = sp_unary(p, ch, nums).0;
            &&& sp_inv(q)
            &&& q.toks == p.toks
            &&& p.idx <= q.idx
            &&& (p.erred ==> q.erred)
            &&& p.diags.is_prefix_of(q.diags)
            &&& sp_remaining(q) <= sp_remaining(p)
        }),
    decreases sp_remaining(p), 4int,
{
    lemma_pp_inv(p, ch, nums, PREC_UNARY);
}

pub(crate) proof fn lemma_binary_inv(p: SpecParser, ch: SpecChunk, nums: Seq<Option<Value>>)
    requires
        sp_inv(p),
        p.previous is Some,
    ensures
        ({
            let q = sp_binary(p, ch, nums).0;
            &&& sp_inv(q)
            &&& q.toks == p.toks
            &&& p.idx <= q.idx
            &&& (p.erred ==> q.erred)
            &&& p.diags.is_prefix_of(q.diags)
            &&& sp_remaining(q) <= sp_remaining(p)
        }),
    decreases sp_remaining(p), 4int,
{
    let t = p.previous->Some_0;
    lemma_pp_inv(p, ch, nums, (spec_infix_prec(t.kind) + 1) as u8);
}

pub(crate) proof fn lemma_pp_inv(p: SpecParser, ch: SpecChunk, nums: Seq<Option<Value>>, min_prec: u8)
    requires
        sp_inv(p),
    ensures
        ({
            let q = sp_parse_precedence(p, ch, nums, min_prec).0;
            &&& sp_inv(q)
            &&& q.toks == p.toks
            &&& p.idx <= q.idx
            &&& (p.erred ==> q.erred)
            &&& p.diags.is_prefix_of(q.diags)
            &&& sp_remaining(q) <= sp_remaining(p)
        }),
    decreases sp_remaining(p), 3int,
{
    lemma_advance_inv(p);
    let p1 = sp_advance(p);
    match p1.previous {
        None => {
            lemma_report_parse_inv(p1, SpecDiagnostic::UnexpectedEnd { line: p1.last_line });
            lemma_prefix_trans(
                p.diags,
                p1.diags,
                sp_report_parse(
                    p1,
                    SpecDiagnostic::UnexpectedEnd { line: p1.last_line },
                ).diags,
            );
        },
        Some(t) => {
            if t.kind is Number || t.kind is LParen || t.kind is Minus {
                let (p2, ch2) = if t.kind is Number {
                    sp_number(p1, ch, nums)
                } else if 0 <= sp_remaining(p1) < sp_remaining(p) {
                    if t.kind is LParen {
                        sp_grouping(p1, ch, nums)
                    } else {
                        sp_unary(p1, ch, nums)
                    }
                } else {
                    (p1, ch)
                };
                if t.kind is Number {
                    lemma_number_inv(p1, ch, nums);
                } else if 0 <= sp_remaining(p1) < sp_remaining(p) {
                    if t.kind is LParen {
                        lemma_grouping_inv(p1, ch, nums);
                    } else {
                        lemma_unary_inv(p1, ch, nums);
                    }
                } else {
                    lemma_prefix_refl(p1.diags);
                }
                lemma_prefix_trans(p.diags, p1.diags, p2.diags);
                if 0 <= sp_remaining(p2) < sp_remaining(p) {
                    lemma_infix_inv(p2, ch2, nums, min_prec);
                    lemma_prefix_trans(
                        p.diags,
                        p2.diags,
                        sp_infix(p2, ch2, nums, min_prec).0.diags,
                    );
                }
            } else {
                lemma_report_parse_inv(p1, SpecDiagnostic::ExpectedExpression { line: t.line });
                lemma_prefix_trans(
                    p.diags,
                    p1.diags,
                    sp_report_parse(
                        p1,
                        SpecDiagnostic::ExpectedExpression { line: t.line },
                    ).diags,
                );
            }
        },
    }
}

pub(crate) proof fn lemma_infix_inv(p: SpecParser, ch: SpecChunk, nums: Seq<Option<Value>>, min_prec: u8)
    requires
        sp_inv(p),
    ensures
        ({
            let q = sp_infix(p, ch, nums, min_prec).0;
            &&& sp_inv(q)
            &&& q.toks == p.toks
            &&& p.idx <= q.idx
            &&& (p.erred ==> q.erred)
            &&& p.diags.is_prefix_of(q.diags)
            &&& sp_remaining(q) <= sp_remaining(p)
        }),
    decreases sp_remaining(p), 2int,
{
    if p.current matches Some(t) && spec_infix_prec(t.kind) >= min_prec {
        lemma_advance_inv(p);
        let pa = sp_advance(p);
        let (p1, ch1) = if 0 <= sp_remaining(pa) < sp_remaining(p) {
            sp_binary(pa, ch, nums)
        } else {
            (pa, ch)
        };
        if 0 <= sp_remaining(pa) < sp_remaining(p) {
            lemma_binary_inv(pa, ch, nums);
        } else {
            lemma_prefix_refl(pa.diags);
        }
        lemma_prefix_trans(p.diags, pa.diags, p1.diags);
        if 0 <= sp_remaining(p1) < sp_remaining(p) {
            lemma_infix_inv(p1, ch1, nums, min_prec);
            lemma_prefix_trans(p.diags, p1.diags, sp_infix(p1, ch1, nums, min_prec).0.diags);
        }
    } else {
        lemma_prefix_refl(p.diags);
    }
}

pub(crate) proof fn lemma_finish_inv(p: SpecParser)
    requires
        sp_inv(p),
    ensures
        ({
            let q = sp_finish(p);
            &&& sp_inv(q)
            &&& q.toks == p.toks
            &&& p.idx <= q.idx
            &&& (p.erred ==> q.erred)
            &&& p.diags.is_prefix_of(q.diags)
            &&& q.current is None
        }),
    decreases sp_remaining(p), 1int,
{
    match p.current {
        None => {
            lemma_prefix_refl(p.diags);
        },
        Some(t) => {
            let p1 = if p.panicking {
                if spec_sync_token(t.kind) {
                    SpecParser { panicking: false, ..p }
                } else {
                    p
                }
            } else {
                sp_report_parse(p, SpecDiagnostic::ExpectedEnd { line: t.line })
            };
            if !p.panicking {
                lemma_report_parse_inv(p, SpecDiagnostic::ExpectedEnd { line: t.line });
            } else {
                lemma_prefix_refl(p.diags);
            }
            lemma_advance_inv(p1);
            let p2 = sp_advance(p1);
            lemma_prefix_trans(p.diags, p1.diags, p2.diags);
            if 0 <= sp_remaining(p2) < sp_remaining(p) {
                lemma_finish_inv(p2);
                lemma_prefix_trans(p.diags, p2.diags, sp_finish(p2).diags);
            }
        },
    }
}

/// Law: the compile reports every scan error in the input - panic mode
/// never suppresses one - and fails exactly when it reports something: a
/// successful compile means every scanned item was a token, and a failed
/// one carries at least one diagnostic, among them one per scan error.
pub proof fn lemma_error_aggregation(s: Seq<char>, nums: Seq<Option<Value>>)
    ensures
        ({
            let items = crate::scanner::spec_items(s);
            match spec_compile(s, nums) {
                Ok(_) => forall|j: int| 0 <= j < items.len() ==> (#[trigger] items[j]) is Ok,
                Err(ds) => {
                    &&& ds.len() > 0
                    &&& forall|j: int|
                        0 <= j < items.len() && (#[trigger] items[j]) is Err ==> ds.contains(
                            sp_scan_diag(items[j]->Err_0),
                        )
                },
            }
        }),
{
    let items = crate::scanner::spec_items(s);
    let p0 = SpecParser {
        toks: items,
        idx: 0,
        current: None,
        previous: None,
        erred: false,
        panicking: false,
        diags: Seq::<SpecDiagnostic>::empty(),
        next_number: 0,
        last_line: 1,
    };
    let ch0 = SpecChunk {
        code: Seq::<u8>::empty(),
        constants: Seq::<Value>::empty(),
        constant_texts: Seq::<Seq<char>>::empty(),
        lines: Seq::<(LineNum, usize)>::empty(),
    };
    lemma_advance_inv(p0);
    let p1 = sp_advance(p0);
    lemma_pp_inv(p1, ch0, nums, PREC_TERM);
    let p2 = sp_parse_precedence(p1, ch0, nums, PREC_TERM).0;
    lemma_finish_inv(p2);
    let p3 = sp_finish(p2);
    assert(p3.idx == items.len());
    if !p3.erred {
        assert(p3.diags.len() == 0);
        assert forall|j: int| 0 <= j < items.len() implies (#[trigger] items[j]) is Ok by {
            if items[j] is Err {
                assert(p3.diags.contains(sp_scan_diag(items[j]->Err_0)));
            }
        }
    }
}

/// Law: compiling the same source text twice under the same number table
/// yields the same outcome - identical instruction streams, constant pools,
/// numeral texts and line tables, or identical diagnostics. `compile`
/// returns exactly `spec_compile` of its inputs, which is a function.
pub proof fn lemma_compile_deterministic(
    s: Seq<char>,
    nums: Seq<Option<Value>>,
    r1: Result<SpecChunk, Seq<SpecDiagnostic>>,
    r2: Result<SpecChunk, Seq<SpecDiagnostic>>,
)
    requires
        r1 == spec_compile(s, nums),
        r2 == spec_compile(s, nums),
    ensures
        r1 == r2,
{
}

} // verus!
