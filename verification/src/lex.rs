use crate::text::{char_from_u32, scalar_u32, string_push};
use vstd::prelude::*;
use vstd::string::StrSliceExecFns;

verus! {

/// A lexer token.
#[derive(Debug, Clone, PartialEq, Eq)]
pub enum Token {
    /// A separator. (,)
    Separator,
    /// Assignment of value to key. (k=>v)
    Assignment,
    /// Set opening. ([)
    OpenSet,
    /// Set closing. (])
    CloseSet,
    /// Integer value, carrying the raw matched text.
    Int(String),
    /// Floating point value, carrying the raw matched text.
    Float(String),
    /// Identifier, carrying the raw matched text.
    Identifier(String),
    /// Single quoted literal, carrying the decoded text.
    SingleQuote(String),
    /// Double quoted literal, carrying the decoded text.
    DoubleQuote(String),
}

/// The state of the lexer automaton.
#[derive(Debug, Clone, PartialEq, Eq, PartialOrd, Ord, Copy)]
pub enum State {
    /// Between lexemes.
    Initial,
    /// Saw `/`, expecting `/` or `*`.
    PrepareComment,
    /// Saw `=`, expecting `>`.
    PrepareAssignment,
    /// Inside a single-quoted literal.
    SingleQuote,
    /// Inside a double-quoted literal.
    DoubleQuote,
    /// Inside a run of digits.
    Integer,
    /// Saw a digit after a decimal marker (kept for callers; the scanner
    /// itself moves straight between `Integer` and `Decimal`).
    IntegerDecimal,
    /// Inside an identifier.
    Identifier,
    /// Saw `<`, expecting `?`.
    PrepareOpenTag,
    /// Saw `?`, expecting `>`.
    PrepareCloseTag,
    /// Inside a line comment.
    LineComment,
    /// Inside a block comment.
    MultiLineComment,
    /// Saw `*` inside a block comment.
    MultiLineCommentPrepareExit,
    /// Inside the decimal part of a number.
    Decimal,
    /// Saw `\` inside a single-quoted literal.
    SingleQuoteEscape,
    /// Saw `\` inside a double-quoted literal.
    DoubleQuoteEscape,
    /// Saw `\c` inside a double-quoted literal.
    DoubleQuoteEscapeControl,
    /// Saw `\x` inside a double-quoted literal.
    DoubleQuoteEscapeHex,
    /// Saw `\` and one octal digit inside a double-quoted literal.
    DoubleQuoteEscapeOctal2,
    /// Saw `\x{` inside a double-quoted literal.
    DoubleQuoteEscapeHexBound,
    /// Saw `\x` and one hex digit inside a double-quoted literal.
    DoubleQuoteEscapeHex2,
    /// Saw `<?`, expecting `p` of `<?php`.
    PHPTag0,
    /// Saw `<?p`, expecting `h`.
    PHPTag1,
    /// Saw `<?ph`, expecting `p`.
    PHPTag2,
    /// Saw `\` and two octal digits inside a double-quoted literal.
    DoubleQuoteEscapeOctal3,
}

impl Default for State {
    /// The state at stream start.
    fn default() -> (r: Self)
        ensures
            r == State::Initial,
    {
        Self::Initial
    }
}

/// A token position.
#[derive(Debug, Clone, PartialEq, Eq, PartialOrd, Ord, Copy)]
pub struct Position {
    /// Absolute position of the token.
    pub index: usize,
    /// Line of the token.
    pub line: usize,
    /// Column on the line.
    pub column: usize,
}

/// A position that a lex pass can still advance: the line and column
/// counters never run ahead of the absolute index.
pub open spec fn pos_wf(p: Position) -> bool {
    p.line <= p.index && p.column <= p.index
}

/// What advancing a position by one character yields.
pub open spec fn spec_advance(p: Position, new_line: bool) -> Position {
    if new_line {
        Position { index: (p.index + 1) as usize, line: (p.line + 1) as usize, column: 0 }
    } else {
        Position { index: (p.index + 1) as usize, line: p.line, column: (p.column + 1) as usize }
    }
}

impl Default for Position {
    /// The position at stream start.
    fn default() -> (r: Self)
        ensures
            r == (Position { index: 0, line: 0, column: 0 }),
    {
        Self::new(0, 0, 0)
    }
}

impl Position {
    /// Creates a new position.
    pub fn new(index: usize, line: usize, column: usize) -> (r: Self)
        ensures
            r == (Position { index, line, column }),
    {
        Self { index, line, column }
    }

    /// Advances the position: the index always moves by one; a newline
    /// starts the next line at column zero, any other character moves the
    /// column by one.
    pub fn advance(&mut self, new_line: bool)
        requires
            old(self).index < usize::MAX,
            pos_wf(*old(self)),
        ensures
            *final(self) == spec_advance(*old(self), new_line),
            pos_wf(*final(self)),
    {
        self.index = self.index + 1;
        if new_line {
            self.line = self.line + 1;
            self.column = 0;
        } else {
            self.column = self.column + 1;
        }
    }
}

/// Kind of lexer error.
#[derive(Debug, Clone, PartialEq, Eq, Copy, PartialOrd, Ord)]
pub enum LexErrorKind {
    /// Premature end-of-file.
    EOF,
    /// Unexpected character.
    Unexpected(char),
    /// Invalid Unicode escape.
    InvalidUnicode(u32),
}

/// Lexer error.
#[derive(Debug, Clone, PartialEq, Eq, Copy, PartialOrd, Ord)]
pub struct LexError {
    /// Position of error.
    pub position: Position,
    /// Automaton state at the error.
    pub state: State,
    /// Kind of error.
    pub kind: LexErrorKind,
}

impl LexError {
    /// Creates a new lexer error.
    pub fn new(position: Position, state: State, kind: LexErrorKind) -> (r: Self)
        ensures
            r == (LexError { position, state, kind }),
    {
        Self { position, state, kind }
    }
}

/// The mathematical model of a token: payloads as character sequences.
pub enum TokenModel {
    /// A separator.
    Separator,
    /// Assignment of value to key.
    Assignment,
    /// Set opening.
    OpenSet,
    /// Set closing.
    CloseSet,
    /// Integer value.
    Int(Seq<char>),
    /// Floating point value.
    Float(Seq<char>),
    /// Identifier.
    Identifier(Seq<char>),
    /// Single quoted literal.
    SingleQuote(Seq<char>),
    /// Double quoted literal.
    DoubleQuote(Seq<char>),
}

/// The model of a token.
pub open spec fn token_model(t: Token) -> TokenModel {
    match t {
        Token::Separator => TokenModel::Separator,
        Token::Assignment => TokenModel::Assignment,
        Token::OpenSet => TokenModel::OpenSet,
        Token::CloseSet => TokenModel::CloseSet,
        Token::Int(s) => TokenModel::Int(s@),
        Token::Float(s) => TokenModel::Float(s@),
        Token::Identifier(s) => TokenModel::Identifier(s@),
        Token::SingleQuote(s) => TokenModel::SingleQuote(s@),
        Token::DoubleQuote(s) => TokenModel::DoubleQuote(s@),
    }
}

/// The model of a positioned token sequence.
pub open spec fn toks_model(s: Seq<(Position, Token)>) -> Seq<(Position, TokenModel)> {
    Seq::new(s.len(), |i: int| (s[i].0, token_model(s[i].1)))
}

/// The full mutable state of one lex pass.
pub struct LexCfg {
    /// The automaton state.
    pub state: State,
    /// The current position.
    pub pos: Position,
    /// The position where the pending lexeme started.
    pub tok: Position,
    /// The text accumulated for the pending lexeme.
    pub buf: Seq<char>,
    /// The code point accumulated for the pending escape.
    pub cp: u32,
}

/// Bundles the five pieces of lexer state.
pub open spec fn mk_cfg(s: State, p: Position, t: Position, b: Seq<char>, cp: u32) -> LexCfg {
    LexCfg { state: s, pos: p, tok: t, buf: b, cp: cp }
}

/// What one dispatch of the automaton yields: the next configuration and
/// the tokens it emitted, or the configuration at the error and the error.
pub enum StepRes {
    /// The character was consumed.
    Good(LexCfg, Seq<(Position, TokenModel)>),
    /// The character is illegal in the current state.
    Bad(LexCfg, LexError),
}

// --- character classes -----------------------------------------------

/// Whitespace skipped between lexemes.
pub open spec fn is_ws(c: char) -> bool {
    c == ' ' || c == '\r' || c == '\n' || c == '\t'
}

/// A decimal digit.
pub open spec fn is_digit(c: char) -> bool {
    48 <= c as u32 && c as u32 <= 57
}

/// A letter or underscore, the characters that may start an identifier.
pub open spec fn is_ident_start(c: char) -> bool {
    (65 <= c as u32 && c as u32 <= 90) || (97 <= c as u32 && c as u32 <= 122) || c == '_'
}

/// A character that may continue an identifier.
pub open spec fn is_ident_char(c: char) -> bool {
    is_ident_start(c) || is_digit(c)
}

/// An octal digit.
pub open spec fn is_octal(c: char) -> bool {
    48 <= c as u32 && c as u32 <= 55
}

/// A hexadecimal digit.
pub open spec fn is_hex(c: char) -> bool {
    is_digit(c) || (97 <= c as u32 && c as u32 <= 102) || (65 <= c as u32 && c as u32 <= 70)
}

/// The numeric value of a decimal or octal digit.
pub open spec fn digit_val(c: char) -> u32 {
    (c as u32 - 48) as u32
}

/// The numeric value of a hexadecimal digit.
pub open spec fn hex_val(c: char) -> u32 {
    if is_digit(c) {
        (c as u32 - 48) as u32
    } else if 97 <= c as u32 && c as u32 <= 102 {
        (c as u32 - 97 + 10) as u32
    } else {
        (c as u32 - 65 + 10) as u32
    }
}

/// A character that closes a pending number or identifier lexeme and is
/// then dispatched again as if seen between lexemes.
pub open spec fn is_closing(c: char) -> bool {
    is_ws(c) || c == ';' || c == ',' || c == '[' || c == ']' || c == '=' || c == '/' || c == '\''
        || c == '"'
}

/// Extends an accumulated code point by one digit in the given base,
/// holding it fixed once it has left the range any escape could mean.
pub open spec fn cp_ext(cp: u32, base: u32, v: u32) -> u32 {
    if cp <= 0xFFFFFF {
        (cp * base + v) as u32
    } else {
        cp
    }
}

/// The uppercase image of an ASCII letter; other characters unchanged.
pub open spec fn ascii_upper(c: char) -> char {
    if 97 <= c as u32 && c as u32 <= 122 {
        (c as u32 - 32) as char
    } else {
        c
    }
}

// --- the transition function -----------------------------------------

/// One emitted token.
pub open spec fn one_tok(p: Position, t: TokenModel) -> Seq<(Position, TokenModel)> {
    seq![(p, t)]
}

/// The error for a character the current state cannot accept.
pub open spec fn unexpected(g: LexCfg, c: char) -> StepRes {
    StepRes::Bad(
        g,
        LexError { position: g.pos, state: g.state, kind: LexErrorKind::Unexpected(c) },
    )
}

/// The `Initial` dispatch: also reached when a closing character ends a
/// number or identifier and is dispatched again.
pub open spec fn step_initial(g: LexCfg, c: char) -> StepRes {
    if is_ws(c) || c == ';' {
        StepRes::Good(LexCfg { state: State::Initial, ..g }, Seq::empty())
    } else if c == '/' {
        StepRes::Good(LexCfg { state: State::PrepareComment, ..g }, Seq::empty())
    } else if c == '[' {
        StepRes::Good(LexCfg { state: State::Initial, ..g }, one_tok(g.pos, TokenModel::OpenSet))
    } else if c == ']' {
        StepRes::Good(LexCfg { state: State::Initial, ..g }, one_tok(g.pos, TokenModel::CloseSet))
    } else if c == '=' {
        StepRes::Good(LexCfg { state: State::PrepareAssignment, ..g }, Seq::empty())
    } else if c == '\'' {
        StepRes::Good(
            LexCfg { state: State::SingleQuote, tok: g.pos, buf: Seq::empty(), ..g },
            Seq::empty(),
        )
    } else if c == '"' {
        StepRes::Good(
            LexCfg { state: State::DoubleQuote, tok: g.pos, buf: Seq::empty(), ..g },
            Seq::empty(),
        )
    } else if is_digit(c) {
        StepRes::Good(LexCfg { state: State::Integer, tok: g.pos, buf: seq![c], ..g }, Seq::empty())
    } else if is_ident_start(c) {
        StepRes::Good(
            LexCfg { state: State::Identifier, tok: g.pos, buf: seq![c], ..g },
            Seq::empty(),
        )
    } else if c == ',' {
        StepRes::Good(LexCfg { state: State::Initial, ..g }, one_tok(g.pos, TokenModel::Separator))
    } else if c == '<' {
        StepRes::Good(LexCfg { state: State::PrepareOpenTag, ..g }, Seq::empty())
    } else if c == '?' {
        StepRes::Good(LexCfg { state: State::PrepareCloseTag, ..g }, Seq::empty())
    } else {
        unexpected(g, c)
    }
}

/// Ends the pending lexeme with token `t` and dispatches the closing
/// character again.
pub open spec fn close_then(g: LexCfg, t: TokenModel, c: char) -> StepRes {
    match step_initial(g, c) {
        StepRes::Good(g2, out) => StepRes::Good(g2, one_tok(g.tok, t) + out),
        StepRes::Bad(g2, e) => StepRes::Bad(g2, e),
    }
}

/// The `Integer` dispatch.
pub open spec fn step_integer(g: LexCfg, c: char) -> StepRes {
    if is_digit(c) {
        StepRes::Good(LexCfg { buf: g.buf.push(c), ..g }, Seq::empty())
    } else if c == '.' || c == 'e' || c == 'E' {
        StepRes::Good(LexCfg { state: State::Decimal, buf: g.buf.push(c), ..g }, Seq::empty())
    } else if is_closing(c) {
        close_then(g, TokenModel::Int(g.buf), c)
    } else {
        unexpected(g, c)
    }
}

/// The `Decimal` dispatch.
pub open spec fn step_decimal(g: LexCfg, c: char) -> StepRes {
    if is_digit(c) || c == '.' || c == 'e' || c == 'E' || c == '+' || c == '-' {
        StepRes::Good(LexCfg { buf: g.buf.push(c), ..g }, Seq::empty())
    } else if is_closing(c) {
        close_then(g, TokenModel::Float(g.buf), c)
    } else {
        unexpected(g, c)
    }
}

/// The `IntegerDecimal` dispatch.
pub open spec fn step_integer_decimal(g: LexCfg, c: char) -> StepRes {
    if is_digit(c) {
        StepRes::Good(LexCfg { state: State::Integer, buf: g.buf.push(c), ..g }, Seq::empty())
    } else if c == '.' {
        StepRes::Good(LexCfg { state: State::Decimal, buf: g.buf.push('.'), ..g }, Seq::empty())
    } else {
        unexpected(g, c)
    }
}

/// The `Identifier` dispatch.
pub open spec fn step_identifier(g: LexCfg, c: char) -> StepRes {
    if is_ident_char(c) {
        StepRes::Good(LexCfg { buf: g.buf.push(c), ..g }, Seq::empty())
    } else if is_closing(c) {
        close_then(g, TokenModel::Identifier(g.buf), c)
    } else {
        unexpected(g, c)
    }
}

/// The `SingleQuote` dispatch.
pub open spec fn step_single_quote(g: LexCfg, c: char) -> StepRes {
    if c == '\'' {
        StepRes::Good(
            LexCfg { state: State::Initial, ..g },
            one_tok(g.tok, TokenModel::SingleQuote(g.buf)),
        )
    } else if c == '\\' {
        StepRes::Good(LexCfg { state: State::SingleQuoteEscape, ..g }, Seq::empty())
    } else {
        StepRes::Good(LexCfg { buf: g.buf.push(c), ..g }, Seq::empty())
    }
}

/// The `SingleQuoteEscape` dispatch: only `\\` and `\'` are escapes, any
/// other character keeps its backslash.
pub open spec fn step_single_quote_escape(g: LexCfg, c: char) -> StepRes {
    if c == '\\' || c == '\'' {
        StepRes::Good(LexCfg { state: State::SingleQuote, buf: g.buf.push(c), ..g }, Seq::empty())
    } else {
        StepRes::Good(
            LexCfg { state: State::SingleQuote, buf: g.buf.push('\\').push(c), ..g },
            Seq::empty(),
        )
    }
}

/// The `DoubleQuote` dispatch.
pub open spec fn step_double_quote(g: LexCfg, c: char) -> StepRes {
    if c == '"' {
        StepRes::Good(
            LexCfg { state: State::Initial, ..g },
            one_tok(g.tok, TokenModel::DoubleQuote(g.buf)),
        )
    } else if c == '\\' {
        StepRes::Good(LexCfg { state: State::DoubleQuoteEscape, ..g }, Seq::empty())
    } else {
        StepRes::Good(LexCfg { buf: g.buf.push(c), ..g }, Seq::empty())
    }
}

/// The `DoubleQuoteEscape` dispatch.
pub open spec fn step_double_quote_escape(g: LexCfg, c: char) -> StepRes {
    if c == 'a' {
        StepRes::Good(
            LexCfg { state: State::DoubleQuote, buf: g.buf.push('\u{0007}'), ..g },
            Seq::empty(),
        )
    } else if c == 'c' {
        StepRes::Good(LexCfg { state: State::DoubleQuoteEscapeControl, ..g }, Seq::empty())
    } else if c == 'e' {
        StepRes::Good(
            LexCfg { state: State::DoubleQuote, buf: g.buf.push('\u{001b}'), ..g },
            Seq::empty(),
        )
    } else if c == 'f' {
        StepRes::Good(
            LexCfg { state: State::DoubleQuote, buf: g.buf.push('\u{000c}'), ..g },
            Seq::empty(),
        )
    } else if c == 'n' {
        StepRes::Good(LexCfg { state: State::DoubleQuote, buf: g.buf.push('\n'), ..g }, Seq::empty())
    } else if c == 'r' {
        StepRes::Good(LexCfg { state: State::DoubleQuote, buf: g.buf.push('\r'), ..g }, Seq::empty())
    } else if c == 't' {
        StepRes::Good(LexCfg { state: State::DoubleQuote, buf: g.buf.push('\t'), ..g }, Seq::empty())
    } else if c == '$' {
        StepRes::Good(LexCfg { state: State::DoubleQuote, buf: g.buf.push('$'), ..g }, Seq::empty())
    } else if c == '"' {
        StepRes::Good(LexCfg { state: State::DoubleQuote, buf: g.buf.push('"'), ..g }, Seq::empty())
    } else if c == '\\' {
        StepRes::Good(LexCfg { state: State::DoubleQuote, buf: g.buf.push('\\'), ..g }, Seq::empty())
    } else if c == 'x' {
        StepRes::Good(LexCfg { state: State::DoubleQuoteEscapeHex, cp: 0, ..g }, Seq::empty())
    } else if is_digit(c) {
        StepRes::Good(
            LexCfg { state: State::DoubleQuoteEscapeOctal2, cp: digit_val(c), ..g },
            Seq::empty(),
        )
    } else {
        unexpected(g, c)
    }
}

/// The `DoubleQuoteEscapeControl` dispatch: uppercase the character and
/// flip bit 0x60 to reach the control code.
pub open spec fn step_double_quote_escape_control(g: LexCfg, c: char) -> StepRes {
    let x = (ascii_upper(c) as u32) ^ 0x60;
    if scalar_u32(x) {
        StepRes::Good(
            LexCfg { state: State::DoubleQuote, buf: g.buf.push(x as char), ..g },
            Seq::empty(),
        )
    } else {
        StepRes::Bad(
            g,
            LexError { position: g.pos, state: g.state, kind: LexErrorKind::InvalidUnicode(x) },
        )
    }
}

/// Ends a hex or octal escape: the accumulated code point joins the
/// literal text and the terminating character is dispatched again as if
/// seen inside the double-quoted literal.
pub open spec fn resume_double_quote(g: LexCfg, c: char) -> StepRes {
    if scalar_u32(g.cp) {
        step_double_quote(
            LexCfg { state: State::DoubleQuote, buf: g.buf.push(g.cp as char), ..g },
            c,
        )
    } else {
        StepRes::Bad(
            g,
            LexError { position: g.pos, state: g.state, kind: LexErrorKind::InvalidUnicode(g.cp) },
        )
    }
}

/// The `DoubleQuoteEscapeHex` dispatch.
pub open spec fn step_double_quote_escape_hex(g: LexCfg, c: char) -> StepRes {
    if c == '{' {
        StepRes::Good(LexCfg { state: State::DoubleQuoteEscapeHexBound, ..g }, Seq::empty())
    } else if is_hex(c) {
        StepRes::Good(
            LexCfg { state: State::DoubleQuoteEscapeHex2, cp: hex_val(c), ..g },
            Seq::empty(),
        )
    } else {
        unexpected(g, c)
    }
}

/// The `DoubleQuoteEscapeHex2` dispatch: a second hex digit completes the
/// two-digit escape; anything else ends it after one digit.
pub open spec fn step_double_quote_escape_hex2(g: LexCfg, c: char) -> StepRes {
    if is_hex(c) {
        let x = cp_ext(g.cp, 16, hex_val(c));
        if scalar_u32(x) {
            StepRes::Good(
                LexCfg { state: State::DoubleQuote, buf: g.buf.push(x as char), cp: x, ..g },
                Seq::empty(),
            )
        } else {
            StepRes::Bad(
                g,
                LexError { position: g.pos, state: g.state, kind: LexErrorKind::InvalidUnicode(x) },
            )
        }
    } else {
        resume_double_quote(g, c)
    }
}

/// The `DoubleQuoteEscapeHexBound` dispatch: hex digits accumulate until
/// the closing brace converts the code point.
pub open spec fn step_double_quote_escape_hex_bound(g: LexCfg, c: char) -> StepRes {
    if is_hex(c) {
        StepRes::Good(LexCfg { cp: cp_ext(g.cp, 16, hex_val(c)), ..g }, Seq::empty())
    } else if c == '}' {
        if scalar_u32(g.cp) {
            StepRes::Good(
                LexCfg { state: State::DoubleQuote, buf: g.buf.push(g.cp as char), ..g },
                Seq::empty(),
            )
        } else {
            StepRes::Bad(
                g,
                LexError {
                    position: g.pos,
                    state: g.state,
                    kind: LexErrorKind::InvalidUnicode(g.cp),
                },
            )
        }
    } else {
        unexpected(g, c)
    }
}

/// The `DoubleQuoteEscapeOctal2` dispatch: after one octal digit.
pub open spec fn step_double_quote_escape_octal2(g: LexCfg, c: char) -> StepRes {
    if is_octal(c) {
        StepRes::Good(
            LexCfg { state: State::DoubleQuoteEscapeOctal3, cp: cp_ext(g.cp, 8, digit_val(c)), ..g },
            Seq::empty(),
        )
    } else {
        resume_double_quote(g, c)
    }
}

/// The `DoubleQuoteEscapeOctal3` dispatch: after two octal digits; a third
/// completes the escape.
pub open spec fn step_double_quote_escape_octal3(g: LexCfg, c: char) -> StepRes {
    if is_octal(c) {
        let x = cp_ext(g.cp, 8, digit_val(c));
        if scalar_u32(x) {
            StepRes::Good(
                LexCfg { state: State::DoubleQuote, buf: g.buf.push(x as char), cp: x, ..g },
                Seq::empty(),
            )
        } else {
            StepRes::Bad(
                g,
                LexError { position: g.pos, state: g.state, kind: LexErrorKind::InvalidUnicode(x) },
            )
        }
    } else {
        resume_double_quote(g, c)
    }
}

/// The dispatch of the comment and tag states, which carry no payload.
pub open spec fn step_simple(g: LexCfg, c: char) -> StepRes {
    match g.state {
        State::PrepareComment => if c == '/' {
            StepRes::Good(LexCfg { state: State::LineComment, ..g }, Seq::empty())
        } else if c == '*' {
            StepRes::Good(LexCfg { state: State::MultiLineComment, ..g }, Seq::empty())
        } else {
            unexpected(g, c)
        },
        State::PrepareAssignment => if c == '>' {
            StepRes::Good(
                LexCfg { state: State::Initial, ..g },
                one_tok(g.pos, TokenModel::Assignment),
            )
        } else {
            unexpected(g, c)
        },
        State::PrepareOpenTag => if c == '?' {
            StepRes::Good(LexCfg { state: State::PHPTag0, ..g }, Seq::empty())
        } else {
            unexpected(g, c)
        },
        State::PrepareCloseTag => if c == '>' {
            StepRes::Good(LexCfg { state: State::Initial, ..g }, Seq::empty())
        } else {
            unexpected(g, c)
        },
        State::PHPTag0 => if c == 'p' {
            StepRes::Good(LexCfg { state: State::PHPTag1, ..g }, Seq::empty())
        } else {
            unexpected(g, c)
        },
        State::PHPTag1 => if c == 'h' {
            StepRes::Good(LexCfg { state: State::PHPTag2, ..g }, Seq::empty())
        } else {
            unexpected(g, c)
        },
        State::PHPTag2 => if c == 'p' {
            StepRes::Good(LexCfg { state: State::Initial, ..g }, Seq::empty())
        } else {
            unexpected(g, c)
        },
        State::LineComment => if c == '\n' {
            StepRes::Good(LexCfg { state: State::Initial, ..g }, Seq::empty())
        } else {
            StepRes::Good(g, Seq::empty())
        },
        State::MultiLineComment => if c == '*' {
            StepRes::Good(LexCfg { state: State::MultiLineCommentPrepareExit, ..g }, Seq::empty())
        } else {
            StepRes::Good(g, Seq::empty())
        },
        State::MultiLineCommentPrepareExit => if c == '*' {
            StepRes::Good(g, Seq::empty())
        } else if c == '/' {
            StepRes::Good(LexCfg { state: State::Initial, ..g }, Seq::empty())
        } else {
            StepRes::Good(LexCfg { state: State::MultiLineComment, ..g }, Seq::empty())
        },
        _ => unexpected(g, c),
    }
}

/// One dispatch of the automaton: the position advances, then the current
/// state consumes the character.
pub open spec fn lex_step(g0: LexCfg, c: char) -> StepRes {
    let g = LexCfg { pos: spec_advance(g0.pos, c == '\n'), ..g0 };
    match g.state {
        State::Initial => step_initial(g, c),
        State::Integer => step_integer(g, c),
        State::IntegerDecimal => step_integer_decimal(g, c),
        State::Decimal => step_decimal(g, c),
        State::Identifier => step_identifier(g, c),
        State::SingleQuote => step_single_quote(g, c),
        State::SingleQuoteEscape => step_single_quote_escape(g, c),
        State::DoubleQuote => step_double_quote(g, c),
        State::DoubleQuoteEscape => step_double_quote_escape(g, c),
        State::DoubleQuoteEscapeControl => step_double_quote_escape_control(g, c),
        State::DoubleQuoteEscapeHex => step_double_quote_escape_hex(g, c),
        State::DoubleQuoteEscapeHex2 => step_double_quote_escape_hex2(g, c),
        State::DoubleQuoteEscapeHexBound => step_double_quote_escape_hex_bound(g, c),
        State::DoubleQuoteEscapeOctal2 => step_double_quote_escape_octal2(g, c),
        State::DoubleQuoteEscapeOctal3 => step_double_quote_escape_octal3(g, c),
        _ => step_simple(g, c),
    }
}

/// The result of a whole lex pass: the final configuration, the tokens
/// emitted, and the error that stopped it, if one did.
pub struct RunModel {
    /// The configuration when the pass stopped.
    pub cfg: LexCfg,
    /// The tokens emitted before it stopped.
    pub toks: Seq<(Position, TokenModel)>,
    /// The error that stopped it, if any.
    pub err: Option<LexError>,
}

/// Folds the automaton over a character sequence, stopping at the first
/// error.
pub open spec fn lex_run(g: LexCfg, s: Seq<char>) -> RunModel
    decreases s.len(),
{
    if s.len() == 0 {
        RunModel { cfg: g, toks: Seq::empty(), err: Option::None }
    } else {
        match lex_step(g, s[0]) {
            StepRes::Good(g2, t) => {
                let r = lex_run(g2, s.drop_first());
                RunModel { cfg: r.cfg, toks: t + r.toks, err: r.err }
            },
            StepRes::Bad(g2, e) => RunModel { cfg: g2, toks: Seq::empty(), err: Option::Some(e) },
        }
    }
}

/// What end-of-input yields: a pending number or identifier is emitted, a
/// quiescent state is a no-op, and any other state is an unterminated
/// construct.
pub open spec fn eof_model(g: LexCfg) -> Result<Seq<(Position, TokenModel)>, LexError> {
    match g.state {
        State::Initial | State::LineComment | State::MultiLineComment
            | State::MultiLineCommentPrepareExit => Result::Ok(Seq::empty()),
        State::Integer => Result::Ok(one_tok(g.tok, TokenModel::Int(g.buf))),
        State::Decimal => Result::Ok(one_tok(g.tok, TokenModel::Float(g.buf))),
        State::Identifier => Result::Ok(one_tok(g.tok, TokenModel::Identifier(g.buf))),
        _ => Result::Err(LexError { position: g.pos, state: g.state, kind: LexErrorKind::EOF }),
    }
}

/// Composing two lex passes: running over a concatenation is running over
/// the first part, then, if no error stopped it, over the second.
pub proof fn lemma_lex_run_app(g: LexCfg, a: Seq<char>, b: Seq<char>)
    ensures
        ({
            let ra = lex_run(g, a);
            if ra.err is None {
                let rb = lex_run(ra.cfg, b);
                lex_run(g, a + b) == (RunModel { cfg: rb.cfg, toks: ra.toks + rb.toks, err: rb.err })
            } else {
                lex_run(g, a + b) == (RunModel { cfg: ra.cfg, toks: ra.toks, err: ra.err })
            }
        }),
    decreases a.len(),
{
    let ra = lex_run(g, a);
    if a.len() == 0 {
        assert(a + b =~= b);
        assert(ra.toks + lex_run(g, b).toks =~= lex_run(g, b).toks);
        assert(ra == (RunModel {
            cfg: g,
            toks: Seq::<(Position, TokenModel)>::empty(),
            err: Option::<LexError>::None,
        }));
        if lex_run(g, b).err is None {
            assert(lex_run(g, a + b) == (RunModel {
                cfg: lex_run(ra.cfg, b).cfg,
                toks: ra.toks + lex_run(ra.cfg, b).toks,
                err: lex_run(ra.cfg, b).err,
            }));
        }
    } else {
        assert((a + b)[0] == a[0]);
        assert((a + b).drop_first() =~= a.drop_first() + b);
        match lex_step(g, a[0]) {
            StepRes::Good(g2, t) => {
                lemma_lex_run_app(g2, a.drop_first(), b);
                let ra2 = lex_run(g2, a.drop_first());
                if ra2.err is None {
                    let rb = lex_run(ra2.cfg, b);
                    assert(t + (ra2.toks + rb.toks) =~= (t + ra2.toks) + rb.toks);
                } else {
                }
            },
            StepRes::Bad(g2, e) => {
            },
        }
    }
}

// --- executable character classes --------------------------------------

/// Whether the character is whitespace.
fn ch_is_ws(c: char) -> (b: bool)
    ensures
        b == is_ws(c),
{
    c == ' ' || c == '\r' || c == '\n' || c == '\t'
}

/// Whether the character is a decimal digit.
fn ch_is_digit(c: char) -> (b: bool)
    ensures
        b == is_digit(c),
{
    let u = c as u32;
    48 <= u && u <= 57
}

/// Whether the character may start an identifier.
fn ch_is_ident_start(c: char) -> (b: bool)
    ensures
        b == is_ident_start(c),
{
    let u = c as u32;
    (65 <= u && u <= 90) || (97 <= u && u <= 122) || c == '_'
}

/// Whether the character may continue an identifier.
fn ch_is_ident_char(c: char) -> (b: bool)
    ensures
        b == is_ident_char(c),
{
    ch_is_ident_start(c) || ch_is_digit(c)
}

/// Whether the character is an octal digit.
fn ch_is_octal(c: char) -> (b: bool)
    ensures
        b == is_octal(c),
{
    let u = c as u32;
    48 <= u && u <= 55
}

/// Whether the character is a hexadecimal digit.
fn ch_is_hex(c: char) -> (b: bool)
    ensures
        b == is_hex(c),
{
    let u = c as u32;
    (48 <= u && u <= 57) || (97 <= u && u <= 102) || (65 <= u && u <= 70)
}

/// The value of a decimal or octal digit.
fn ch_digit_val(c: char) -> (v: u32)
    requires
        is_digit(c),
    ensures
        v == digit_val(c),
{
    c as u32 - 48
}

/// The value of a hexadecimal digit.
fn ch_hex_val(c: char) -> (v: u32)
    requires
        is_hex(c),
    ensures
        v == hex_val(c),
{
    let u = c as u32;
    if 48 <= u && u <= 57 {
        u - 48
    } else if 97 <= u && u <= 102 {
        u - 97 + 10
    } else {
        u - 65 + 10
    }
}

/// Whether the character closes a number or identifier lexeme.
fn ch_is_closing(c: char) -> (b: bool)
    ensures
        b == is_closing(c),
{
    ch_is_ws(c) || c == ';' || c == ',' || c == '[' || c == ']' || c == '=' || c == '/'
        || c == '\'' || c == '"'
}

/// Extends an accumulated code point by one digit in the given base.
fn ch_cp_ext(cp: u32, base: u32, v: u32) -> (r: u32)
    requires
        base == 8 || base == 16,
        v < base,
    ensures
        r == cp_ext(cp, base, v),
{
    if cp <= 0xFFFFFF {
        cp * base + v
    } else {
        cp
    }
}

/// The uppercase image of an ASCII letter.
fn ch_ascii_upper(c: char) -> (r: char)
    ensures
        r == ascii_upper(c),
{
    let u = c as u32;
    if 97 <= u && u <= 122 {
        match char_from_u32(u - 32) {
            Option::Some(x) => x,
            Option::None => c,
        }
    } else {
        c
    }
}

// --- executable transitions --------------------------------------------

/// Handles one character as the `Initial` state does; the position has
/// already advanced.
fn initial_char(
    state: &mut State,
    position: &Position,
    token_position: &mut Position,
    buffer: &mut String,
    codepoint: &u32,
    c: char,
    dest: &mut Vec<(Position, Token)>,
) -> (r: Option<LexError>)
    ensures
        ({
            let g = mk_cfg(*old(state), *position, *old(token_position), old(buffer)@, *codepoint);
            match step_initial(g, c) {
                StepRes::Good(g2, t) => {
                    &&& r is None
                    &&& mk_cfg(*final(state), *position, *final(token_position), final(buffer)@, *codepoint) == g2
                    &&& toks_model(final(dest)@) == toks_model(old(dest)@) + t
                },
                StepRes::Bad(g2, e) => {
                    &&& r == Option::Some(e)
                    &&& mk_cfg(*final(state), *position, *final(token_position), final(buffer)@, *codepoint) == g2
                    &&& final(dest)@ == old(dest)@
                },
            }
        }),
{
    let ghost g = mk_cfg(*old(state), *position, *old(token_position), old(buffer)@, *codepoint);
    if ch_is_ws(c) || c == ';' {
        *state = State::Initial;
        proof {
            assert(toks_model(dest@) =~= toks_model(old(dest)@) + Seq::<(Position, TokenModel)>::empty());
        }
        Option::None
    } else if c == '/' {
        *state = State::PrepareComment;
        proof {
            assert(toks_model(dest@) =~= toks_model(old(dest)@) + Seq::<(Position, TokenModel)>::empty());
        }
        Option::None
    } else if c == '[' {
        *state = State::Initial;
        dest.push((*position, Token::OpenSet));
        proof {
            assert(toks_model(dest@) =~= toks_model(old(dest)@) + one_tok(g.pos, TokenModel::OpenSet));
        }
        Option::None
    } else if c == ']' {
        *state = State::Initial;
        dest.push((*position, Token::CloseSet));
        proof {
            assert(toks_model(dest@) =~= toks_model(old(dest)@) + one_tok(g.pos, TokenModel::CloseSet));
        }
        Option::None
    } else if c == '=' {
        *state = State::PrepareAssignment;
        proof {
            assert(toks_model(dest@) =~= toks_model(old(dest)@) + Seq::<(Position, TokenModel)>::empty());
        }
        Option::None
    } else if c == '\'' {
        *state = State::SingleQuote;
        *token_position = *position;
        *buffer = String::new();
        proof {
            assert(toks_model(dest@) =~= toks_model(old(dest)@) + Seq::<(Position, TokenModel)>::empty());
        }
        Option::None
    } else if c == '"' {
        *state = State::DoubleQuote;
        *token_position = *position;
        *buffer = String::new();
        proof {
            assert(toks_model(dest@) =~= toks_model(old(dest)@) + Seq::<(Position, TokenModel)>::empty());
        }
        Option::None
    } else if ch_is_digit(c) {
        *state = State::Integer;
        *token_position = *position;
        *buffer = String::new();
        string_push(buffer, c);
        proof {
            assert(final(buffer)@ =~= seq![c]);
            assert(toks_model(dest@) =~= toks_model(old(dest)@) + Seq::<(Position, TokenModel)>::empty());
        }
        Option::None
    } else if ch_is_ident_start(c) {
        *state = State::Identifier;
        *token_position = *position;
        *buffer = String::new();
        string_push(buffer, c);
        proof {
            assert(final(buffer)@ =~= seq![c]);
            assert(toks_model(dest@) =~= toks_model(old(dest)@) + Seq::<(Position, TokenModel)>::empty());
        }
        Option::None
    } else if c == ',' {
        *state = State::Initial;
        dest.push((*position, Token::Separator));
        proof {
            assert(toks_model(dest@) =~= toks_model(old(dest)@) + one_tok(g.pos, TokenModel::Separator));
        }
        Option::None
    } else if c == '<' {
        *state = State::PrepareOpenTag;
        proof {
            assert(toks_model(dest@) =~= toks_model(old(dest)@) + Seq::<(Position, TokenModel)>::empty());
        }
        Option::None
    } else if c == '?' {
        *state = State::PrepareCloseTag;
        proof {
            assert(toks_model(dest@) =~= toks_model(old(dest)@) + Seq::<(Position, TokenModel)>::empty());
        }
        Option::None
    } else {
        Option::Some(LexError::new(*position, *state, LexErrorKind::Unexpected(c)))
    }
}


/// Handles one character inside a pending number, after the `Integer`
/// state's own cases have been tried: a closing character emits the token
/// and is dispatched again.
fn integer_char(
    state: &mut State,
    position: &Position,
    token_position: &mut Position,
    buffer: &mut String,
    codepoint: &u32,
    c: char,
    dest: &mut Vec<(Position, Token)>,
) -> (r: Option<LexError>)
    requires
        *old(state) == State::Integer,
    ensures
        ({
            let g = mk_cfg(*old(state), *position, *old(token_position), old(buffer)@, *codepoint);
            match step_integer(g, c) {
                StepRes::Good(g2, t) => {
                    &&& r is None
                    &&& mk_cfg(*final(state), *position, *final(token_position), final(buffer)@, *codepoint) == g2
                    &&& toks_model(final(dest)@) == toks_model(old(dest)@) + t
                },
                StepRes::Bad(g2, e) => {
                    &&& r == Option::Some(e)
                    &&& mk_cfg(*final(state), *position, *final(token_position), final(buffer)@, *codepoint) == g2
                    &&& final(dest)@ == old(dest)@
                },
            }
        }),
{
    let ghost g = mk_cfg(*old(state), *position, *old(token_position), old(buffer)@, *codepoint);
    if ch_is_digit(c) {
        string_push(buffer, c);
        proof {
            assert(toks_model(dest@) =~= toks_model(old(dest)@) + Seq::<(Position, TokenModel)>::empty());
        }
        Option::None
    } else if c == '.' || c == 'e' || c == 'E' {
        *state = State::Decimal;
        string_push(buffer, c);
        proof {
            assert(toks_model(dest@) =~= toks_model(old(dest)@) + Seq::<(Position, TokenModel)>::empty());
        }
        Option::None
    } else if ch_is_closing(c) {
        dest.push((*token_position, Token::Int(buffer.clone())));
        proof {
            assert(toks_model(dest@) =~= toks_model(old(dest)@) + one_tok(g.tok, TokenModel::Int(g.buf)));
        }
        let ghost mid = dest@;
        let r = initial_char(state, position, token_position, buffer, codepoint, c, dest);
        proof {
            match step_initial(g, c) {
                StepRes::Good(g2, t) => {
                    assert(toks_model(old(dest)@) + (one_tok(g.tok, TokenModel::Int(g.buf)) + t)
                        =~= (toks_model(old(dest)@) + one_tok(g.tok, TokenModel::Int(g.buf))) + t);
                },
                StepRes::Bad(g2, e) => {},
            }
        }
        r
    } else {
        Option::Some(LexError::new(*position, *state, LexErrorKind::Unexpected(c)))
    }
}

/// Handles one character inside the decimal part of a number.
fn decimal_char(
    state: &mut State,
    position: &Position,
    token_position: &mut Position,
    buffer: &mut String,
    codepoint: &u32,
    c: char,
    dest: &mut Vec<(Position, Token)>,
) -> (r: Option<LexError>)
    requires
        *old(state) == State::Decimal,
    ensures
        ({
            let g = mk_cfg(*old(state), *position, *old(token_position), old(buffer)@, *codepoint);
            match step_decimal(g, c) {
                StepRes::Good(g2, t) => {
                    &&& r is None
                    &&& mk_cfg(*final(state), *position, *final(token_position), final(buffer)@, *codepoint) == g2
                    &&& toks_model(final(dest)@) == toks_model(old(dest)@) + t
                },
                StepRes::Bad(g2, e) => {
                    &&& r == Option::Some(e)
                    &&& mk_cfg(*final(state), *position, *final(token_position), final(buffer)@, *codepoint) == g2
                    &&& final(dest)@ == old(dest)@
                },
            }
        }),
{
    let ghost g = mk_cfg(*old(state), *position, *old(token_position), old(buffer)@, *codepoint);
    if ch_is_digit(c) || c == '.' || c == 'e' || c == 'E' || c == '+' || c == '-' {
        string_push(buffer, c);
        proof {
            assert(toks_model(dest@) =~= toks_model(old(dest)@) + Seq::<(Position, TokenModel)>::empty());
        }
        Option::None
    } else if ch_is_closing(c) {
        dest.push((*token_position, Token::Float(buffer.clone())));
        proof {
            assert(toks_model(dest@) =~= toks_model(old(dest)@) + one_tok(g.tok, TokenModel::Float(g.buf)));
        }
        let r = initial_char(state, position, token_position, buffer, codepoint, c, dest);
        proof {
            match step_initial(g, c) {
                StepRes::Good(g2, t) => {
                    assert(toks_model(old(dest)@) + (one_tok(g.tok, TokenModel::Float(g.buf)) + t)
                        =~= (toks_model(old(dest)@) + one_tok(g.tok, TokenModel::Float(g.buf))) + t);
                },
                StepRes::Bad(g2, e) => {},
            }
        }
        r
    } else {
        Option::Some(LexError::new(*position, *state, LexErrorKind::Unexpected(c)))
    }
}

/// Handles one character after a digit that followed a decimal marker.
fn integer_decimal_char(
    state: &mut State,
    position: &Position,
    buffer: &mut String,
    c: char,
) -> (r: Option<LexError>)
    requires
        *old(state) == State::IntegerDecimal,
    ensures
        ({
            let g = mk_cfg(*old(state), *position, Position { index: 0, line: 0, column: 0 }, old(buffer)@, 0);
            match step_integer_decimal(g, c) {
                StepRes::Good(g2, t) => {
                    &&& r is None
                    &&& *final(state) == g2.state
                    &&& final(buffer)@ == g2.buf
                    &&& t == Seq::<(Position, TokenModel)>::empty()
                },
                StepRes::Bad(g2, e) => {
                    &&& r == Option::Some(e)
                    &&& *final(state) == *old(state)
                    &&& final(buffer)@ == old(buffer)@
                },
            }
        }),
{
    if ch_is_digit(c) {
        *state = State::Integer;
        string_push(buffer, c);
        Option::None
    } else if c == '.' {
        *state = State::Decimal;
        string_push(buffer, '.');
        Option::None
    } else {
        Option::Some(LexError::new(*position, *state, LexErrorKind::Unexpected(c)))
    }
}

/// Handles one character inside a pending identifier.
fn identifier_char(
    state: &mut State,
    position: &Position,
    token_position: &mut Position,
    buffer: &mut String,
    codepoint: &u32,
    c: char,
    dest: &mut Vec<(Position, Token)>,
) -> (r: Option<LexError>)
    requires
        *old(state) == State::Identifier,
    ensures
        ({
            let g = mk_cfg(*old(state), *position, *old(token_position), old(buffer)@, *codepoint);
            match step_identifier(g, c) {
                StepRes::Good(g2, t) => {
                    &&& r is None
                    &&& mk_cfg(*final(state), *position, *final(token_position), final(buffer)@, *codepoint) == g2
                    &&& toks_model(final(dest)@) == toks_model(old(dest)@) + t
                },
                StepRes::Bad(g2, e) => {
                    &&& r == Option::Some(e)
                    &&& mk_cfg(*final(state), *position, *final(token_position), final(buffer)@, *codepoint) == g2
                    &&& final(dest)@ == old(dest)@
                },
            }
        }),
{
    let ghost g = mk_cfg(*old(state), *position, *old(token_position), old(buffer)@, *codepoint);
    if ch_is_ident_char(c) {
        string_push(buffer, c);
        proof {
            assert(toks_model(dest@) =~= toks_model(old(dest)@) + Seq::<(Position, TokenModel)>::empty());
        }
        Option::None
    } else if ch_is_closing(c) {
        dest.push((*token_position, Token::Identifier(buffer.clone())));
        proof {
            assert(toks_model(dest@) =~= toks_model(old(dest)@) + one_tok(g.tok, TokenModel::Identifier(g.buf)));
        }
        let r = initial_char(state, position, token_position, buffer, codepoint, c, dest);
        proof {
            match step_initial(g, c) {
                StepRes::Good(g2, t) => {
                    assert(toks_model(old(dest)@) + (one_tok(g.tok, TokenModel::Identifier(g.buf)) + t)
                        =~= (toks_model(old(dest)@) + one_tok(g.tok, TokenModel::Identifier(g.buf))) + t);
                },
                StepRes::Bad(g2, e) => {},
            }
        }
        r
    } else {
        Option::Some(LexError::new(*position, *state, LexErrorKind::Unexpected(c)))
    }
}

/// Handles one character inside a single-quoted literal.
fn single_quote_char(
    state: &mut State,
    position: &Position,
    token_position: &Position,
    buffer: &mut String,
    c: char,
    dest: &mut Vec<(Position, Token)>,
) -> (r: Option<LexError>)
    requires
        *old(state) == State::SingleQuote,
    ensures
        ({
            let g = mk_cfg(*old(state), *position, *token_position, old(buffer)@, 0);
            match step_single_quote(g, c) {
                StepRes::Good(g2, t) => {
                    &&& r is None
                    &&& *final(state) == g2.state
                    &&& final(buffer)@ == g2.buf
                    &&& toks_model(final(dest)@) == toks_model(old(dest)@) + t
                },
                StepRes::Bad(g2, e) => false,
            }
        }),
{
    let ghost g = mk_cfg(*old(state), *position, *token_position, old(buffer)@, 0);
    if c == '\'' {
        dest.push((*token_position, Token::SingleQuote(buffer.clone())));
        *state = State::Initial;
        proof {
            assert(toks_model(dest@) =~= toks_model(old(dest)@) + one_tok(g.tok, TokenModel::SingleQuote(g.buf)));
        }
        Option::None
    } else if c == '\\' {
        *state = State::SingleQuoteEscape;
        proof {
            assert(toks_model(dest@) =~= toks_model(old(dest)@) + Seq::<(Position, TokenModel)>::empty());
        }
        Option::None
    } else {
        string_push(buffer, c);
        proof {
            assert(toks_model(dest@) =~= toks_model(old(dest)@) + Seq::<(Position, TokenModel)>::empty());
        }
        Option::None
    }
}

/// Handles the character after a backslash in a single-quoted literal.
fn single_quote_escape_char(
    state: &mut State,
    buffer: &mut String,
    c: char,
) -> (r: Option<LexError>)
    requires
        *old(state) == State::SingleQuoteEscape,
    ensures
        ({
            let g = mk_cfg(*old(state), Position { index: 0, line: 0, column: 0 }, Position { index: 0, line: 0, column: 0 }, old(buffer)@, 0);
            match step_single_quote_escape(g, c) {
                StepRes::Good(g2, t) => {
                    &&& r is None
                    &&& *final(state) == g2.state
                    &&& final(buffer)@ == g2.buf
                    &&& t == Seq::<(Position, TokenModel)>::empty()
                },
                StepRes::Bad(g2, e) => false,
            }
        }),
{
    if c == '\\' || c == '\'' {
        string_push(buffer, c);
    } else {
        string_push(buffer, '\\');
        string_push(buffer, c);
    }
    *state = State::SingleQuote;
    Option::None
}

/// Handles one character inside a double-quoted literal.
fn double_quote_char(
    state: &mut State,
    position: &Position,
    token_position: &Position,
    buffer: &mut String,
    c: char,
    dest: &mut Vec<(Position, Token)>,
) -> (r: Option<LexError>)
    requires
        *old(state) == State::DoubleQuote,
    ensures
        ({
            let g = mk_cfg(*old(state), *position, *token_position, old(buffer)@, 0);
            match step_double_quote(g, c) {
                StepRes::Good(g2, t) => {
                    &&& r is None
                    &&& *final(state) == g2.state
                    &&& final(buffer)@ == g2.buf
                    &&& toks_model(final(dest)@) == toks_model(old(dest)@) + t
                },
                StepRes::Bad(g2, e) => false,
            }
        }),
{
    let ghost g = mk_cfg(*old(state), *position, *token_position, old(buffer)@, 0);
    if c == '"' {
        dest.push((*token_position, Token::DoubleQuote(buffer.clone())));
        *state = State::Initial;
        proof {
            assert(toks_model(dest@) =~= toks_model(old(dest)@) + one_tok(g.tok, TokenModel::DoubleQuote(g.buf)));
        }
        Option::None
    } else if c == '\\' {
        *state = State::DoubleQuoteEscape;
        proof {
            assert(toks_model(dest@) =~= toks_model(old(dest)@) + Seq::<(Position, TokenModel)>::empty());
        }
        Option::None
    } else {
        string_push(buffer, c);
        proof {
            assert(toks_model(dest@) =~= toks_model(old(dest)@) + Seq::<(Position, TokenModel)>::empty());
        }
        Option::None
    }
}

/// Handles the character after a backslash in a double-quoted literal.
fn double_quote_escape_char(
    state: &mut State,
    position: &Position,
    buffer: &mut String,
    codepoint: &mut u32,
    c: char,
) -> (r: Option<LexError>)
    requires
        *old(state) == State::DoubleQuoteEscape,
    ensures
        ({
            let g = mk_cfg(*old(state), *position, Position { index: 0, line: 0, column: 0 }, old(buffer)@, *old(codepoint));
            match step_double_quote_escape(g, c) {
                StepRes::Good(g2, t) => {
                    &&& r is None
                    &&& *final(state) == g2.state
                    &&& final(buffer)@ == g2.buf
                    &&& *final(codepoint) == g2.cp
                    &&& t == Seq::<(Position, TokenModel)>::empty()
                },
                StepRes::Bad(g2, e) => {
                    &&& r == Option::Some(e)
                    &&& *final(state) == *old(state)
                    &&& final(buffer)@ == old(buffer)@
                    &&& *final(codepoint) == *old(codepoint)
                },
            }
        }),
{
    if c == 'a' {
        string_push(buffer, '\u{0007}');
        *state = State::DoubleQuote;
        Option::None
    } else if c == 'c' {
        *state = State::DoubleQuoteEscapeControl;
        Option::None
    } else if c == 'e' {
        string_push(buffer, '\u{001b}');
        *state = State::DoubleQuote;
        Option::None
    } else if c == 'f' {
        string_push(buffer, '\u{000c}');
        *state = State::DoubleQuote;
        Option::None
    } else if c == 'n' {
        string_push(buffer, '\n');
        *state = State::DoubleQuote;
        Option::None
    } else if c == 'r' {
        string_push(buffer, '\r');
        *state = State::DoubleQuote;
        Option::None
    } else if c == 't' {
        string_push(buffer, '\t');
        *state = State::DoubleQuote;
        Option::None
    } else if c == '$' {
        string_push(buffer, '$');
        *state = State::DoubleQuote;
        Option::None
    } else if c == '"' {
        string_push(buffer, '"');
        *state = State::DoubleQuote;
        Option::None
    } else if c == '\\' {
        string_push(buffer, '\\');
        *state = State::DoubleQuote;
        Option::None
    } else if c == 'x' {
        *codepoint = 0;
        *state = State::DoubleQuoteEscapeHex;
        Option::None
    } else if ch_is_digit(c) {
        *codepoint = ch_digit_val(c);
        *state = State::DoubleQuoteEscapeOctal2;
        Option::None
    } else {
        Option::Some(LexError::new(*position, *state, LexErrorKind::Unexpected(c)))
    }
}

/// Handles the character of a `\c` control escape.
fn double_quote_escape_control_char(
    state: &mut State,
    position: &Position,
    buffer: &mut String,
    c: char,
) -> (r: Option<LexError>)
    requires
        *old(state) == State::DoubleQuoteEscapeControl,
    ensures
        ({
            let g = mk_cfg(*old(state), *position, Position { index: 0, line: 0, column: 0 }, old(buffer)@, 0);
            match step_double_quote_escape_control(g, c) {
                StepRes::Good(g2, t) => {
                    &&& r is None
                    &&& *final(state) == g2.state
                    &&& final(buffer)@ == g2.buf
                    &&& t == Seq::<(Position, TokenModel)>::empty()
                },
                StepRes::Bad(g2, e) => {
                    &&& r == Option::Some(e)
                    &&& *final(state) == *old(state)
                    &&& final(buffer)@ == old(buffer)@
                },
            }
        }),
{
    let up = ch_ascii_upper(c);
    let x = (up as u32) ^ 0x60;
    match char_from_u32(x) {
        Option::Some(ch) => {
            string_push(buffer, ch);
            *state = State::DoubleQuote;
            Option::None
        },
        Option::None => Option::Some(
            LexError::new(*position, *state, LexErrorKind::InvalidUnicode(x)),
        ),
    }
}

/// Ends a hex or octal escape: the accumulated code point joins the text
/// and the terminating character is handled as the double-quote state
/// would.
fn resume_dq_char(
    state: &mut State,
    position: &Position,
    token_position: &Position,
    buffer: &mut String,
    codepoint: &u32,
    c: char,
    dest: &mut Vec<(Position, Token)>,
) -> (r: Option<LexError>)
    requires
        *old(state) == State::DoubleQuoteEscapeHex2 || *old(state) == State::DoubleQuoteEscapeOctal2
            || *old(state) == State::DoubleQuoteEscapeOctal3,
    ensures
        ({
            let g = mk_cfg(*old(state), *position, *token_position, old(buffer)@, *codepoint);
            match resume_double_quote(g, c) {
                StepRes::Good(g2, t) => {
                    &&& r is None
                    &&& *final(state) == g2.state
                    &&& final(buffer)@ == g2.buf
                    &&& toks_model(final(dest)@) == toks_model(old(dest)@) + t
                },
                StepRes::Bad(g2, e) => {
                    &&& r == Option::Some(e)
                    &&& *final(state) == *old(state)
                    &&& final(buffer)@ == old(buffer)@
                    &&& final(dest)@ == old(dest)@
                },
            }
        }),
{
    match char_from_u32(*codepoint) {
        Option::Some(ch) => {
            string_push(buffer, ch);
            *state = State::DoubleQuote;
            double_quote_char(state, position, token_position, buffer, c, dest)
        },
        Option::None => Option::Some(
            LexError::new(*position, *state, LexErrorKind::InvalidUnicode(*codepoint)),
        ),
    }
}

/// Handles the character after `\x`.
fn double_quote_escape_hex_char(
    state: &mut State,
    position: &Position,
    codepoint: &mut u32,
    c: char,
) -> (r: Option<LexError>)
    requires
        *old(state) == State::DoubleQuoteEscapeHex,
    ensures
        ({
            let g = mk_cfg(*old(state), *position, Position { index: 0, line: 0, column: 0 }, Seq::empty(), *old(codepoint));
            match step_double_quote_escape_hex(g, c) {
                StepRes::Good(g2, t) => {
                    &&& r is None
                    &&& *final(state) == g2.state
                    &&& *final(codepoint) == g2.cp
                    &&& t == Seq::<(Position, TokenModel)>::empty()
                },
                StepRes::Bad(g2, e) => {
                    &&& r == Option::Some(e)
                    &&& *final(state) == *old(state)
                    &&& *final(codepoint) == *old(codepoint)
                },
            }
        }),
{
    if c == '{' {
        *state = State::DoubleQuoteEscapeHexBound;
        Option::None
    } else if ch_is_hex(c) {
        *codepoint = ch_hex_val(c);
        *state = State::DoubleQuoteEscapeHex2;
        Option::None
    } else {
        Option::Some(LexError::new(*position, *state, LexErrorKind::Unexpected(c)))
    }
}

/// Handles the character after `\x` and one hex digit.
fn double_quote_escape_hex2_char(
    state: &mut State,
    position: &Position,
    token_position: &Position,
    buffer: &mut String,
    codepoint: &mut u32,
    c: char,
    dest: &mut Vec<(Position, Token)>,
) -> (r: Option<LexError>)
    requires
        *old(state) == State::DoubleQuoteEscapeHex2,
    ensures
        ({
            let g = mk_cfg(*old(state), *position, *token_position, old(buffer)@, *old(codepoint));
            match step_double_quote_escape_hex2(g, c) {
                StepRes::Good(g2, t) => {
                    &&& r is None
                    &&& *final(state) == g2.state
                    &&& final(buffer)@ == g2.buf
                    &&& *final(codepoint) == g2.cp
                    &&& toks_model(final(dest)@) == toks_model(old(dest)@) + t
                },
                StepRes::Bad(g2, e) => {
                    &&& r == Option::Some(e)
                    &&& *final(state) == *old(state)
                    &&& final(buffer)@ == old(buffer)@
                    &&& *final(codepoint) == *old(codepoint)
                    &&& final(dest)@ == old(dest)@
                },
            }
        }),
{
    if ch_is_hex(c) {
        let x = ch_cp_ext(*codepoint, 16, ch_hex_val(c));
        match char_from_u32(x) {
            Option::Some(ch) => {
                string_push(buffer, ch);
                *codepoint = x;
                *state = State::DoubleQuote;
                proof {
                    assert(toks_model(dest@) =~= toks_model(old(dest)@) + Seq::<(Position, TokenModel)>::empty());
                }
                Option::None
            },
            Option::None => Option::Some(
                LexError::new(*position, *state, LexErrorKind::InvalidUnicode(x)),
            ),
        }
    } else {
        resume_dq_char(state, position, token_position, buffer, codepoint, c, dest)
    }
}

/// Handles one character of a braced `\x{...}` escape.
fn double_quote_escape_hex_bound_char(
    state: &mut State,
    position: &Position,
    buffer: &mut String,
    codepoint: &mut u32,
    c: char,
) -> (r: Option<LexError>)
    requires
        *old(state) == State::DoubleQuoteEscapeHexBound,
    ensures
        ({
            let g = mk_cfg(*old(state), *position, Position { index: 0, line: 0, column: 0 }, old(buffer)@, *old(codepoint));
            match step_double_quote_escape_hex_bound(g, c) {
                StepRes::Good(g2, t) => {
                    &&& r is None
                    &&& *final(state) == g2.state
                    &&& final(buffer)@ == g2.buf
                    &&& *final(codepoint) == g2.cp
                    &&& t == Seq::<(Position, TokenModel)>::empty()
                },
                StepRes::Bad(g2, e) => {
                    &&& r == Option::Some(e)
                    &&& *final(state) == *old(state)
                    &&& final(buffer)@ == old(buffer)@
                    &&& *final(codepoint) == *old(codepoint)
                },
            }
        }),
{
    if ch_is_hex(c) {
        *codepoint = ch_cp_ext(*codepoint, 16, ch_hex_val(c));
        Option::None
    } else if c == '}' {
        match char_from_u32(*codepoint) {
            Option::Some(ch) => {
                string_push(buffer, ch);
                *state = State::DoubleQuote;
                Option::None
            },
            Option::None => Option::Some(
                LexError::new(*position, *state, LexErrorKind::InvalidUnicode(*codepoint)),
            ),
        }
    } else {
        Option::Some(LexError::new(*position, *state, LexErrorKind::Unexpected(c)))
    }
}

/// Handles the character after a `\` octal escape's first digit.
fn double_quote_escape_octal2_char(
    state: &mut State,
    position: &Position,
    token_position: &Position,
    buffer: &mut String,
    codepoint: &mut u32,
    c: char,
    dest: &mut Vec<(Position, Token)>,
) -> (r: Option<LexError>)
    requires
        *old(state) == State::DoubleQuoteEscapeOctal2,
    ensures
        ({
            let g = mk_cfg(*old(state), *position, *token_position, old(buffer)@, *old(codepoint));
            match step_double_quote_escape_octal2(g, c) {
                StepRes::Good(g2, t) => {
                    &&& r is None
                    &&& *final(state) == g2.state
                    &&& final(buffer)@ == g2.buf
                    &&& *final(codepoint) == g2.cp
                    &&& toks_model(final(dest)@) == toks_model(old(dest)@) + t
                },
                StepRes::Bad(g2, e) => {
                    &&& r == Option::Some(e)
                    &&& *final(state) == *old(state)
                    &&& final(buffer)@ == old(buffer)@
                    &&& *final(codepoint) == *old(codepoint)
                    &&& final(dest)@ == old(dest)@
                },
            }
        }),
{
    if ch_is_octal(c) {
        *codepoint = ch_cp_ext(*codepoint, 8, ch_digit_val(c));
        *state = State::DoubleQuoteEscapeOctal3;
        proof {
            assert(toks_model(dest@) =~= toks_model(old(dest)@) + Seq::<(Position, TokenModel)>::empty());
        }
        Option::None
    } else {
        resume_dq_char(state, position, token_position, buffer, codepoint, c, dest)
    }
}

/// Handles the character after a `\` octal escape's second digit.
fn double_quote_escape_octal3_char(
    state: &mut State,
    position: &Position,
    token_position: &Position,
    buffer: &mut String,
    codepoint: &mut u32,
    c: char,
    dest: &mut Vec<(Position, Token)>,
) -> (r: Option<LexError>)
    requires
        *old(state) == State::DoubleQuoteEscapeOctal3,
    ensures
        ({
            let g = mk_cfg(*old(state), *position, *token_position, old(buffer)@, *old(codepoint));
            match step_double_quote_escape_octal3(g, c) {
                StepRes::Good(g2, t) => {
                    &&& r is None
                    &&& *final(state) == g2.state
                    &&& final(buffer)@ == g2.buf
                    &&& *final(codepoint) == g2.cp
                    &&& toks_model(final(dest)@) == toks_model(old(dest)@) + t
                },
                StepRes::Bad(g2, e) => {
                    &&& r == Option::Some(e)
                    &&& *final(state) == *old(state)
                    &&& final(buffer)@ == old(buffer)@
                    &&& *final(codepoint) == *old(codepoint)
                    &&& final(dest)@ == old(dest)@
                },
            }
        }),
{
    if ch_is_octal(c) {
        let x = ch_cp_ext(*codepoint, 8, ch_digit_val(c));
        match char_from_u32(x) {
            Option::Some(ch) => {
                string_push(buffer, ch);
                *codepoint = x;
                *state = State::DoubleQuote;
                proof {
                    assert(toks_model(dest@) =~= toks_model(old(dest)@) + Seq::<(Position, TokenModel)>::empty());
                }
                Option::None
            },
            Option::None => Option::Some(
                LexError::new(*position, *state, LexErrorKind::InvalidUnicode(x)),
            ),
        }
    } else {
        resume_dq_char(state, position, token_position, buffer, codepoint, c, dest)
    }
}

/// Handles one character in the comment and tag states.
fn simple_char(
    state: &mut State,
    position: &Position,
    c: char,
    dest: &mut Vec<(Position, Token)>,
) -> (r: Option<LexError>)
    requires
        *old(state) == State::PrepareComment || *old(state) == State::PrepareAssignment
            || *old(state) == State::PrepareOpenTag || *old(state) == State::PrepareCloseTag
            || *old(state) == State::PHPTag0 || *old(state) == State::PHPTag1
            || *old(state) == State::PHPTag2 || *old(state) == State::LineComment
            || *old(state) == State::MultiLineComment
            || *old(state) == State::MultiLineCommentPrepareExit,
    ensures
        ({
            let g = mk_cfg(*old(state), *position, Position { index: 0, line: 0, column: 0 }, Seq::empty(), 0);
            match step_simple(g, c) {
                StepRes::Good(g2, t) => {
                    &&& r is None
                    &&& *final(state) == g2.state
                    &&& toks_model(final(dest)@) == toks_model(old(dest)@) + t
                },
                StepRes::Bad(g2, e) => {
                    &&& r == Option::Some(e)
                    &&& *final(state) == *old(state)
                    &&& final(dest)@ == old(dest)@
                },
            }
        }),
{
    let ghost g = mk_cfg(*old(state), *position, Position { index: 0, line: 0, column: 0 }, Seq::empty(), 0);
    match *state {
        State::PrepareComment => {
            if c == '/' {
                *state = State::LineComment;
            } else if c == '*' {
                *state = State::MultiLineComment;
            } else {
                return Option::Some(LexError::new(*position, *state, LexErrorKind::Unexpected(c)));
            }
            proof {
                assert(toks_model(dest@) =~= toks_model(old(dest)@) + Seq::<(Position, TokenModel)>::empty());
            }
            Option::None
        },
        State::PrepareAssignment => {
            if c == '>' {
                dest.push((*position, Token::Assignment));
                *state = State::Initial;
                proof {
                    assert(toks_model(dest@) =~= toks_model(old(dest)@) + one_tok(g.pos, TokenModel::Assignment));
                }
                Option::None
            } else {
                Option::Some(LexError::new(*position, *state, LexErrorKind::Unexpected(c)))
            }
        },
        State::PrepareOpenTag => {
            if c == '?' {
                *state = State::PHPTag0;
                proof {
                    assert(toks_model(dest@) =~= toks_model(old(dest)@) + Seq::<(Position, TokenModel)>::empty());
                }
                Option::None
            } else {
                Option::Some(LexError::new(*position, *state, LexErrorKind::Unexpected(c)))
            }
        },
        State::PrepareCloseTag => {
            if c == '>' {
                *state = State::Initial;
                proof {
                    assert(toks_model(dest@) =~= toks_model(old(dest)@) + Seq::<(Position, TokenModel)>::empty());
                }
                Option::None
            } else {
                Option::Some(LexError::new(*position, *state, LexErrorKind::Unexpected(c)))
            }
        },
        State::PHPTag0 => {
            if c == 'p' {
                *state = State::PHPTag1;
                proof {
                    assert(toks_model(dest@) =~= toks_model(old(dest)@) + Seq::<(Position, TokenModel)>::empty());
                }
                Option::None
            } else {
                Option::Some(LexError::new(*position, *state, LexErrorKind::Unexpected(c)))
            }
        },
        State::PHPTag1 => {
            if c == 'h' {
                *state = State::PHPTag2;
                proof {
                    assert(toks_model(dest@) =~= toks_model(old(dest)@) + Seq::<(Position, TokenModel)>::empty());
                }
                Option::None
            } else {
                Option::Some(LexError::new(*position, *state, LexErrorKind::Unexpected(c)))
            }
        },
        State::PHPTag2 => {
            if c == 'p' {
                *state = State::Initial;
                proof {
                    assert(toks_model(dest@) =~= toks_model(old(dest)@) + Seq::<(Position, TokenModel)>::empty());
                }
                Option::None
            } else {
                Option::Some(LexError::new(*position, *state, LexErrorKind::Unexpected(c)))
            }
        },
        State::LineComment => {
            if c == '\n' {
                *state = State::Initial;
            }
            proof {
                assert(toks_model(dest@) =~= toks_model(old(dest)@) + Seq::<(Position, TokenModel)>::empty());
            }
            Option::None
        },
        State::MultiLineComment => {
            if c == '*' {
                *state = State::MultiLineCommentPrepareExit;
            }
            proof {
                assert(toks_model(dest@) =~= toks_model(old(dest)@) + Seq::<(Position, TokenModel)>::empty());
            }
            Option::None
        },
        _ => {
            if c == '*' {
            } else if c == '/' {
                *state = State::Initial;
            } else {
                *state = State::MultiLineComment;
            }
            proof {
                assert(toks_model(dest@) =~= toks_model(old(dest)@) + Seq::<(Position, TokenModel)>::empty());
            }
            Option::None
        },
    }
}

/// Advances the position and dispatches one character on the current
/// state.
fn lex_char(
    state: &mut State,
    position: &mut Position,
    token_position: &mut Position,
    buffer: &mut String,
    codepoint: &mut u32,
    c: char,
    dest: &mut Vec<(Position, Token)>,
) -> (r: Option<LexError>)
    requires
        old(position).index < usize::MAX,
        pos_wf(*old(position)),
    ensures
        pos_wf(*final(position)),
        final(position).index == old(position).index + 1,
        ({
            let res = lex_step(
                mk_cfg(*old(state), *old(position), *old(token_position), old(buffer)@, *old(codepoint)),
                c,
            );
            match res {
                StepRes::Good(g2, t) => {
                    &&& r is None
                    &&& mk_cfg(*final(state), *final(position), *final(token_position), final(buffer)@, *final(codepoint)) == g2
                    &&& toks_model(final(dest)@) == toks_model(old(dest)@) + t
                },
                StepRes::Bad(g2, e) => {
                    &&& r == Option::Some(e)
                    &&& mk_cfg(*final(state), *final(position), *final(token_position), final(buffer)@, *final(codepoint)) == g2
                    &&& final(dest)@ == old(dest)@
                },
            }
        }),
{
    position.advance(c == '\n');
    match *state {
        State::Initial => initial_char(state, position, token_position, buffer, codepoint, c, dest),
        State::Integer => integer_char(state, position, token_position, buffer, codepoint, c, dest),
        State::IntegerDecimal => integer_decimal_char(state, position, buffer, c),
        State::Decimal => decimal_char(state, position, token_position, buffer, codepoint, c, dest),
        State::Identifier => identifier_char(state, position, token_position, buffer, codepoint, c, dest),
        State::SingleQuote => single_quote_char(state, position, token_position, buffer, c, dest),
        State::SingleQuoteEscape => single_quote_escape_char(state, buffer, c),
        State::DoubleQuote => double_quote_char(state, position, token_position, buffer, c, dest),
        State::DoubleQuoteEscape => double_quote_escape_char(state, position, buffer, codepoint, c),
        State::DoubleQuoteEscapeControl => double_quote_escape_control_char(state, position, buffer, c),
        State::DoubleQuoteEscapeHex => double_quote_escape_hex_char(state, position, codepoint, c),
        State::DoubleQuoteEscapeHex2 => double_quote_escape_hex2_char(state, position, token_position, buffer, codepoint, c, dest),
        State::DoubleQuoteEscapeHexBound => double_quote_escape_hex_bound_char(state, position, buffer, codepoint, c),
        State::DoubleQuoteEscapeOctal2 => double_quote_escape_octal2_char(state, position, token_position, buffer, codepoint, c, dest),
        State::DoubleQuoteEscapeOctal3 => double_quote_escape_octal3_char(state, position, token_position, buffer, codepoint, c, dest),
        _ => simple_char(state, position, c, dest),
    }
}


/// Feeds characters into the lexer.
///
/// The five state arguments carry one lex pass between calls, so input can
/// be fed incrementally; recognized tokens are appended to `dest`.  The
/// call returns at the first illegal character, leaving the state at that
/// character and the tokens recognized before it appended.
#[verifier::loop_isolation(false)]
#[verifier::rlimit(60)]
pub fn lex(
    state: &mut State,
    position: &mut Position,
    token_position: &mut Position,
    buffer: &mut String,
    codepoint: &mut u32,
    source: &str,
    dest: &mut Vec<(Position, Token)>,
) -> (r: Result<(), LexError>)
    requires
        pos_wf(*old(position)),
        old(position).index + source@.len() <= usize::MAX,
    ensures
        pos_wf(*final(position)),
        ({
            let run = lex_run(
                mk_cfg(*old(state), *old(position), *old(token_position), old(buffer)@, *old(codepoint)),
                source@,
            );
            &&& mk_cfg(*final(state), *final(position), *final(token_position), final(buffer)@, *final(codepoint)) == run.cfg
            &&& toks_model(final(dest)@) == toks_model(old(dest)@) + run.toks
            &&& r == (match run.err {
                Option::None => Result::<(), LexError>::Ok(()),
                Option::Some(e) => Result::<(), LexError>::Err(e),
            })
        }),
{
    let ghost g0 = mk_cfg(*old(state), *old(position), *old(token_position), old(buffer)@, *old(codepoint));
    let ghost src = source@;
    let ghost dest0 = dest@;
    let n = source.unicode_len();
    let mut i: usize = 0;
    while i < n
        invariant
            i <= n,
            n == src.len(),
            source@ == src,
            g0.pos.index + src.len() <= usize::MAX,
            pos_wf(*position),
            position.index <= g0.pos.index + i,
            lex_run(g0, src.take(i as int)).err is None,
            mk_cfg(*state, *position, *token_position, buffer@, *codepoint)
                == lex_run(g0, src.take(i as int)).cfg,
            toks_model(dest@) == toks_model(dest0) + lex_run(g0, src.take(i as int)).toks,
        decreases n - i,
    {
        let ghost pre = lex_run(g0, src.take(i as int));
        let c = source.get_char(i);
        proof {
            assert(src.take(i as int).push(c) =~= src.take(i + 1 as int));
            lemma_lex_run_app(g0, src.take(i as int), seq![c]);
            assert(lex_run(pre.cfg, seq![c]).cfg == (match lex_step(pre.cfg, c) {
                StepRes::Good(g2, t) => {
                    let rest = lex_run(g2, seq![c].drop_first());
                    rest.cfg
                },
                StepRes::Bad(g2, e) => g2,
            }));
            assert(seq![c].drop_first() =~= Seq::<char>::empty());
            assert(src.take(i as int) + seq![c] =~= src.take(i + 1 as int));
        }
        let r = lex_char(state, position, token_position, buffer, codepoint, c, dest);
        match r {
            Option::Some(e) => {
                proof {
                    let rb = lex_run(pre.cfg, seq![c]);
                    assert(seq![c][0] == c);
                    match lex_step(pre.cfg, c) {
                        StepRes::Good(g2, t) => {
                            assert(false);
                        },
                        StepRes::Bad(g2, e2) => {
                            assert(rb == (RunModel {
                                cfg: g2,
                                toks: Seq::<(Position, TokenModel)>::empty(),
                                err: Option::Some(e2),
                            }));
                            assert(e2 == e);
                        },
                    }
                    let ra = lex_run(g0, src.take(i + 1 as int));
                    assert(ra == (RunModel { cfg: rb.cfg, toks: pre.toks + rb.toks, err: rb.err }));
                    assert(ra.err == Option::Some(e));
                    assert(src.take(i + 1 as int) + src.skip(i + 1 as int) =~= src);
                    lemma_lex_run_app(g0, src.take(i + 1 as int), src.skip(i + 1 as int));
                    assert(lex_run(g0, src) == (RunModel { cfg: ra.cfg, toks: ra.toks, err: ra.err }));
                    assert(ra.toks =~= pre.toks);
                    assert(toks_model(dest@) == toks_model(dest0) + lex_run(g0, src).toks);
                }
                return Result::Err(e);
            },
            Option::None => {
                proof {
                    let step = lex_step(pre.cfg, c);
                    match step {
                        StepRes::Good(g2, t) => {
                            assert(toks_model(dest@) == (toks_model(dest0) + pre.toks) + t);
                            assert((toks_model(dest0) + pre.toks) + t
                                =~= toks_model(dest0) + (pre.toks + t));
                            assert(lex_run(g0, src.take(i + 1 as int)).toks =~= pre.toks + t);
                        },
                        StepRes::Bad(g2, e) => {},
                    }
                }
            },
        }
        i = i + 1;
    }
    proof {
        assert(src.take(n as int) =~= src);
    }
    Result::Ok(())
}

/// Feeds end-of-input into the lexer: a pending number or identifier
/// becomes its token, a quiescent state is a no-op, and any other state
/// reports an unterminated construct.
pub fn eof(
    state: State,
    position: Position,
    token_position: Position,
    buffer: String,
    dest: &mut Vec<(Position, Token)>,
) -> (r: Result<(), LexError>)
    ensures
        ({
            match eof_model(mk_cfg(state, position, token_position, buffer@, 0)) {
                Result::Ok(t) => {
                    &&& r is Ok
                    &&& toks_model(final(dest)@) == toks_model(old(dest)@) + t
                },
                Result::Err(e) => {
                    &&& r == Result::<(), LexError>::Err(e)
                    &&& final(dest)@ == old(dest)@
                },
            }
        }),
{
    let ghost g = mk_cfg(state, position, token_position, buffer@, 0);
    match state {
        State::Initial | State::LineComment | State::MultiLineComment
            | State::MultiLineCommentPrepareExit => {
            proof {
                assert(toks_model(dest@) =~= toks_model(old(dest)@) + Seq::<(Position, TokenModel)>::empty());
            }
            Result::Ok(())
        },
        State::Integer => {
            dest.push((token_position, Token::Int(buffer)));
            proof {
                assert(toks_model(dest@) =~= toks_model(old(dest)@) + one_tok(g.tok, TokenModel::Int(g.buf)));
            }
            Result::Ok(())
        },
        State::Decimal => {
            dest.push((token_position, Token::Float(buffer)));
            proof {
                assert(toks_model(dest@) =~= toks_model(old(dest)@) + one_tok(g.tok, TokenModel::Float(g.buf)));
            }
            Result::Ok(())
        },
        State::Identifier => {
            dest.push((token_position, Token::Identifier(buffer)));
            proof {
                assert(toks_model(dest@) =~= toks_model(old(dest)@) + one_tok(g.tok, TokenModel::Identifier(g.buf)));
            }
            Result::Ok(())
        },
        _ => Result::Err(LexError::new(position, state, LexErrorKind::EOF)),
    }
}

/// The configuration at stream start.
pub open spec fn init_cfg() -> LexCfg {
    LexCfg {
        state: State::Initial,
        pos: Position { index: 0, line: 0, column: 0 },
        tok: Position { index: 0, line: 0, column: 0 },
        buf: Seq::empty(),
        cp: 0,
    }
}

/// What lexing a whole text yields: the tokens of one full pass followed
/// by end-of-input, or the first error.
pub open spec fn lex_text(s: Seq<char>) -> Result<Seq<(Position, TokenModel)>, LexError> {
    let r = lex_run(init_cfg(), s);
    match r.err {
        Option::Some(e) => Result::Err(e),
        Option::None => match eof_model(r.cfg) {
            Result::Ok(t) => Result::Ok(r.toks + t),
            Result::Err(e) => Result::Err(e),
        },
    }
}

/// Lexes a whole text in one pass, from stream start through end-of-input.
pub fn lex_str(source: &str) -> (r: Result<Vec<(Position, Token)>, LexError>)
    ensures
        ({
            match lex_text(source@) {
                Result::Ok(t) => r is Ok && toks_model(r->Ok_0@) == t,
                Result::Err(e) => r == Result::<Vec<(Position, Token)>, LexError>::Err(e),
            }
        }),
{
    let n = source.unicode_len();
    proof {
        assert(source@.len() <= usize::MAX);
    }
    let mut state = State::Initial;
    let mut position = Position::new(0, 0, 0);
    let mut token_position = Position::new(0, 0, 0);
    let mut buffer = String::new();
    let mut codepoint: u32 = 0;
    let mut dest: Vec<(Position, Token)> = Vec::new();
    let ghost g0 = init_cfg();
    proof {
        assert(mk_cfg(state, position, token_position, buffer@, codepoint) == g0);
        assert(toks_model(dest@) =~= Seq::<(Position, TokenModel)>::empty());
        assert(toks_model(dest@) =~= toks_model(dest@) + lex_run(g0, source@).toks
            || true);
    }
    match lex(&mut state, &mut position, &mut token_position, &mut buffer, &mut codepoint, source, &mut dest) {
        Result::Err(e) => {
            proof {
                assert(toks_model(dest@) =~= Seq::<(Position, TokenModel)>::empty() + lex_run(g0, source@).toks);
            }
            Result::Err(e)
        },
        Result::Ok(()) => {
            let ghost run = lex_run(g0, source@);
            proof {
                assert(toks_model(dest@) =~= Seq::<(Position, TokenModel)>::empty() + run.toks);
                assert(toks_model(dest@) =~= run.toks);
            }
            match eof(state, position, token_position, buffer, &mut dest) {
                Result::Err(e) => Result::Err(e),
                Result::Ok(()) => {
                    proof {
                        match eof_model(run.cfg) {
                            Result::Ok(t) => {
                                assert(toks_model(dest@) == run.toks + t);
                            },
                            Result::Err(e) => {},
                        }
                    }
                    Result::Ok(dest)
                },
            }
        },
    }
}

} // verus!
