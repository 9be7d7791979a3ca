//! The lexer: turns raw text into a token sequence.
//!
//! Internally a comment/whitespace-stripping preprocessor runs character by
//! character in front of the tokenizer: `//` and `#` open line comments
//! whose terminating newline surfaces as a single space, `/* */` comments
//! nest and produce nothing, carriage returns are dropped, any other
//! whitespace collapses to one space per character. Line and column
//! tracking stays accurate through skipped text: the line counter advances
//! on every consumed newline, the column on every other consumed character.
//!
//! The whole two-layer machine is written down once as the spec function
//! [`spec_lex`]; the executable [`run`] is proved to return exactly what
//! that machine returns.

use vstd::prelude::*;

use crate::error::{Error, ErrorKindView, ErrorType, ErrorView};

verus! {

// ---------------------------------------------------------------------------
// Tokens
// ---------------------------------------------------------------------------

/// The kinds of token the lexer produces. `LineEnd` is a newline sentinel,
/// emitted only when a newline terminates a bare-word run; it lets a
/// parameter list end without a following brace or semicolon.
#[derive(Debug, PartialEq, Eq, Clone)]
pub enum TokenType {
    StringLiteral(String),
    RawLiteral(String),
    OpenBrace,
    CloseBrace,
    OpenParen,
    CloseParen,
    Semicolon,
    Colon,
    LineEnd,
}

/// Mathematical model of a `TokenType`.
pub enum TokenKind {
    StringLiteral(Seq<char>),
    RawLiteral(Seq<char>),
    OpenBrace,
    CloseBrace,
    OpenParen,
    CloseParen,
    Semicolon,
    Colon,
    LineEnd,
}

impl View for TokenType {
    type V = TokenKind;

    open spec fn view(&self) -> TokenKind {
        match self {
            TokenType::StringLiteral(s) => TokenKind::StringLiteral(s@),
            TokenType::RawLiteral(s) => TokenKind::RawLiteral(s@),
            TokenType::OpenBrace => TokenKind::OpenBrace,
            TokenType::CloseBrace => TokenKind::CloseBrace,
            TokenType::OpenParen => TokenKind::OpenParen,
            TokenType::CloseParen => TokenKind::CloseParen,
            TokenType::Semicolon => TokenKind::Semicolon,
            TokenType::Colon => TokenKind::Colon,
            TokenType::LineEnd => TokenKind::LineEnd,
        }
    }
}

/// A token together with the raw-file position at which it was completed.
#[derive(Debug, PartialEq, Eq, Clone)]
pub struct Token {
    pub token_type: TokenType,
    pub line: u32,
    pub col: u16,
}

/// Mathematical model of a `Token`.
pub struct TokenView {
    pub kind: TokenKind,
    pub line: u32,
    pub col: u16,
}

impl View for Token {
    type V = TokenView;

    open spec fn view(&self) -> TokenView {
        TokenView { kind: self.token_type@, line: self.line, col: self.col }
    }
}

impl Token {
    /// Builds a token at the given position.
    pub fn new(line: u32, col: u16, ty: TokenType) -> (t: Token)
        ensures
            t@ == (TokenView { kind: ty@, line, col }),
    {
        Token { line, col, token_type: ty }
    }

    /// A copy with the same model, for a token that is both consumed and
    /// carried inside an error.
    pub fn duplicate(&self) -> (t: Token)
        ensures
            t@ == self@,
    {
        let ty = match &self.token_type {
            TokenType::StringLiteral(s) => TokenType::StringLiteral(s.clone()),
            TokenType::RawLiteral(s) => TokenType::RawLiteral(s.clone()),
            TokenType::OpenBrace => TokenType::OpenBrace,
            TokenType::CloseBrace => TokenType::CloseBrace,
            TokenType::OpenParen => TokenType::OpenParen,
            TokenType::CloseParen => TokenType::CloseParen,
            TokenType::Semicolon => TokenType::Semicolon,
            TokenType::Colon => TokenType::Colon,
            TokenType::LineEnd => TokenType::LineEnd,
        };
        Token { line: self.line, col: self.col, token_type: ty }
    }
}

/// The models of a token sequence, element by element.
pub open spec fn tokens_view(ts: Seq<Token>) -> Seq<TokenView> {
    ts.map_values(|t: Token| t@)
}

// ---------------------------------------------------------------------------
// The lexer as a character-level state machine (specification)
// ---------------------------------------------------------------------------

/// Preprocessor sub-state: plain code, inside a line comment, or inside a
/// block comment at the given nesting level (at least 1 while inside).
pub enum SpecPp {
    Code,
    LineComment,
    BlockComment(nat),
}

/// Tokenizer mode: between tokens, inside a quoted literal, or inside a
/// bare-word run.
pub enum SpecMode {
    Outside,
    InString,
    InRaw,
}

/// Tokenizer state: the mode register, the escape flag (meaningful only
/// inside a quoted literal), the pending literal text, and the tokens
/// emitted so far.
pub struct SpecScanner {
    pub mode: SpecMode,
    pub escaped: bool,
    pub tmp: Seq<char>,
    pub tokens: Seq<TokenView>,
}

/// Full lexer state: preprocessor sub-state, tokenizer state, and the
/// current raw-file position.
pub struct SpecLexer {
    pub pp: SpecPp,
    pub scan: SpecScanner,
    pub line: u32,
    pub col: u16,
}

/// One column to the right; positions saturate rather than wrap.
pub open spec fn adv_col(col: u16) -> u16 {
    if col < u16::MAX {
        (col + 1) as u16
    } else {
        col
    }
}

/// One line down; positions saturate rather than wrap.
pub open spec fn adv_line(line: u32) -> u32 {
    if line < u32::MAX {
        (line + 1) as u32
    } else {
        line
    }
}

/// The Unicode white-space characters, as `char::is_whitespace` reports
/// them.
pub open spec fn is_space_char(c: char) -> bool {
    c == ' ' || c == '\t' || c == '\n' || c == '\u{b}' || c == '\u{c}' || c == '\r' || c
        == '\u{85}' || c == '\u{a0}' || c == '\u{1680}' || c == '\u{2000}' || c == '\u{2001}' || c
        == '\u{2002}' || c == '\u{2003}' || c == '\u{2004}' || c == '\u{2005}' || c == '\u{2006}'
        || c == '\u{2007}' || c == '\u{2008}' || c == '\u{2009}' || c == '\u{200a}' || c
        == '\u{2028}' || c == '\u{2029}' || c == '\u{202f}' || c == '\u{205f}' || c == '\u{3000}'
}

/// Closes the pending bare-word run as a `RawLiteral` token at the given
/// position and returns to the between-tokens mode.
pub open spec fn close_raw(s: SpecScanner, line: u32, col: u16) -> SpecScanner {
    SpecScanner {
        mode: SpecMode::Outside,
        escaped: s.escaped,
        tmp: Seq::empty(),
        tokens: s.tokens.push(TokenView { kind: TokenKind::RawLiteral(s.tmp), line, col }),
    }
}

/// One tokenizer transition on a logical (preprocessed) character. The only
/// failure is an unrecognized backslash escape inside a quoted literal.
pub open spec fn spec_scan_step(s: SpecScanner, c: char, line: u32, col: u16) -> Result<
    SpecScanner,
    ErrorView,
> {
    match s.mode {
        SpecMode::InString => {
            if s.escaped {
                if c == '\\' {
                    Ok(SpecScanner { escaped: false, tmp: s.tmp.push('\\'), ..s })
                } else if c == 'n' {
                    Ok(SpecScanner { escaped: false, tmp: s.tmp.push('\n'), ..s })
                } else {
                    Err(
                        ErrorView {
                            line,
                            col,
                            kind: ErrorKindView::InvalidEscape(c),
                            expected: None,
                        },
                    )
                }
            } else if c == '"' {
                Ok(
                    SpecScanner {
                        mode: SpecMode::Outside,
                        escaped: false,
                        tmp: Seq::empty(),
                        tokens: s.tokens.push(
                            TokenView { kind: TokenKind::StringLiteral(s.tmp), line, col },
                        ),
                    },
                )
            } else if c == '\\' {
                Ok(SpecScanner { escaped: true, ..s })
            } else {
                Ok(SpecScanner { tmp: s.tmp.push(c), ..s })
            }
        },
        SpecMode::Outside => {
            if c == '"' {
                Ok(SpecScanner { mode: SpecMode::InString, escaped: false, tmp: Seq::empty(), ..s })
            } else if c == ' ' || c == '\n' {
                Ok(s)
            } else if c == '(' {
                Ok(SpecScanner { tokens: s.tokens.push(TokenView { kind: TokenKind::OpenParen, line, col }), ..s })
            } else if c == ')' {
                Ok(SpecScanner { tokens: s.tokens.push(TokenView { kind: TokenKind::CloseParen, line, col }), ..s })
            } else if c == '{' {
                Ok(SpecScanner { tokens: s.tokens.push(TokenView { kind: TokenKind::OpenBrace, line, col }), ..s })
            } else if c == '}' {
                Ok(SpecScanner { tokens: s.tokens.push(TokenView { kind: TokenKind::CloseBrace, line, col }), ..s })
            } else if c == ';' {
                Ok(SpecScanner { tokens: s.tokens.push(TokenView { kind: TokenKind::Semicolon, line, col }), ..s })
            } else if c == ':' {
                Ok(SpecScanner { tokens: s.tokens.push(TokenView { kind: TokenKind::Colon, line, col }), ..s })
            } else {
                Ok(SpecScanner { mode: SpecMode::InRaw, tmp: seq![c], ..s })
            }
        },
        SpecMode::InRaw => {
            if c == ' ' {
                Ok(close_raw(s, line, col))
            } else if c == '\n' {
                let s2 = close_raw(s, line, col);
                Ok(
                    SpecScanner {
                        tokens: s2.tokens.push(TokenView { kind: TokenKind::LineEnd, line, col }),
                        ..s2
                    },
                )
            } else if c == '(' {
                let s2 = close_raw(s, line, col);
                Ok(SpecScanner { tokens: s2.tokens.push(TokenView { kind: TokenKind::OpenParen, line, col }), ..s2 })
            } else if c == ')' {
                let s2 = close_raw(s, line, col);
                Ok(SpecScanner { tokens: s2.tokens.push(TokenView { kind: TokenKind::CloseParen, line, col }), ..s2 })
            } else if c == '{' {
                let s2 = close_raw(s, line, col);
                Ok(SpecScanner { tokens: s2.tokens.push(TokenView { kind: TokenKind::OpenBrace, line, col }), ..s2 })
            } else if c == '}' {
                let s2 = close_raw(s, line, col);
                Ok(SpecScanner { tokens: s2.tokens.push(TokenView { kind: TokenKind::CloseBrace, line, col }), ..s2 })
            } else if c == ':' {
                let s2 = close_raw(s, line, col);
                Ok(SpecScanner { tokens: s2.tokens.push(TokenView { kind: TokenKind::Colon, line, col }), ..s2 })
            } else {
                // Any other character, a semicolon or a quote included,
                // extends the bare-word run.
                Ok(SpecScanner { tmp: s.tmp.push(c), ..s })
            }
        },
    }
}

/// What the lexer returns when the raw input is exhausted: a pending
/// quoted literal is an error, a pending bare-word run is closed, and
/// otherwise the tokens collected so far are the result.
pub open spec fn spec_lex_finish(s: SpecScanner, line: u32, col: u16) -> Result<
    Seq<TokenView>,
    ErrorView,
> {
    match s.mode {
        SpecMode::InString => Err(
            ErrorView { line, col, kind: ErrorKindView::UnexpectedEOF, expected: None },
        ),
        SpecMode::InRaw => Ok(close_raw(s, line, col).tokens),
        SpecMode::Outside => Ok(s.tokens),
    }
}

/// Runs the machine over the remaining raw input. Each step consumes one
/// raw character, or two where a comment delimiter needs one character of
/// lookahead.
pub open spec fn spec_lex_from(st: SpecLexer, input: Seq<char>) -> Result<Seq<TokenView>, ErrorView>
    decreases input.len(), 0int,
{
    if input.len() == 0 {
        spec_lex_finish(st.scan, st.line, st.col)
    } else {
        let c = input[0];
        match st.pp {
            SpecPp::LineComment => {
                if c == '\n' {
                    let st2 = SpecLexer { pp: SpecPp::Code, line: adv_line(st.line), col: 0, ..st };
                    spec_feed(st2, ' ', input.skip(1))
                } else {
                    spec_lex_from(SpecLexer { col: adv_col(st.col), ..st }, input.skip(1))
                }
            },
            SpecPp::BlockComment(level) => {
                if c == '*' && input.len() >= 2 && input[1] == '/' {
                    let pp2 = if level <= 1 {
                        SpecPp::Code
                    } else {
                        SpecPp::BlockComment((level - 1) as nat)
                    };
                    spec_lex_from(
                        SpecLexer { pp: pp2, col: adv_col(adv_col(st.col)), ..st },
                        input.skip(2),
                    )
                } else if c == '/' && input.len() >= 2 && input[1] == '*' {
                    spec_lex_from(
                        SpecLexer {
                            pp: SpecPp::BlockComment(level + 1),
                            col: adv_col(adv_col(st.col)),
                            ..st
                        },
                        input.skip(2),
                    )
                } else if c == '\n' {
                    spec_lex_from(
                        SpecLexer { line: adv_line(st.line), col: 0, ..st },
                        input.skip(1),
                    )
                } else {
                    spec_lex_from(SpecLexer { col: adv_col(st.col), ..st }, input.skip(1))
                }
            },
            SpecPp::Code => {
                if c == '\n' {
                    spec_feed(
                        SpecLexer { line: adv_line(st.line), col: 0, ..st },
                        '\n',
                        input.skip(1),
                    )
                } else if c == '\r' {
                    spec_lex_from(st, input.skip(1))
                } else if c == '/' && input.len() >= 2 && input[1] == '/' {
                    spec_lex_from(
                        SpecLexer {
                            pp: SpecPp::LineComment,
                            col: adv_col(adv_col(st.col)),
                            ..st
                        },
                        input.skip(2),
                    )
                } else if c == '/' && input.len() >= 2 && input[1] == '*' {
                    spec_lex_from(
                        SpecLexer {
                            pp: SpecPp::BlockComment(1),
                            col: adv_col(adv_col(st.col)),
                            ..st
                        },
                        input.skip(2),
                    )
                } else if c == '#' {
                    spec_lex_from(
                        SpecLexer { pp: SpecPp::LineComment, col: adv_col(st.col), ..st },
                        input.skip(1),
                    )
                } else if is_space_char(c) {
                    spec_feed(SpecLexer { col: adv_col(st.col), ..st }, ' ', input.skip(1))
                } else {
                    spec_feed(SpecLexer { col: adv_col(st.col), ..st }, c, input.skip(1))
                }
            },
        }
    }
}

/// Hands one logical character to the tokenizer and continues with the
/// rest of the raw input.
pub open spec fn spec_feed(st: SpecLexer, c: char, rest: Seq<char>) -> Result<
    Seq<TokenView>,
    ErrorView,
>
    decreases rest.len(), 1int,
{
    match spec_scan_step(st.scan, c, st.line, st.col) {
        Ok(sc) => spec_lex_from(SpecLexer { scan: sc, ..st }, rest),
        Err(e) => Err(e),
    }
}

/// The machine's initial state: line 1, column 0, between tokens, plain
/// code.
pub open spec fn initial_lexer() -> SpecLexer {
    SpecLexer {
        pp: SpecPp::Code,
        scan: SpecScanner {
            mode: SpecMode::Outside,
            escaped: false,
            tmp: Seq::empty(),
            tokens: Seq::empty(),
        },
        line: 1,
        col: 0,
    }
}

/// What lexing a whole text returns.
pub open spec fn spec_lex(input: Seq<char>) -> Result<Seq<TokenView>, ErrorView> {
    spec_lex_from(initial_lexer(), input)
}

// ---------------------------------------------------------------------------
// Executable lexer
// ---------------------------------------------------------------------------

/// Relies on `String::push`: appends the given character to the end of the
/// string.
#[verifier::external_body]
fn push_char(s: &mut String, c: char)
    ensures
        final(s)@ == old(s)@.push(c),
{
    s.push(c);
}

fn is_space(c: char) -> (b: bool)
    ensures
        b == is_space_char(c),
{
    c == ' ' || c == '\t' || c == '\n' || c == '\u{b}' || c == '\u{c}' || c == '\r' || c
        == '\u{85}' || c == '\u{a0}' || c == '\u{1680}' || c == '\u{2000}' || c == '\u{2001}' || c
        == '\u{2002}' || c == '\u{2003}' || c == '\u{2004}' || c == '\u{2005}' || c == '\u{2006}'
        || c == '\u{2007}' || c == '\u{2008}' || c == '\u{2009}' || c == '\u{200a}' || c
        == '\u{2028}' || c == '\u{2029}' || c == '\u{202f}' || c == '\u{205f}' || c == '\u{3000}'
}

fn col_next(col: u16) -> (r: u16)
    ensures
        r == adv_col(col),
{
    if col < u16::MAX {
        col + 1
    } else {
        col
    }
}

fn line_next(line: u32) -> (r: u32)
    ensures
        r == adv_line(line),
{
    if line < u32::MAX {
        line + 1
    } else {
        line
    }
}

enum LexerMode {
    Outside,
    InString,
    InRaw,
}

impl View for LexerMode {
    type V = SpecMode;

    closed spec fn view(&self) -> SpecMode {
        match self {
            LexerMode::Outside => SpecMode::Outside,
            LexerMode::InString => SpecMode::InString,
            LexerMode::InRaw => SpecMode::InRaw,
        }
    }
}

enum PreState {
    Code,
    LineComment,
    BlockComment(u64),
}

impl View for PreState {
    type V = SpecPp;

    closed spec fn view(&self) -> SpecPp {
        match self {
            PreState::Code => SpecPp::Code,
            PreState::LineComment => SpecPp::LineComment,
            PreState::BlockComment(level) => SpecPp::BlockComment(*level as nat),
        }
    }
}

struct Scanner {
    mode: LexerMode,
    escaped: bool,
    tmp: String,
    tokens: Vec<Token>,
}

impl View for Scanner {
    type V = SpecScanner;

    closed spec fn view(&self) -> SpecScanner {
        SpecScanner {
            mode: self.mode@,
            escaped: self.escaped,
            tmp: self.tmp@,
            tokens: tokens_view(self.tokens@),
        }
    }
}

proof fn lemma_tokens_view_push(ts: Seq<Token>, t: Token)
    ensures
        tokens_view(ts.push(t)) == tokens_view(ts).push(t@),
{
    assert(tokens_view(ts.push(t)) =~= tokens_view(ts).push(t@));
}

impl Scanner {
    /// Closes the pending bare-word run into a `RawLiteral` token.
    fn end_raw(&mut self, line: u32, col: u16)
        ensures
            final(self)@ == close_raw(old(self)@, line, col),
    {
        let text = self.tmp.clone();
        self.tmp = String::new();
        self.mode = LexerMode::Outside;
        let t = Token::new(line, col, TokenType::RawLiteral(text));
        proof {
            lemma_tokens_view_push(self.tokens@, t);
        }
        self.tokens.push(t);
    }

    /// Emits a single punctuation-class token.
    fn emit(&mut self, line: u32, col: u16, ty: TokenType)
        ensures
            final(self)@ == (SpecScanner {
                tokens: old(self)@.tokens.push(TokenView { kind: ty@, line, col }),
                ..old(self)@
            }),
    {
        let t = Token::new(line, col, ty);
        proof {
            lemma_tokens_view_push(self.tokens@, t);
        }
        self.tokens.push(t);
    }

    /// One tokenizer transition on a logical character; mirrors
    /// [`spec_scan_step`].
    fn step(&mut self, c: char, line: u32, col: u16) -> (r: Option<Error>)
        ensures
            match spec_scan_step(old(self)@, c, line, col) {
                Ok(s) => r is None && final(self)@ == s,
                Err(e) => r matches Some(err) && err@ == e,
            },
    {
        match self.mode {
            LexerMode::InString => {
                if self.escaped {
                    if c == '\\' {
                        push_char(&mut self.tmp, '\\');
                        self.escaped = false;
                        None
                    } else if c == 'n' {
                        push_char(&mut self.tmp, '\n');
                        self.escaped = false;
                        None
                    } else {
                        Some(Error::new(line, col, ErrorType::InvalidEscape(c), None))
                    }
                } else if c == '"' {
                    let text = self.tmp.clone();
                    self.tmp = String::new();
                    self.mode = LexerMode::Outside;
                    self.escaped = false;
                    let t = Token::new(line, col, TokenType::StringLiteral(text));
                    proof {
                        lemma_tokens_view_push(self.tokens@, t);
                    }
                    self.tokens.push(t);
                    None
                } else if c == '\\' {
                    self.escaped = true;
                    None
                } else {
                    push_char(&mut self.tmp, c);
                    None
                }
            },
            LexerMode::Outside => {
                if c == '"' {
                    self.mode = LexerMode::InString;
                    self.escaped = false;
                    self.tmp = String::new();
                    None
                } else if c == ' ' || c == '\n' {
                    None
                } else if c == '(' {
                    self.emit(line, col, TokenType::OpenParen);
                    None
                } else if c == ')' {
                    self.emit(line, col, TokenType::CloseParen);
                    None
                } else if c == '{' {
                    self.emit(line, col, TokenType::OpenBrace);
                    None
                } else if c == '}' {
                    self.emit(line, col, TokenType::CloseBrace);
                    None
                } else if c == ';' {
                    self.emit(line, col, TokenType::Semicolon);
                    None
                } else if c == ':' {
                    self.emit(line, col, TokenType::Colon);
                    None
                } else {
                    self.mode = LexerMode::InRaw;
                    self.tmp = String::new();
                    push_char(&mut self.tmp, c);
                    proof {
                        assert(self.tmp@ =~= seq![c]);
                    }
                    None
                }
            },
            LexerMode::InRaw => {
                if c == ' ' {
                    self.end_raw(line, col);
                    None
                } else if c == '\n' {
                    self.end_raw(line, col);
                    self.emit(line, col, TokenType::LineEnd);
                    None
                } else if c == '(' {
                    self.end_raw(line, col);
                    self.emit(line, col, TokenType::OpenParen);
                    None
                } else if c == ')' {
                    self.end_raw(line, col);
                    self.emit(line, col, TokenType::CloseParen);
                    None
                } else if c == '{' {
                    self.end_raw(line, col);
                    self.emit(line, col, TokenType::OpenBrace);
                    None
                } else if c == '}' {
                    self.end_raw(line, col);
                    self.emit(line, col, TokenType::CloseBrace);
                    None
                } else if c == ':' {
                    self.end_raw(line, col);
                    self.emit(line, col, TokenType::Colon);
                    None
                } else {
                    push_char(&mut self.tmp, c);
                    None
                }
            },
        }
    }

    /// End of input: mirrors [`spec_lex_finish`].
    fn finish(self, line: u32, col: u16) -> (r: Result<Vec<Token>, Error>)
        ensures
            match r {
                Ok(toks) => spec_lex_finish(self@, line, col) == Ok::<Seq<TokenView>, ErrorView>(
                    tokens_view(toks@),
                ),
                Err(e) => spec_lex_finish(self@, line, col) == Err::<Seq<TokenView>, ErrorView>(
                    e@,
                ),
            },
    {
        match self.mode {
            LexerMode::InString => Err(Error::new(line, col, ErrorType::UnexpectedEOF, None)),
            LexerMode::InRaw => {
                let mut s = self;
                s.end_raw(line, col);
                Ok(s.tokens)
            },
            LexerMode::Outside => Ok(self.tokens),
        }
    }
}

/// Lexes the whole input and returns the token sequence, or the first
/// lexical error. Returns exactly what the machine [`spec_lex`] returns on
/// the same text.
pub fn run(input: &str) -> (r: Result<Vec<Token>, Error>)
    ensures
        match r {
            Ok(toks) => spec_lex(input@) == Ok::<Seq<TokenView>, ErrorView>(tokens_view(toks@)),
            Err(e) => spec_lex(input@) == Err::<Seq<TokenView>, ErrorView>(e@),
        },
{
    let n = input.unicode_len();
    let mut i: usize = 0;
    let mut line: u32 = 1;
    let mut col: u16 = 0;
    let mut pre = PreState::Code;
    let mut scan = Scanner {
        mode: LexerMode::Outside,
        escaped: false,
        tmp: String::new(),
        tokens: Vec::new(),
    };
    proof {
        assert(input@.skip(0) =~= input@);
        assert(tokens_view(scan.tokens@) =~= Seq::<TokenView>::empty());
        assert(scan@ == initial_lexer().scan);
    }
    while i < n
        invariant
            n == input@.len(),
            i <= n,
            pre matches PreState::BlockComment(l) ==> 2 * (l as int) <= i as int,
            spec_lex_from(
                SpecLexer { pp: pre@, scan: scan@, line, col },
                input@.skip(i as int),
            ) == spec_lex(input@),
        decreases n - i,
    {
        let ghost rest = input@.skip(i as int);
        let ghost st0 = SpecLexer { pp: pre@, scan: scan@, line, col };
        let c = input.get_char(i);
        proof {
            assert(rest[0] == input@[i as int]);
            assert(rest.skip(1) =~= input@.skip(i as int + 1));
        }
        match pre {
            PreState::LineComment => {
                if c == '\n' {
                    line = line_next(line);
                    col = 0;
                    pre = PreState::Code;
                    let ghost st2 = SpecLexer {
                        pp: SpecPp::Code,
                        scan: st0.scan,
                        line: adv_line(st0.line),
                        col: 0,
                    };
                    proof {
                        assert(spec_lex_from(st0, rest) == spec_feed(st2, ' ', rest.skip(1)));
                    }
                    if let Some(e) = scan.step(' ', line, col) {
                        proof {
                            assert(spec_feed(st2, ' ', rest.skip(1)) == Err::<
                                Seq<TokenView>,
                                ErrorView,
                            >(e@));
                        }
                        return Err(e);
                    }
                    i = i + 1;
                    proof {
                        assert(spec_feed(st2, ' ', rest.skip(1)) == spec_lex_from(
                            SpecLexer { pp: pre@, scan: scan@, line, col },
                            input@.skip(i as int),
                        ));
                    }
                } else {
                    col = col_next(col);
                    i = i + 1;
                    proof {
                        assert(spec_lex_from(st0, rest) == spec_lex_from(
                            SpecLexer { pp: pre@, scan: scan@, line, col },
                            input@.skip(i as int),
                        ));
                    }
                }
            },
            PreState::BlockComment(level) => {
                let close = c == '*' && i + 1 < n && input.get_char(i + 1) == '/';
                let open = c == '/' && i + 1 < n && input.get_char(i + 1) == '*';
                proof {
                    if i + 1 < n {
                        assert(rest[1] == input@[i as int + 1]);
                        assert(rest.skip(2) =~= input@.skip(i as int + 2));
                    }
                }
                if close {
                    col = col_next(col);
                    col = col_next(col);
                    pre = if level <= 1 {
                        PreState::Code
                    } else {
                        PreState::BlockComment(level - 1)
                    };
                    i = i + 2;
                    proof {
                        assert(spec_lex_from(st0, rest) == spec_lex_from(
                            SpecLexer { pp: pre@, scan: scan@, line, col },
                            input@.skip(i as int),
                        ));
                    }
                } else if open {
                    col = col_next(col);
                    col = col_next(col);
                    pre = PreState::BlockComment(level + 1);
                    i = i + 2;
                    proof {
                        assert(spec_lex_from(st0, rest) == spec_lex_from(
                            SpecLexer { pp: pre@, scan: scan@, line, col },
                            input@.skip(i as int),
                        ));
                    }
                } else if c == '\n' {
                    line = line_next(line);
                    col = 0;
                    i = i + 1;
                    proof {
                        assert(spec_lex_from(st0, rest) == spec_lex_from(
                            SpecLexer { pp: pre@, scan: scan@, line, col },
                            input@.skip(i as int),
                        ));
                    }
                } else {
                    col = col_next(col);
                    i = i + 1;
                    proof {
                        assert(spec_lex_from(st0, rest) == spec_lex_from(
                            SpecLexer { pp: pre@, scan: scan@, line, col },
                            input@.skip(i as int),
                        ));
                    }
                }
            },
            PreState::Code => {
                if c == '\n' {
                    line = line_next(line);
                    col = 0;
                    let ghost st2 = SpecLexer {
                        pp: st0.pp,
                        scan: st0.scan,
                        line: adv_line(st0.line),
                        col: 0,
                    };
                    proof {
                        assert(spec_lex_from(st0, rest) == spec_feed(st2, '\n', rest.skip(1)));
                    }
                    if let Some(e) = scan.step('\n', line, col) {
                        proof {
                            assert(spec_feed(st2, '\n', rest.skip(1)) == Err::<
                                Seq<TokenView>,
                                ErrorView,
                            >(e@));
                        }
                        return Err(e);
                    }
                    i = i + 1;
                    proof {
                        assert(spec_feed(st2, '\n', rest.skip(1)) == spec_lex_from(
                            SpecLexer { pp: pre@, scan: scan@, line, col },
                            input@.skip(i as int),
                        ));
                    }
                } else if c == '\r' {
                    i = i + 1;
                    proof {
                        assert(spec_lex_from(st0, rest) == spec_lex_from(
                            SpecLexer { pp: pre@, scan: scan@, line, col },
                            input@.skip(i as int),
                        ));
                    }
                } else if c == '/' {
                    let follow = if i + 1 < n {
                        let d = input.get_char(i + 1);
                        if d == '/' {
                            1u8
                        } else if d == '*' {
                            2u8
                        } else {
                            0u8
                        }
                    } else {
                        0u8
                    };
                    proof {
                        if i + 1 < n {
                            assert(rest[1] == input@[i as int + 1]);
                            assert(rest.skip(2) =~= input@.skip(i as int + 2));
                        }
                    }
                    if follow == 1 {
                        col = col_next(col);
                        col = col_next(col);
                        pre = PreState::LineComment;
                        i = i + 2;
                        proof {
                            assert(spec_lex_from(st0, rest) == spec_lex_from(
                                SpecLexer { pp: pre@, scan: scan@, line, col },
                                input@.skip(i as int),
                            ));
                        }
                    } else if follow == 2 {
                        col = col_next(col);
                        col = col_next(col);
                        pre = PreState::BlockComment(1);
                        i = i + 2;
                        proof {
                            assert(spec_lex_from(st0, rest) == spec_lex_from(
                                SpecLexer { pp: pre@, scan: scan@, line, col },
                                input@.skip(i as int),
                            ));
                        }
                    } else {
                        col = col_next(col);
                        let ghost st2 = SpecLexer {
                            pp: st0.pp,
                            scan: st0.scan,
                            line: st0.line,
                            col: adv_col(st0.col),
                        };
                        proof {
                            assert(spec_lex_from(st0, rest) == spec_feed(st2, '/', rest.skip(1)));
                        }
                        if let Some(e) = scan.step('/', line, col) {
                            proof {
                                assert(spec_feed(st2, '/', rest.skip(1)) == Err::<
                                    Seq<TokenView>,
                                    ErrorView,
                                >(e@));
                            }
                            return Err(e);
                        }
                        i = i + 1;
                        proof {
                            assert(spec_feed(st2, '/', rest.skip(1)) == spec_lex_from(
                                SpecLexer { pp: pre@, scan: scan@, line, col },
                                input@.skip(i as int),
                            ));
                        }
                    }
                } else if c == '#' {
                    col = col_next(col);
                    pre = PreState::LineComment;
                    i = i + 1;
                    proof {
                        assert(spec_lex_from(st0, rest) == spec_lex_from(
                            SpecLexer { pp: pre@, scan: scan@, line, col },
                            input@.skip(i as int),
                        ));
                    }
                } else if is_space(c) {
                    col = col_next(col);
                    let ghost st2 = SpecLexer {
                        pp: st0.pp,
                        scan: st0.scan,
                        line: st0.line,
                        col: adv_col(st0.col),
                    };
                    proof {
                        assert(spec_lex_from(st0, rest) == spec_feed(st2, ' ', rest.skip(1)));
                    }
                    if let Some(e) = scan.step(' ', line, col) {
                        proof {
                            assert(spec_feed(st2, ' ', rest.skip(1)) == Err::<
                                Seq<TokenView>,
                                ErrorView,
                            >(e@));
                        }
                        return Err(e);
                    }
                    i = i + 1;
                    proof {
                        assert(spec_feed(st2, ' ', rest.skip(1)) == spec_lex_from(
                            SpecLexer { pp: pre@, scan: scan@, line, col },
                            input@.skip(i as int),
                        ));
                    }
                } else {
                    col = col_next(col);
                    let ghost st2 = SpecLexer {
                        pp: st0.pp,
                        scan: st0.scan,
                        line: st0.line,
                        col: adv_col(st0.col),
                    };
                    proof {
                        assert(spec_lex_from(st0, rest) == spec_feed(st2, c, rest.skip(1)));
                    }
                    if let Some(e) = scan.step(c, line, col) {
                        proof {
                            assert(spec_feed(st2, c, rest.skip(1)) == Err::<
                                Seq<TokenView>,
                                ErrorView,
                            >(e@));
                        }
                        return Err(e);
                    }
                    i = i + 1;
                    proof {
                        assert(spec_feed(st2, c, rest.skip(1)) == spec_lex_from(
                            SpecLexer { pp: pre@, scan: scan@, line, col },
                            input@.skip(i as int),
                        ));
                    }
                }
            },
        }
    }
    proof {
        assert(input@.skip(i as int) =~= Seq::<char>::empty());
    }
    scan.finish(line, col)
}

} // verus!
