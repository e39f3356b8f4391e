//! Tokens and the lexer that produces them from a byte source.
//!
//! The lexical grammar is stated as spec functions over the whole input and
//! an absolute position in it: `lexeme_at` says which token starts at a
//! position and where it ends, `line_at` and `col_at` say where a position
//! lies. The `Lexer` is proved to follow them one token at a time.

use vstd::prelude::*;

verus! {

/// The byte `(`.
pub const LEFT_PAREN: u8 = 0x28;

/// The byte `)`.
pub const RIGHT_PAREN: u8 = 0x29;

/// The byte `[`.
pub const LEFT_SQR_PAREN: u8 = 0x5b;

/// The byte `]`.
pub const RIGHT_SQR_PAREN: u8 = 0x5d;

/// The byte `:`, which starts a symbol.
pub const COLON: u8 = 0x3a;

/// The byte `"`, which starts and ends a string.
pub const QUOTE: u8 = 0x22;

/// The byte `\`, which escapes the byte behind it in a string.
pub const BACKSLASH: u8 = 0x5c;

/// The line feed.
pub const NEWLINE: u8 = 0x0a;

/// The closed set of token kinds. `Str`, `Name` and `Symbol` carry their text.
#[derive(Debug, PartialEq, Eq)]
pub enum TokenType {
    LeftParen,
    RightParen,
    LeftSqrParen,
    RightSqrParen,
    Whitespace,
    Unexpected,
    NewLine,
    Str(String),
    Name(String),
    Symbol(String),
}

/// The mathematical value of a `TokenType`: the same kinds, with the text as
/// a sequence of characters.
pub enum TokenKind {
    LeftParen,
    RightParen,
    LeftSqrParen,
    RightSqrParen,
    Whitespace,
    Unexpected,
    NewLine,
    Str(Seq<char>),
    Name(Seq<char>),
    Symbol(Seq<char>),
}

impl View for TokenType {
    type V = TokenKind;

    open spec fn view(&self) -> TokenKind {
        match self {
            TokenType::LeftParen => TokenKind::LeftParen,
            TokenType::RightParen => TokenKind::RightParen,
            TokenType::LeftSqrParen => TokenKind::LeftSqrParen,
            TokenType::RightSqrParen => TokenKind::RightSqrParen,
            TokenType::Whitespace => TokenKind::Whitespace,
            TokenType::Unexpected => TokenKind::Unexpected,
            TokenType::NewLine => TokenKind::NewLine,
            TokenType::Str(text) => TokenKind::Str(text@),
            TokenType::Name(text) => TokenKind::Name(text@),
            TokenType::Symbol(text) => TokenKind::Symbol(text@),
        }
    }
}

impl Clone for TokenType {
    fn clone(&self) -> (copy: Self)
        ensures
            copy == *self,
    {
        match self {
            TokenType::LeftParen => TokenType::LeftParen,
            TokenType::RightParen => TokenType::RightParen,
            TokenType::LeftSqrParen => TokenType::LeftSqrParen,
            TokenType::RightSqrParen => TokenType::RightSqrParen,
            TokenType::Whitespace => TokenType::Whitespace,
            TokenType::Unexpected => TokenType::Unexpected,
            TokenType::NewLine => TokenType::NewLine,
            TokenType::Str(text) => TokenType::Str(text.clone()),
            TokenType::Name(text) => TokenType::Name(text.clone()),
            TokenType::Symbol(text) => TokenType::Symbol(text.clone()),
        }
    }
}

/// Where a token stands in the source: the line and column at which it
/// starts and the line and column just behind its last byte. Lines and
/// columns count from 1.
#[derive(Debug, Clone, Copy, PartialEq, Eq, Structural)]
pub struct TokenMetadata {
    pub start_line: usize,
    pub start_col: usize,
    pub end_line: usize,
    pub end_col: usize,
}

impl TokenMetadata {
    /// The end is not before the start.
    pub open spec fn ordered(&self) -> bool {
        self.start_line < self.end_line || (self.start_line == self.end_line && self.start_col
            <= self.end_col)
    }
}

/// A classified piece of the source together with its position.
#[derive(Debug, PartialEq, Eq)]
pub struct Token {
    pub token_type: TokenType,
    pub metadata: TokenMetadata,
}

/// The mathematical value of a `Token`.
pub struct TokenView {
    pub token_type: TokenKind,
    pub metadata: TokenMetadata,
}

impl View for Token {
    type V = TokenView;

    open spec fn view(&self) -> TokenView {
        TokenView { token_type: self.token_type@, metadata: self.metadata }
    }
}

impl Clone for Token {
    fn clone(&self) -> (copy: Self)
        ensures
            copy == *self,
    {
        Token { token_type: self.token_type.clone(), metadata: self.metadata }
    }
}

/// Whether `b` is an ASCII letter.
pub open spec fn is_alpha(b: u8) -> bool {
    (0x41 <= b && b <= 0x5a) || (0x61 <= b && b <= 0x7a)
}

/// Whether `b` is ASCII whitespace: space, tab, line feed, form feed or
/// carriage return.
pub open spec fn is_space(b: u8) -> bool {
    b == 0x20 || b == 0x09 || b == 0x0a || b == 0x0c || b == 0x0d
}

/// The text that a run of source bytes stands for: each byte is read as the
/// character with the same code point.
pub open spec fn text_of(bytes: Seq<u8>) -> Seq<char> {
    bytes.map_values(|b: u8| b as char)
}

/// The first position at or behind `from` that holds no letter (the end of
/// the input if letters run up to it).
pub open spec fn alpha_end(input: Seq<u8>, from: nat) -> nat
    decreases input.len() - from,
{
    if from < input.len() && is_alpha(input[from as int]) {
        alpha_end(input, from + 1)
    } else {
        from
    }
}

/// Inside a string body that starts at `body`, the byte at `at` is escaped
/// when the byte before it belongs to the body and is a backslash.
pub open spec fn is_escaped(input: Seq<u8>, body: nat, at: nat) -> bool {
    body < at <= input.len() && input[at - 1] == BACKSLASH
}

/// Whether the byte at `at` stops a string body that starts at `body`: a
/// quote or a newline that is not escaped.
pub open spec fn stops_str(input: Seq<u8>, body: nat, at: nat) -> bool {
    &&& at < input.len()
    &&& input[at as int] == QUOTE || input[at as int] == NEWLINE
    &&& !is_escaped(input, body, at)
}

/// The first position at or behind `from` that stops the string body
/// starting at `body` (the end of the input if nothing stops it).
pub open spec fn str_end(input: Seq<u8>, body: nat, from: nat) -> nat
    decreases input.len() - from,
{
    if from >= input.len() {
        input.len()
    } else if stops_str(input, body, from) {
        from
    } else {
        str_end(input, body, from + 1)
    }
}

/// What the grammar makes of the input at one position: the kind of the
/// token that starts there and the position just behind it.
pub struct Lexeme {
    pub kind: TokenKind,
    pub end: nat,
}

/// The lexeme of a string whose opening quote stands just before `body`:
/// `Str` with the body's bytes where an unescaped quote closes it, and
/// `Unexpected` where an unescaped newline or the end of the input comes
/// first. The closing quote is consumed, the newline is not.
pub open spec fn str_lexeme(input: Seq<u8>, body: nat) -> Lexeme {
    let stop = str_end(input, body, body);
    if stop < input.len() && input[stop as int] == QUOTE {
        Lexeme { kind: TokenKind::Str(text_of(input.subrange(body as int, stop as int))), end: stop + 1 }
    } else {
        Lexeme { kind: TokenKind::Unexpected, end: stop }
    }
}

/// The lexical grammar: the token that starts at `pos`, or `None` at the end
/// of the input. The alternatives are tried in this order.
pub open spec fn lexeme_at(input: Seq<u8>, pos: nat) -> Option<Lexeme> {
    if pos >= input.len() {
        None
    } else {
        let b = input[pos as int];
        Some(
            if b == LEFT_PAREN {
                Lexeme { kind: TokenKind::LeftParen, end: pos + 1 }
            } else if b == RIGHT_PAREN {
                Lexeme { kind: TokenKind::RightParen, end: pos + 1 }
            } else if b == LEFT_SQR_PAREN {
                Lexeme { kind: TokenKind::LeftSqrParen, end: pos + 1 }
            } else if b == RIGHT_SQR_PAREN {
                Lexeme { kind: TokenKind::RightSqrParen, end: pos + 1 }
            } else if b == COLON {
                let end = alpha_end(input, pos + 1);
                Lexeme {
                    kind: TokenKind::Symbol(text_of(input.subrange((pos + 1) as int, end as int))),
                    end,
                }
            } else if b == QUOTE {
                str_lexeme(input, pos + 1)
            } else if is_alpha(b) {
                let end = alpha_end(input, pos);
                Lexeme { kind: TokenKind::Name(text_of(input.subrange(pos as int, end as int))), end }
            } else if b == NEWLINE {
                Lexeme { kind: TokenKind::NewLine, end: pos + 1 }
            } else if is_space(b) {
                Lexeme { kind: TokenKind::Whitespace, end: pos + 1 }
            } else {
                Lexeme { kind: TokenKind::Unexpected, end: pos + 1 }
            },
        )
    }
}

/// The line of position `pos`: one more than the number of newlines before it.
pub open spec fn line_at(input: Seq<u8>, pos: nat) -> nat
    decreases pos,
{
    if pos == 0 || pos > input.len() {
        1
    } else if input[pos - 1] == NEWLINE {
        line_at(input, (pos - 1) as nat) + 1
    } else {
        line_at(input, (pos - 1) as nat)
    }
}

/// The column of position `pos`: one more than the number of bytes between
/// the last newline before it (or the start of the input) and `pos`.
pub open spec fn col_at(input: Seq<u8>, pos: nat) -> nat
    decreases pos,
{
    if pos == 0 || pos > input.len() || input[pos - 1] == NEWLINE {
        1
    } else {
        col_at(input, (pos - 1) as nat) + 1
    }
}

/// The position record of a token that runs from `start` to `end`.
pub open spec fn span_of(input: Seq<u8>, start: nat, end: nat) -> TokenMetadata {
    TokenMetadata {
        start_line: line_at(input, start) as usize,
        start_col: col_at(input, start) as usize,
        end_line: line_at(input, end) as usize,
        end_col: col_at(input, end) as usize,
    }
}

/// Lines and columns never exceed the position by more than one.
pub proof fn lemma_position_bounds(input: Seq<u8>, pos: nat)
    ensures
        1 <= line_at(input, pos) <= pos + 1,
        1 <= col_at(input, pos) <= pos + 1,
    decreases pos,
{
    if pos > 0 {
        lemma_position_bounds(input, (pos - 1) as nat);
    }
}

/// Letters run from `from` up to `alpha_end`, which is the end of the input
/// or holds something else.
pub proof fn lemma_alpha_end(input: Seq<u8>, from: nat)
    requires
        from <= input.len(),
    ensures
        from <= alpha_end(input, from) <= input.len(),
        forall|i: int| from <= i < alpha_end(input, from) ==> is_alpha(#[trigger] input[i]),
        alpha_end(input, from) < input.len() ==> !is_alpha(input[alpha_end(input, from) as int]),
    decreases input.len() - from,
{
    if from < input.len() && is_alpha(input[from as int]) {
        lemma_alpha_end(input, from + 1);
    }
}

/// Nothing stops the string body between `from` and `str_end`, which is the
/// end of the input or a stop.
pub proof fn lemma_str_end(input: Seq<u8>, body: nat, from: nat)
    requires
        from <= input.len(),
    ensures
        from <= str_end(input, body, from) <= input.len(),
        forall|i: nat| from <= i < str_end(input, body, from) ==> !#[trigger] stops_str(input, body, i),
        str_end(input, body, from) < input.len() ==> stops_str(
            input,
            body,
            str_end(input, body, from),
        ),
    decreases input.len() - from,
{
    if from < input.len() && !stops_str(input, body, from) {
        lemma_str_end(input, body, from + 1);
    }
}

/// Every token takes at least one byte and ends inside the input.
pub proof fn lemma_lexeme_progress(input: Seq<u8>, pos: nat)
    requires
        pos < input.len(),
    ensures
        lexeme_at(input, pos) is Some,
        pos < lexeme_at(input, pos)->0.end <= input.len(),
{
    lemma_alpha_end(input, pos + 1);
    lemma_str_end(input, pos + 1, pos + 1);
}

/// The tokens of the input from `pos` on, in order, each with its position.
pub open spec fn tokens_from(input: Seq<u8>, pos: nat) -> Seq<TokenView>
    decreases input.len() - pos,
{
    match lexeme_at(input, pos) {
        None => Seq::empty(),
        Some(lexeme) => {
            proof {
                lemma_lexeme_progress(input, pos);
            }
            seq![TokenView { token_type: lexeme.kind, metadata: span_of(input, pos, lexeme.end) }]
                + tokens_from(input, lexeme.end)
        },
    }
}

/// The tokens lie one behind the other: each starts on the line and at the
/// column where the one before it ends, and none ends before it starts.
pub proof fn lemma_tokens_contiguous(input: Seq<u8>, pos: nat, index: int)
    requires
        pos <= input.len(),
        0 <= index < tokens_from(input, pos).len(),
    ensures
        tokens_from(input, pos)[0].metadata.start_line == line_at(input, pos) as usize,
        tokens_from(input, pos)[0].metadata.start_col == col_at(input, pos) as usize,
        index + 1 < tokens_from(input, pos).len() ==> {
            let token = tokens_from(input, pos)[index];
            let next = tokens_from(input, pos)[index + 1];
            next.metadata.start_line == token.metadata.end_line && next.metadata.start_col
                == token.metadata.end_col
        },
        input.len() < usize::MAX ==> tokens_from(input, pos)[index].metadata.ordered(),
    decreases index,
{
    lemma_lexeme_progress(input, pos);
    let end = lexeme_at(input, pos)->0.end;
    if index == 0 {
        lemma_span_ordered(input, pos, end);
        lemma_position_bounds(input, end);
    } else {
        lemma_tokens_contiguous(input, end, index - 1);
    }
}

/// The tokens of the whole input.
pub open spec fn tokens_of(input: Seq<u8>) -> Seq<TokenView> {
    tokens_from(input, 0)
}

/// `String::push` appends the given character to the end of the string.
pub assume_specification[ String::push ](text: &mut String, c: char)
    ensures
        final(text)@ == old(text)@.push(c),
;

/// Reads a byte source one token at a time, with one byte of lookahead. The
/// source is consumed front to back and never rewound.
pub struct Lexer {
    source: Vec<u8>,
    pos: usize,
    line: usize,
    col: usize,
}

impl Lexer {
    /// The whole byte source.
    pub closed spec fn input(&self) -> Seq<u8> {
        self.source@
    }

    /// How many bytes have been consumed.
    pub closed spec fn offset(&self) -> nat {
        self.pos as nat
    }

    /// The offset once the lookahead byte is consumed: one further, or the
    /// same at the end of the input.
    pub open spec fn after_lookahead(&self) -> nat {
        if self.offset() < self.input().len() {
            self.offset() + 1
        } else {
            self.offset()
        }
    }

    /// The line of the lookahead byte.
    pub closed spec fn line(&self) -> nat {
        self.line as nat
    }

    /// The column of the lookahead byte.
    pub closed spec fn col(&self) -> nat {
        self.col as nat
    }

    /// The lexer stands inside its input, and its line and column are those
    /// of the position that it has reached: the line is one more than the
    /// number of newlines consumed, and the column one more than the number
    /// of bytes consumed since the last of them.
    pub open spec fn wf(&self) -> bool {
        &&& self.offset() <= self.input().len() < usize::MAX
        &&& self.line() == line_at(self.input(), self.offset())
        &&& self.col() == col_at(self.input(), self.offset())
    }

    /// A lexer at the start of `source`, on line 1 and column 1. The source
    /// has to be shorter than the greatest `usize`, so that every line and
    /// column can be counted.
    pub fn new(source: Vec<u8>) -> (lexer: Lexer)
        requires
            source.len() < usize::MAX,
        ensures
            lexer.wf(),
            lexer.input() == source@,
            lexer.offset() == 0,
            lexer.line() == 1,
            lexer.col() == 1,
    {
        Lexer { source, pos: 0, line: 1, col: 1 }
    }

    fn peek(&self) -> (b: Option<u8>)
        requires
            self.wf(),
        ensures
            b == if self.offset() < self.input().len() {
                Some(self.input()[self.offset() as int])
            } else {
                None
            },
    {
        if self.pos < self.source.len() {
            Some(self.source[self.pos])
        } else {
            None
        }
    }

    /// The lookahead: the next byte as a character, without consuming it, or
    /// `None` at the end of the input.
    pub fn current_byte(&self) -> (c: Option<char>)
        requires
            self.wf(),
        ensures
            c == if self.offset() < self.input().len() {
                Some(self.input()[self.offset() as int] as char)
            } else {
                None
            },
    {
        match self.peek() {
            Some(b) => Some(b as char),
            None => None,
        }
    }

    /// Consumes the lookahead byte: the column advances by one, and a newline
    /// starts the next line at column 1. At the end of the input nothing
    /// changes.
    pub fn consume_current(&mut self)
        requires
            old(self).wf(),
        ensures
            final(self).wf(),
            final(self).input() == old(self).input(),
            final(self).offset() == old(self).after_lookahead(),
    {
        if self.pos < self.source.len() {
            proof {
                lemma_position_bounds(self.source@, self.pos as nat);
            }
            if self.source[self.pos] == NEWLINE {
                self.line = self.line + 1;
                self.col = 1;
            } else {
                self.col = self.col + 1;
            }
            self.pos = self.pos + 1;
        }
    }

    /// Consumes letters as long as the lookahead is one.
    fn read_letters(&mut self) -> (text: String)
        requires
            old(self).wf(),
        ensures
            final(self).wf(),
            final(self).input() == old(self).input(),
            final(self).offset() == alpha_end(old(self).input(), old(self).offset()),
            text@ == text_of(
                old(self).input().subrange(old(self).offset() as int, final(self).offset() as int),
            ),
    {
        let ghost input = self.source@;
        let ghost start = self.pos as nat;
        let mut text = String::new();
        loop
            invariant
                self.wf(),
                self.source@ == input,
                start <= self.pos <= input.len(),
                alpha_end(input, self.pos as nat) == alpha_end(input, start),
                text@ == text_of(input.subrange(start as int, self.pos as int)),
            ensures
                self.pos == alpha_end(input, start),
            decreases input.len() - self.pos,
        {
            match self.peek() {
                Some(b) if byte_is_alpha(b) => {
                    text.push(b as char);
                    self.consume_current();
                },
                _ => {
                    break ;
                },
            }
        }
        text
    }

    /// Reads a name: the letters from the lookahead on. The name is empty
    /// where the lookahead is no letter.
    pub fn read_name(&mut self) -> (token: TokenType)
        requires
            old(self).wf(),
        ensures
            final(self).wf(),
            final(self).input() == old(self).input(),
            final(self).offset() == alpha_end(old(self).input(), old(self).offset()),
            token@ == TokenKind::Name(
                text_of(
                    old(self).input().subrange(
                        old(self).offset() as int,
                        final(self).offset() as int,
                    ),
                ),
            ),
    {
        TokenType::Name(self.read_letters())
    }

    /// Reads a symbol: consumes the lookahead (the colon) and then the
    /// letters that follow it, which may be none.
    pub fn read_symbol(&mut self) -> (token: TokenType)
        requires
            old(self).wf(),
        ensures
            final(self).wf(),
            final(self).input() == old(self).input(),
            final(self).offset() == alpha_end(old(self).input(), old(self).after_lookahead()),
            token@ == TokenKind::Symbol(
                text_of(
                    old(self).input().subrange(
                        old(self).after_lookahead() as int,
                        final(self).offset() as int,
                    ),
                ),
            ),
    {
        self.consume_current();
        TokenType::Symbol(self.read_letters())
    }

    /// Reads a string: consumes the lookahead (the opening quote) and copies
    /// bytes up to the closing quote, which it consumes. A backslash is
    /// copied as it is and takes the special meaning from the byte after it.
    /// Where a newline or the end of the input comes before the closing
    /// quote, the token is `Unexpected` and the newline stays unconsumed.
    pub fn read_str(&mut self) -> (token: TokenType)
        requires
            old(self).wf(),
        ensures
            final(self).wf(),
            final(self).input() == old(self).input(),
            final(self).offset() == str_lexeme(old(self).input(), old(self).after_lookahead()).end,
            token@ == str_lexeme(old(self).input(), old(self).after_lookahead()).kind,
    {
        let ghost input = self.source@;
        let mut text = String::new();
        let mut esc = false;
        let mut closed = false;
        self.consume_current();
        let ghost body = self.pos as nat;
        loop
            invariant_except_break
                !closed,
                str_end(input, body, self.pos as nat) == str_end(input, body, body),
            invariant
                self.wf(),
                self.source@ == input,
                body <= self.pos <= input.len(),
                esc == is_escaped(input, body, self.pos as nat),
                !closed ==> text@ == text_of(input.subrange(body as int, self.pos as int)),
            ensures
                closed ==> self.pos == str_end(input, body, body) + 1 && self.pos - 1 < input.len()
                    && input[self.pos - 1] == QUOTE && text@ == text_of(
                    input.subrange(body as int, self.pos - 1),
                ),
                !closed ==> self.pos == str_end(input, body, body) && !(self.pos < input.len()
                    && input[self.pos as int] == QUOTE),
            decreases input.len() - self.pos,
        {
            match self.peek() {
                None => {
                    break ;
                },
                Some(b) => {
                    if b == QUOTE && !esc {
                        closed = true;
                        self.consume_current();
                        break ;
                    } else if b == NEWLINE && !esc {
                        break ;
                    } else {
                        text.push(b as char);
                        self.consume_current();
                        esc = b == BACKSLASH;
                    }
                },
            }
        }
        if closed {
            TokenType::Str(text)
        } else {
            TokenType::Unexpected
        }
    }

    /// Consumes the lookahead byte and hands `token` back.
    pub fn read_syntax(&mut self, token: TokenType) -> (read: Option<TokenType>)
        requires
            old(self).wf(),
        ensures
            final(self).wf(),
            final(self).input() == old(self).input(),
            final(self).offset() == old(self).after_lookahead(),
            read == Some(token),
    {
        self.consume_current();
        Some(token)
    }

    /// Reads the token that starts at the lookahead, as the lexical grammar
    /// has it, or `None` at the end of the input, where nothing changes.
    pub fn read_token(&mut self) -> (token: Option<TokenType>)
        requires
            old(self).wf(),
        ensures
            final(self).wf(),
            final(self).input() == old(self).input(),
            match lexeme_at(old(self).input(), old(self).offset()) {
                None => token is None && final(self).offset() == old(self).offset(),
                Some(lexeme) => token is Some && token->0@ == lexeme.kind && final(self).offset()
                    == lexeme.end,
            },
    {
        match self.peek() {
            None => None,
            Some(b) => {
                if b == LEFT_PAREN {
                    self.read_syntax(TokenType::LeftParen)
                } else if b == RIGHT_PAREN {
                    self.read_syntax(TokenType::RightParen)
                } else if b == LEFT_SQR_PAREN {
                    self.read_syntax(TokenType::LeftSqrParen)
                } else if b == RIGHT_SQR_PAREN {
                    self.read_syntax(TokenType::RightSqrParen)
                } else if b == COLON {
                    Some(self.read_symbol())
                } else if b == QUOTE {
                    Some(self.read_str())
                } else if byte_is_alpha(b) {
                    Some(self.read_name())
                } else if b == NEWLINE {
                    self.read_syntax(TokenType::NewLine)
                } else if byte_is_space(b) {
                    self.read_syntax(TokenType::Whitespace)
                } else {
                    self.read_syntax(TokenType::Unexpected)
                }
            },
        }
    }

    /// The next token with its position, or `None` once the input is used up.
    /// A token takes at least one byte; it starts where the one before it
    /// ended.
    pub fn next(&mut self) -> (token: Option<Token>)
        requires
            old(self).wf(),
        ensures
            final(self).wf(),
            final(self).input() == old(self).input(),
            match lexeme_at(old(self).input(), old(self).offset()) {
                None => token is None && final(self).offset() == old(self).offset(),
                Some(lexeme) => {
                    &&& token is Some
                    &&& token->0@.token_type == lexeme.kind
                    &&& token->0@.metadata == span_of(
                        old(self).input(),
                        old(self).offset(),
                        lexeme.end,
                    )
                    &&& token->0@.metadata.ordered()
                    &&& final(self).offset() == lexeme.end
                    &&& old(self).offset() < lexeme.end <= old(self).input().len()
                },
            },
    {
        let start_line = self.line;
        let start_col = self.col;
        let ghost input = self.source@;
        let ghost start = self.pos as nat;
        match self.read_token() {
            None => None,
            Some(token_type) => {
                proof {
                    lemma_lexeme_progress(input, start);
                    lemma_span_ordered(input, start, self.pos as nat);
                }
                Some(
                    Token {
                        token_type,
                        metadata: TokenMetadata {
                            start_line,
                            start_col,
                            end_line: self.line,
                            end_col: self.col,
                        },
                    },
                )
            },
        }
    }
}

/// Decides whether a byte is an ASCII letter.
pub fn byte_is_alpha(b: u8) -> (alpha: bool)
    ensures
        alpha == is_alpha(b),
{
    (0x41 <= b && b <= 0x5a) || (0x61 <= b && b <= 0x7a)
}

/// Decides whether a byte is ASCII whitespace.
pub fn byte_is_space(b: u8) -> (space: bool)
    ensures
        space == is_space(b),
{
    b == 0x20 || b == 0x09 || b == 0x0a || b == 0x0c || b == 0x0d
}

/// Positions are ordered as the offsets are: a later offset is on a later
/// line, or on the same line at a later column.
pub proof fn lemma_span_ordered(input: Seq<u8>, start: nat, end: nat)
    requires
        start <= end <= input.len(),
    ensures
        line_at(input, start) < line_at(input, end) || (line_at(input, start) == line_at(
            input,
            end,
        ) && col_at(input, end) == col_at(input, start) + (end - start)),
    decreases end - start,
{
    if start < end {
        lemma_span_ordered(input, start, (end - 1) as nat);
    }
}

} // verus!
