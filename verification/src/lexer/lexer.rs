//! The lexer itself: a cursor over the source that hands out one token per
//! call and keeps the line and column of the character it stands at.
use vstd::prelude::*;
use vstd::utf8::*;
use crate::lexer::error::{LexerError, LexerErrorType};
use crate::lexer::grammar;
use crate::text;
use crate::token::{self, Token, TokenType};

verus! {

pub struct Lexer<'a> {
    ch: char,
    position: usize,
    read_position: usize,
    line: usize,
    column: usize,
    input: &'a str,
    errors: Vec<LexerError>,
    /// Index of the character at `position`.
    index: Ghost<int>,
}

impl<'a> Lexer<'a> {
    /// The source text.
    pub closed spec fn source(&self) -> Seq<char> {
        self.input@
    }

    /// Index of the character the lexer stands at.
    pub closed spec fn cursor(&self) -> int {
        self.index@
    }

    /// The errors recorded so far, oldest first.
    pub closed spec fn recorded(&self) -> Seq<LexerError> {
        self.errors@
    }

    /// The state `new` sets up before it reads the first character: the lexer
    /// stands just before the text, on a NUL of its own.
    closed spec fn fresh(&self) -> bool {
        &&& encode_utf8(self.input@).len() < usize::MAX
        &&& self.index@ == -1
        &&& self.position == 0
        &&& self.read_position == 0
        &&& self.ch == '\0'
        &&& self.line == 1
        &&& self.column == 0
        &&& self.errors@.len() == 0
    }

    /// The lexer's fields agree with its cursor: `position` is the byte
    /// offset of the character at the cursor, `read_position` that of the
    /// next one, `ch` the character at the
    /// cursor (NUL at the end), `line` and `column` its place in the text;
    /// and every recorded error carries an illegal token.
    pub closed spec fn wf(&self) -> bool {
        let cs = self.input@;
        let i = self.index@;
        let b = encode_utf8(cs);
        &&& b.len() < usize::MAX
        &&& 0 <= i <= cs.len()
        &&& self.position as int == text::byte_offset(cs, i)
        &&& self.line as int == grammar::line_at(cs, i)
        &&& self.column as int == grammar::column_at(cs, i)
        &&& forall|k: int|
            0 <= k < self.errors@.len() ==> (#[trigger] self.errors@[k]).token.token_type
                == TokenType::Illegal
        &&& if i < cs.len() {
            &&& self.ch == cs[i]
            &&& self.read_position as int == text::byte_offset(cs, i + 1)
        } else {
            &&& self.ch == '\0'
            &&& self.read_position == self.position
        }
    }

    /// In a well-formed lexer the cursor lies within the source, and every
    /// recorded error carries an illegal token.
    pub proof fn lemma_well_formed(&self)
        requires
            self.wf(),
        ensures
            0 <= self.cursor() <= self.source().len(),
            encode_utf8(self.source()).len() < usize::MAX,
            forall|k: int|
                0 <= k < self.recorded().len() ==> (#[trigger] self.recorded()[k]).token.token_type
                    == TokenType::Illegal,
    {
    }

    /// `after` is this lexer moved on by one call that returned `token`: the
    /// token and the new position are what the grammar gives for the current
    /// position, and an error is recorded exactly for an illegal token.
    pub open spec fn lexed(self, after: Self, token: Token) -> bool {
        let st = grammar::lex_step(self.source(), self.cursor());
        &&& after.source() == self.source()
        &&& token == grammar::step_token(self.source(), st)
        &&& after.cursor() == st.next
        &&& after.recorded() == match st.error {
            Some(e) => self.recorded().push(LexerError { token, error: e }),
            None => self.recorded(),
        }
    }

    pub fn new(input: &'a str) -> (lexer: Lexer<'a>)
        requires
            encode_utf8(input@).len() < usize::MAX,
        ensures
            lexer.wf(),
            lexer.source() == input@,
            lexer.cursor() == 0,
            lexer.recorded() == Seq::<LexerError>::empty(),
    {
        let mut lexer = Lexer {
            input,
            position: 0,
            read_position: 0,
            ch: '\0',
            line: 1,
            column: 0,
            errors: Vec::new(),
            index: Ghost(-1),
        };
        lexer.read_char();
        lexer
    }

    /// Returns the current line number.
    pub fn line(&self) -> (line: usize)
        requires
            self.wf(),
        ensures
            line as int == grammar::line_at(self.source(), self.cursor()),
    {
        self.line
    }

    /// Returns the current column number.
    pub fn column(&self) -> (column: usize)
        requires
            self.wf(),
        ensures
            column as int == grammar::column_at(self.source(), self.cursor()),
    {
        self.column
    }

    /// Returns a slice of all errors encountered during lexing.
    pub fn errors(&self) -> (errors: &[LexerError])
        ensures
            errors@ == self.recorded(),
    {
        self.errors.as_slice()
    }

    /// Returns the next token from the input.
    /// Note: Simple tokens rely on the trailing `self.read_char()` call,
    /// while complex tokens (strings, identifiers, numbers) intentionally return early.
    #[verifier::rlimit(100)]
    #[verifier::spinoff_prover]
    pub fn next_token(&mut self) -> (token: Token)
        requires
            old(self).wf(),
        ensures
            final(self).wf(),
            old(self).lexed(*final(self), token),
    {
        proof {
            reveal(grammar::lex_step);
        }
        self.skip_whitespace();
        let ghost cs = self.input@;
        let ghost n = cs.len() as int;
        let ghost w = self.index@;
        proof {
            text::lemma_encode_subrange(cs, 0, n);
            if w < n {
                text::lemma_offset_step(cs, w);
                text::lemma_width_bounds(cs[w]);
                text::lemma_offset_monotonic(cs, w + 1, n);
                if w + 1 < n {
                    text::lemma_offset_step(cs, w + 1);
                    text::lemma_width_bounds(cs[w + 1]);
                }
            }
        }
        let token = match self.ch {
            '\0' => Token::new(TokenType::EOF, self.position, self.position),
            '(' => Token::new(TokenType::LParen, self.position, self.position + 1),
            ')' => Token::new(TokenType::RParen, self.position, self.position + 1),
            '{' => Token::new(TokenType::LBrace, self.position, self.position + 1),
            '}' => Token::new(TokenType::RBrace, self.position, self.position + 1),
            '[' => Token::new(TokenType::LBrack, self.position, self.position + 1),
            ']' => Token::new(TokenType::RBrack, self.position, self.position + 1),
            ',' => Token::new(TokenType::Comma, self.position, self.position + 1),
            ';' => Token::new(TokenType::Semicolon, self.position, self.position + 1),
            '.' => Token::new(TokenType::Dot, self.position, self.position + 1),
            '+' => Token::new(TokenType::Plus, self.position, self.position + 1),
            '-' => Token::new(TokenType::Minus, self.position, self.position + 1),
            '/' => Token::new(TokenType::Slash, self.position, self.position + 1),
            '#' => Token::new(TokenType::Comment, self.position, self.read_comment()),
            '=' => match self.peek_ascii_char() {
                '=' => Token::new(TokenType::Eq, self.position, self.read_operator()),
                '>' => Token::new(TokenType::HashRocket, self.position, self.read_operator()),
                _ => Token::new(TokenType::Assign, self.position, self.position + 1),
            },
            '!' => match self.peek_ascii_char() {
                '=' => Token::new(TokenType::NotEq, self.position, self.read_operator()),
                _ => Token::new(TokenType::Bang, self.position, self.position + 1),
            },
            '<' => match self.peek_ascii_char() {
                '=' => Token::new(TokenType::LTE, self.position, self.read_operator()),
                _ => Token::new(TokenType::LT, self.position, self.position + 1),
            },
            '>' => match self.peek_ascii_char() {
                '=' => Token::new(TokenType::GTE, self.position, self.read_operator()),
                _ => Token::new(TokenType::GT, self.position, self.position + 1),
            },
            '*' => match self.peek_ascii_char() {
                '*' => Token::new(TokenType::Power, self.position, self.read_operator()),
                _ => Token::new(TokenType::Asterisk, self.position, self.position + 1),
            },
            '&' => match self.peek_ascii_char() {
                '&' => Token::new(TokenType::And, self.position, self.read_operator()),
                _ => self.record_illegal_token(
                    self.position,
                    self.position + 1,
                    LexerErrorType::UnexpectedCharacter,
                ),
            },
            '|' => match self.peek_ascii_char() {
                '|' => Token::new(TokenType::Or, self.position, self.read_operator()),
                _ => self.record_illegal_token(
                    self.position,
                    self.position + 1,
                    LexerErrorType::UnexpectedCharacter,
                ),
            },
            '"' => {
                return match self.read_string() {
                    Ok(start) => Token::new(TokenType::String, start, self.position),
                    Err((error_type, start)) => {
                        self.record_illegal_token(start, self.position, error_type)
                    },
                };
            },
            ':' => {
                return match self.read_symbol() {
                    Ok(start) => Token::new(TokenType::Symbol, start, self.position),
                    Err((error_type, start)) => {
                        self.record_illegal_token(start, self.position, error_type)
                    },
                };
            },
            _ => {
                // Determine if it's an identifier or a number
                if text::is_alphabetic(self.ch) || self.ch == '_' {
                    let start = self.position;
                    let literal = self.read_identifier();
                    // Check for illegal identifiers starting with underscore followed by a digit
                    if Self::underscores_then_numeric(literal) {
                        return self.record_illegal_token(
                            start,
                            self.position,
                            LexerErrorType::InvalidNumber,
                        );
                    }
                    // Check if the identifier is followed by a colon, indicating a symbol key
                    if self.ch == ':' {
                        self.read_char(); // Advance past the colon
                        return Token::new(TokenType::SymbolKey, start, self.position);
                    }
                    // Return the identifier which may also be a reserved keyword
                    return Token::new(token::lookup_identifier(literal), start, self.position);
                } else if text::is_ascii_digit(self.ch) {
                    return match self.read_number() {
                        Ok((token_type, start)) => Token::new(token_type, start, self.position),
                        Err((error_type, start)) => {
                            self.record_illegal_token(start, self.position, error_type)
                        },
                    };
                } else {
                    let width = text::utf8_len(self.ch);
                    self.record_illegal_token(
                        self.position,
                        self.position + width,
                        LexerErrorType::UnexpectedCharacter,
                    )
                }
            },
        };
        self.read_char();
        token
    }

    /// The next token, or `None` at the end of input.
    pub fn next(&mut self) -> (item: Option<Token>)
        requires
            old(self).wf(),
        ensures
            final(self).wf(),
            ({
                let token = grammar::step_token(
                    old(self).source(),
                    grammar::lex_step(old(self).source(), old(self).cursor()),
                );
                &&& old(self).lexed(*final(self), token)
                &&& item == if token.token_type == TokenType::EOF {
                    None
                } else {
                    Some(token)
                }
            }),
    {
        let token = self.next_token();
        if token.token_type == TokenType::EOF {
            None
        } else {
            Some(token)
        }
    }

    /// Reads the next character and advances the lexer's positions.
    /// Handles both ASCII and Unicode characters.
    fn read_char(&mut self)
        requires
            old(self).wf() || old(self).fresh(),
        ensures
            final(self).wf(),
            final(self).position == old(self).read_position,
            final(self).input == old(self).input,
            final(self).errors@ == old(self).errors@,
            final(self).index@ == grammar::advance(old(self).input@, old(self).index@),
    {
        let ghost cs = self.input@;
        let ghost n = cs.len() as int;
        let ghost i = self.index@;
        proof {
            text::lemma_encode_subrange(cs, 0, n);
            text::lemma_encode_subrange(cs, 0, 0);
            assert(cs.subrange(0, 0) =~= Seq::<char>::empty());
            grammar::lemma_position_counts(cs, i + 1);
            text::lemma_offset_monotonic(cs, 0, n);
            if i < n {
                text::lemma_offset_monotonic(cs, i + 1, n);
            }
        }
        // A newline ends its line: the line count moves on when leaving it.
        if self.ch == '\n' {
            self.line += 1;
            self.column = 0;
        }
        if self.read_position >= self.input.len() {
            self.ch = '\0';
            self.position = self.read_position;
            self.index = Ghost(grammar::advance(cs, i));
            return;
        }
        self.position = self.read_position;
        self.column += 1;
        proof {
            text::lemma_bytes_at(cs, i + 1);
            text::lemma_offset_step(cs, i + 1);
        }
        let byte = self.input.as_bytes()[self.read_position];
        if byte < 128 {
            self.ch = byte as char;
            self.read_position += 1;
        } else {
            let ch = text::char_at_offset(self.input, self.read_position, Ghost(i + 1));
            self.ch = ch;
            self.read_position += text::utf8_len(ch);
        }
        self.index = Ghost(i + 1);
    }

    /// Reads the next ASCII character and advances the lexer's positions.
    /// Use this optimization when you know the next character is ASCII (operators, numbers).
    /// It ends in the state `read_char` would reach (see `lemma_state_determined`).
    fn read_ascii_char(&mut self)
        requires
            old(self).wf(),
            old(self).index@ + 1 >= old(self).input@.len()
                || (old(self).input@[old(self).index@ + 1] as u32) < 0x80,
        ensures
            final(self).wf(),
            final(self).position == old(self).read_position,
            final(self).input == old(self).input,
            final(self).errors@ == old(self).errors@,
            final(self).index@ == grammar::advance(old(self).input@, old(self).index@),
    {
        let ghost cs = self.input@;
        let ghost n = cs.len() as int;
        let ghost i = self.index@;
        proof {
            text::lemma_encode_subrange(cs, 0, n);
            grammar::lemma_position_counts(cs, i + 1);
            text::lemma_offset_monotonic(cs, 0, n);
            if i < n {
                text::lemma_offset_monotonic(cs, i + 1, n);
            }
        }
        if self.ch == '\n' {
            self.line += 1;
            self.column = 0;
        }
        if self.read_position >= self.input.len() {
            self.ch = '\0';
            self.position = self.read_position;
            self.index = Ghost(grammar::advance(cs, i));
            return;
        }
        proof {
            text::lemma_bytes_at(cs, i + 1);
        }
        self.ch = self.input.as_bytes()[self.read_position] as char;
        self.position = self.read_position;
        self.read_position += 1;
        self.column += 1;
        self.index = Ghost(i + 1);
        proof {
            text::lemma_offset_step(cs, i + 1);
        }
    }

    /// A well-formed lexer is fixed by its source and its cursor: two such
    /// lexers at the same index agree on every field. So `read_ascii_char`,
    /// where it may be called, ends exactly where `read_char` would.
    proof fn lemma_state_determined(a: &Self, b: &Self)
        requires
            a.wf(),
            b.wf(),
            a.input == b.input,
            a.index@ == b.index@,
        ensures
            a.ch == b.ch,
            a.position == b.position,
            a.read_position == b.read_position,
            a.line == b.line,
            a.column == b.column,
    {
    }

    /// Peeks at the next ASCII character without advancing the lexer's position.
    /// Returns the next character or '\0' if at the end of input.
    fn peek_ascii_char(&self) -> (c: char)
        requires
            self.wf(),
        ensures
            c == if self.index@ + 1 >= self.input@.len() {
                '\0'
            } else {
                (encode_utf8(self.input@)[text::byte_offset(self.input@, self.index@ + 1)] as char)
            },
            (c as u32) < 0x80 ==> c == grammar::char_at(self.input@, self.index@ + 1),
            (c as u32) >= 0x80 ==> (grammar::char_at(self.input@, self.index@ + 1) as u32) >= 0x80,
    {
        let ghost cs = self.input@;
        let ghost n = cs.len() as int;
        let ghost i = self.index@;
        proof {
            text::lemma_encode_subrange(cs, 0, n);
            text::lemma_offset_monotonic(cs, 0, n);
            if i < n {
                text::lemma_offset_monotonic(cs, i + 1, n);
            }
        }
        if self.read_position >= self.input.len() {
            '\0'
        } else {
            proof {
                text::lemma_bytes_at(cs, i + 1);
            }
            self.input.as_bytes()[self.read_position] as char
        }
    }

    /// Peeks at the next Unicode character without advancing the lexer's position.
    /// Returns the next character or '\0' if at the end of input.
    fn peek_unicode_char(&self) -> (c: char)
        requires
            self.wf(),
        ensures
            c == grammar::char_at(self.input@, self.index@ + 1),
    {
        let ghost cs = self.input@;
        let ghost n = cs.len() as int;
        let ghost i = self.index@;
        proof {
            text::lemma_encode_subrange(cs, 0, n);
            text::lemma_offset_monotonic(cs, 0, n);
            if i < n {
                text::lemma_offset_monotonic(cs, i + 1, n);
            }
        }
        if self.read_position >= self.input.len() {
            '\0'
        } else {
            text::char_at_offset(self.input, self.read_position, Ghost(i + 1))
        }
    }

    /// Reads characters until a non-whitespace character is found.
    fn skip_whitespace(&mut self)
        requires
            old(self).wf(),
        ensures
            final(self).wf(),
            final(self).input == old(self).input,
            final(self).errors@ == old(self).errors@,
            final(self).index@ == grammar::whitespace_end(old(self).input@, old(self).index@),
    {
        let ghost start = self.index@;
        while Self::is_whitespace(self.ch)
            invariant
                self.wf(),
                self.input == old(self).input,
                self.errors@ == old(self).errors@,
                grammar::whitespace_end(self.input@, self.index@) == grammar::whitespace_end(
                    self.input@,
                    start,
                ),
            decreases self.input@.len() - self.index@,
        {
            self.read_char();
        }
    }

    /// Reads an identifier from the input.
    /// Returns the identifier as a &str slice.
    fn read_identifier(&mut self) -> (word: &'a str)
        requires
            old(self).wf(),
        ensures
            final(self).wf(),
            final(self).input == old(self).input,
            final(self).errors@ == old(self).errors@,
            final(self).index@ == grammar::ident_end(old(self).input@, old(self).index@),
            word@ == old(self).input@.subrange(old(self).index@, final(self).index@),
    {
        let ghost cs = self.input@;
        let ghost start = self.index@;
        let position = self.position;
        proof {
            text::lemma_encode_subrange(cs, 0, cs.len() as int);
            text::lemma_offset_monotonic(cs, 0, cs.len() as int);
        }
        while text::is_alphanumeric(self.ch) || self.ch == '_'
            invariant
                self.wf(),
                self.input == old(self).input,
                self.errors@ == old(self).errors@,
                cs == self.input@,
                start == old(self).index@,
                start <= self.index@,
                grammar::ident_run_end(cs, self.index@) == grammar::ident_run_end(cs, start),
                encode_utf8(cs).len() == text::byte_offset(cs, cs.len() as int),
            decreases cs.len() - self.index@,
        {
            proof {
                text::lemma_offset_monotonic(cs, self.index@, cs.len() as int);
            }
            self.read_char();
        }
        proof {
            text::lemma_offset_monotonic(cs, self.index@, cs.len() as int);
        }
        if Self::is_suffix_char(self.ch) {
            self.read_char();
        }
        text::substring(self.input, position, self.position, Ghost(start), Ghost(self.index@))
    }

    /// Whether `word` is one or more underscores followed by a numeric
    /// character, as in `_1`.
    fn underscores_then_numeric(word: &str) -> (r: bool)
        ensures
            r == grammar::underscore_then_numeric(word@),
    {
        let ghost w = word@;
        let bytes = word.as_bytes();
        proof {
            text::lemma_encode_subrange(w, 0, w.len() as int);
            text::lemma_encode_subrange(w, 0, 0);
            assert(w.subrange(0, 0) =~= Seq::<char>::empty());
            if w.len() > 0 {
                text::lemma_bytes_at(w, 0);
                text::lemma_offset_step(w, 0);
                text::lemma_width_bounds(w[0]);
            }
        }
        if bytes.len() == 0 || bytes[0] != 95 {
            return false;
        }
        let mut k: usize = 1;
        while k < bytes.len() && bytes[k] == 95
            invariant
                w == word@,
                bytes@ == encode_utf8(w),
                bytes@.len() == text::byte_offset(w, w.len() as int),
                1 <= k <= w.len(),
                k as int == text::byte_offset(w, k as int),
                w[0] == '_',
                grammar::underscore_run_end(w, k as int) == grammar::underscore_run_end(w, 0),
            decreases w.len() - k,
        {
            proof {
                text::lemma_offset_monotonic(w, k as int, w.len() as int);
                text::lemma_bytes_at(w, k as int);
                text::lemma_offset_step(w, k as int);
                text::lemma_width_bounds(w[k as int]);
            }
            k = k + 1;
        }
        proof {
            text::lemma_offset_monotonic(w, k as int, w.len() as int);
            if k < w.len() {
                text::lemma_bytes_at(w, k as int);
            }
        }
        if k == bytes.len() {
            return false;
        }
        let c = text::char_at_offset(word, k, Ghost(k as int));
        text::is_numeric(c)
    }

    /// Reads a number (integer or float).
    /// Returns its TokenType and start position.
    fn read_number(&mut self) -> (r: Result<(TokenType, usize), (LexerErrorType, usize)>)
        requires
            old(self).wf(),
            old(self).index@ < old(self).input@.len(),
            grammar::is_digit(old(self).input@[old(self).index@]),
        ensures
            final(self).wf(),
            final(self).input == old(self).input,
            final(self).errors@ == old(self).errors@,
            ({
                let st = grammar::number_step(old(self).input@, old(self).index@);
                &&& st.begin == old(self).index@
                &&& st.finish == st.next
                &&& (st.error is Some ==> st.token_type == TokenType::Illegal)
                &&& final(self).index@ == st.next
                &&& r == (match st.error {
                    None => Ok((st.token_type, old(self).position)),
                    Some(e) => Err((e, old(self).position)),
                })
            }),
    {
        reveal(grammar::number_step);
        let ghost cs = self.input@;
        let start = self.position;
        // Read integer part and check for errors
        let integer_part_valid = self.read_number_part();
        // Check if we have a decimal point followed by a digit
        if self.ch == '.' && text::is_ascii_digit(self.peek_ascii_char()) {
            self.read_ascii_char(); // consume '.'
            let decimal_part_valid = self.read_number_part();
            if integer_part_valid && decimal_part_valid {
                return Ok((TokenType::Float, start));
            } else {
                return Err((LexerErrorType::InvalidNumber, start));
            }
        }
        if integer_part_valid {
            Ok((TokenType::Integer, start))
        } else {
            Err((LexerErrorType::InvalidNumber, start))
        }
    }

    // Helper method to read a sequence of digits with optional underscores
    // Returns false if the sequence is invalid (consecutive underscores or trailing underscore)
    fn read_number_part(&mut self) -> (valid: bool)
        requires
            old(self).wf(),
        ensures
            final(self).wf(),
            final(self).input == old(self).input,
            final(self).errors@ == old(self).errors@,
            final(self).index@ == grammar::digit_run_end(old(self).input@, old(self).index@),
            valid == grammar::number_part_valid(old(self).input@, old(self).index@, final(self).index@),
    {
        let ghost cs = self.input@;
        let ghost start = self.index@;
        let mut last_was_underscore = false;
        let mut has_digits = false;
        while text::is_ascii_digit(self.ch) || self.ch == '_'
            invariant
                self.wf(),
                self.input == old(self).input,
                self.errors@ == old(self).errors@,
                cs == self.input@,
                start == old(self).index@,
                start <= self.index@,
                grammar::digit_run_end(cs, self.index@) == grammar::digit_run_end(cs, start),
                has_digits ==> self.index@ > start,
                self.index@ > start && cs[self.index@ - 1] != '_' ==> has_digits,
                last_was_underscore == (self.index@ > start && cs[self.index@ - 1] == '_'),
                forall|k: int| start <= k < self.index@ - 1 ==> !(#[trigger] cs[k] == '_' && cs[k + 1] == '_'),
            decreases cs.len() - self.index@,
        {
            if self.ch == '_' {
                if last_was_underscore {
                    // Consecutive underscores - consume rest of number and mark as invalid
                    let ghost pair = self.index@ - 1;
                    while text::is_ascii_digit(self.ch) || self.ch == '_'
                        invariant
                            self.wf(),
                            self.input == old(self).input,
                            self.errors@ == old(self).errors@,
                            cs == self.input@,
                            start == old(self).index@,
                            start <= pair,
                            pair + 1 < self.index@ || (pair + 1 == self.index@ && self.ch == '_'),
                            cs[pair] == '_' && cs[pair + 1] == '_',
                            grammar::digit_run_end(cs, self.index@) == grammar::digit_run_end(cs, start),
                        decreases cs.len() - self.index@,
                    {
                        self.read_char();
                    }
                    assert(grammar::digit_run_end(cs, self.index@) == self.index@);
                    assert(!grammar::number_part_valid(cs, start, self.index@)) by {
                        assert(cs[pair] == '_' && cs[pair + 1] == '_');
                    }
                    return false;
                }
                last_was_underscore = true;
            } else {
                last_was_underscore = false;
                has_digits = true;
            }
            self.read_char();
        }
        // Number part ending with underscore is invalid
        !last_was_underscore && has_digits
    }

    /// Reads a string literal, handling escaped quotes.
    /// Returns the start position of the string.
    fn read_string(&mut self) -> (r: Result<usize, (LexerErrorType, usize)>)
        requires
            old(self).wf(),
            old(self).index@ < old(self).input@.len(),
            old(self).input@[old(self).index@] == '"',
        ensures
            final(self).wf(),
            final(self).input == old(self).input,
            final(self).errors@ == old(self).errors@,
            ({
                let st = grammar::string_step(old(self).input@, old(self).index@);
                &&& st.begin == old(self).index@
                &&& st.finish == st.next
                &&& st.token_type == if st.error is None { TokenType::String } else { TokenType::Illegal }
                &&& final(self).index@ == st.next
                &&& r == (match st.error {
                    None => Ok(old(self).position),
                    Some(e) => Err((e, old(self).position)),
                })
            }),
    {
        reveal(grammar::string_step);
        let ghost cs = self.input@;
        let ghost first = self.index@;
        let start = self.position;
        loop
            invariant_except_break
                self.index@ < cs.len(),
                grammar::string_close(cs, self.index@) == grammar::string_close(cs, first),
            invariant
                self.wf(),
                self.input == old(self).input,
                self.errors@ == old(self).errors@,
                cs == self.input@,
            ensures
                self.wf(),
                self.input == old(self).input,
                self.errors@ == old(self).errors@,
                cs == self.input@,
                self.index@ == grammar::string_close(cs, first),
                grammar::char_at(cs, self.index@) == self.ch,
                self.ch == '"' || self.ch == '\0',
            decreases cs.len() - self.index@,
        {
            self.read_char();
            // Handle escaped quotes and do not terminate the string prematurely
            if self.ch == '\\' && Self::is_escapable(self.peek_unicode_char()) {
                self.read_char(); // Skip the escaped character
                continue;
            }
            // String ends with closing quote or unterminated at EOF
            if self.ch == '"' || self.ch == '\0' {
                break;
            }
        }
        if self.ch == '"' {
            self.read_char();
            Ok(start)
        } else {
            Err((LexerErrorType::UnterminatedString, start))
        }
    }

    /// Reads a symbol.
    /// Returns the start position of the symbol.
    fn read_symbol(&mut self) -> (r: Result<usize, (LexerErrorType, usize)>)
        requires
            old(self).wf(),
            old(self).index@ < old(self).input@.len(),
            old(self).input@[old(self).index@] == ':',
        ensures
            final(self).wf(),
            final(self).input == old(self).input,
            final(self).errors@ == old(self).errors@,
            ({
                let st = grammar::symbol_step(old(self).input@, old(self).index@);
                &&& st.begin == old(self).index@
                &&& st.finish == st.next
                &&& st.token_type == if st.error is None { TokenType::Symbol } else { TokenType::Illegal }
                &&& final(self).index@ == st.next
                &&& r == (match st.error {
                    None => Ok(old(self).position),
                    Some(e) => Err((e, old(self).position)),
                })
            }),
    {
        reveal(grammar::symbol_step);
        let ghost cs = self.input@;
        let start = self.position;
        self.read_char(); // Start position after the ':'
        if text::is_alphabetic(self.ch) || self.ch == '_' {
            // Read the symbol like an identifier
            self.read_identifier();
            Ok(start)
        } else if text::is_ascii_digit(self.ch) || (self.ch != '\0' && !text::is_alphabetic(self.ch)
            && !Self::is_whitespace(self.ch)) {
            // If the symbol starts with a number, or some special character:
            // read until we hit an alphabetic character, whitespace, or EOF
            let ghost from = self.index@;
            while self.ch != '\0' && !Self::is_whitespace(self.ch) && !text::is_alphabetic(self.ch)
                invariant
                    self.wf(),
                    self.input == old(self).input,
                    self.errors@ == old(self).errors@,
                    cs == self.input@,
                    grammar::symbol_junk_end(cs, self.index@) == grammar::symbol_junk_end(cs, from),
                decreases cs.len() - self.index@,
            {
                self.read_char();
            }
            Err((LexerErrorType::InvalidSymbol, start))
        } else {
            Err((LexerErrorType::InvalidSymbol, start))
        }
    }

    /// Reads a comment until the end of the line or end of file.
    /// Returns the position after reading the comment.
    fn read_comment(&mut self) -> (end: usize)
        requires
            old(self).wf(),
        ensures
            final(self).wf(),
            final(self).input == old(self).input,
            final(self).errors@ == old(self).errors@,
            final(self).index@ == grammar::comment_end(old(self).input@, old(self).index@),
            end as int == text::byte_offset(final(self).input@, final(self).index@),
    {
        let ghost start = self.index@;
        while self.ch != '\n' && self.ch != '\0'
            invariant
                self.wf(),
                self.input == old(self).input,
                self.errors@ == old(self).errors@,
                grammar::comment_end(self.input@, self.index@) == grammar::comment_end(
                    self.input@,
                    start,
                ),
            decreases self.input@.len() - self.index@,
        {
            self.read_char();
        }
        self.position
    }

    /// Reads an operator, which may be a single or multi-character operator.
    /// Returns the position after reading the operator.
    fn read_operator(&mut self) -> (end: usize)
        requires
            old(self).wf(),
            old(self).index@ + 1 < old(self).input@.len(),
            (old(self).input@[old(self).index@ + 1] as u32) < 0x80,
        ensures
            final(self).wf(),
            final(self).input == old(self).input,
            final(self).errors@ == old(self).errors@,
            final(self).index@ == old(self).index@ + 1,
            end as int == text::byte_offset(final(self).input@, old(self).index@ + 2),
    {
        // Advance to the next character to complete the operator
        self.read_ascii_char();
        proof {
            let cs = self.input@;
            text::lemma_offset_step(cs, self.index@);
            text::lemma_width_bounds(cs[self.index@]);
        }
        self.position + 1
    }

    /// Takes a start position, end position, and error type to create an illegal token and record the error.
    /// Returns the illegal token.
    fn record_illegal_token(&mut self, start: usize, end: usize, error: LexerErrorType) -> (token: Token)
        requires
            old(self).wf(),
        ensures
            final(self).wf(),
            final(self).input == old(self).input,
            final(self).index@ == old(self).index@,
            token == (Token { token_type: TokenType::Illegal, start, end }),
            final(self).errors@ == old(self).errors@.push(LexerError { token, error }),
    {
        let token = Token::new(TokenType::Illegal, start, end);
        self.errors.push(LexerError::new(token, error));
        token
    }

    /// Determines if a character is a whitespace character.
    fn is_whitespace(ch: char) -> (r: bool)
        ensures
            r == grammar::is_whitespace(ch),
    {
        matches!(ch, ' ' | '\t' | '\n' | '\r')
    }

    fn is_suffix_char(ch: char) -> (r: bool)
        ensures
            r == grammar::is_suffix(ch),
    {
        matches!(ch, '!' | '?')
    }

    fn is_escapable(ch: char) -> (r: bool)
        ensures
            r == grammar::is_escapable(ch),
    {
        matches!(ch, 'n' | 'r' | 't' | '\\' | '"' | '0' | 'a' | 'b')
    }
}

} // verus!
