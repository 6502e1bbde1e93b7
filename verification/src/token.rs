//! Tokens: the kinds the lexer tells apart, the byte span of a token in its
//! source, and the keyword table.
use vstd::prelude::*;
use vstd::utf8::*;
use crate::text;

verus! {

/// What a token is.
#[derive(Debug, PartialEq, Eq, Structural, Clone, Copy)]
pub enum TokenType {
    Illegal,
    EOF,
    Comment,
    // Identifiers + literals
    Identifier,
    Integer,
    Float,
    String,
    Symbol,
    SymbolKey,
    // String interpolation
    InterpolStart,
    InterpolEnd,
    // Operators
    Assign,
    Plus,
    Minus,
    Asterisk,
    Slash,
    Power,
    Eq,
    NotEq,
    LT,
    GT,
    LTE,
    GTE,
    And,
    Or,
    Bang,
    Dot,
    HashRocket,
    // Delimiters
    Comma,
    LParen,
    RParen,
    LBrace,
    RBrace,
    LBrack,
    RBrack,
    Semicolon,
    // Keywords
    Def,
    Do,
    End,
    If,
    Else,
    Elsif,
    While,
    Return,
    True,
    False,
    Nil,
}

/// A token: its kind and the byte range `start..end` it covers in the source.
#[derive(Debug, Clone, Copy)]
pub struct Token {
    pub token_type: TokenType,
    pub start: usize,
    pub end: usize,
}

impl Token {
    pub fn new(token_type: TokenType, start: usize, end: usize) -> (t: Token)
        ensures
            t.token_type == token_type,
            t.start == start,
            t.end == end,
    {
        Token { token_type, start, end }
    }

    /// Whether the token's span can be cut out of `source`: it lies inside the
    /// source and both ends fall on character boundaries.
    pub open spec fn spans_whole_chars(&self, source: &str) -> bool {
        self.spans_whole_chars_of(source@)
    }

    /// Whether the token's span lies inside the encoding of `cs` with both
    /// ends on character boundaries.
    pub open spec fn spans_whole_chars_of(&self, cs: Seq<char>) -> bool {
        let b = encode_utf8(cs);
        &&& self.start <= self.end <= b.len()
        &&& is_char_boundary(b, self.start as int)
        &&& is_char_boundary(b, self.end as int)
    }

    /// The text of the token in `source`.
    pub fn lexeme<'a>(&self, source: &'a str) -> (s: &'a str)
        requires
            self.spans_whole_chars(source),
        ensures
            encode_utf8(s@) == encode_utf8(source@).subrange(self.start as int, self.end as int),
            s@ == text::span_text(source@, self.start as int, self.end as int),
    {
        let ghost b = encode_utf8(source@);
        proof {
            encode_utf8_valid_utf8(source@);
            text::lemma_boundary_in_suffix(b, self.start as int, self.end as int);
        }
        let (_, tail) = source.split_at(self.start);
        proof {
            assert(encode_utf8(tail@) =~= b.subrange(self.start as int, b.len() as int));
        }
        let (word, _) = tail.split_at(self.end - self.start);
        proof {
            assert(encode_utf8(word@) =~= b.subrange(self.start as int, self.end as int));
            encode_utf8_decode_utf8(word@);
        }
        word
    }
}

/// The kind of a word: the keyword it spells, or `Identifier`.
pub open spec fn keyword_type(word: Seq<char>) -> TokenType {
    if word == "def"@ {
        TokenType::Def
    } else if word == "do"@ {
        TokenType::Do
    } else if word == "end"@ {
        TokenType::End
    } else if word == "if"@ {
        TokenType::If
    } else if word == "else"@ {
        TokenType::Else
    } else if word == "elsif"@ {
        TokenType::Elsif
    } else if word == "while"@ {
        TokenType::While
    } else if word == "return"@ {
        TokenType::Return
    } else if word == "true"@ {
        TokenType::True
    } else if word == "false"@ {
        TokenType::False
    } else if word == "nil"@ {
        TokenType::Nil
    } else {
        TokenType::Identifier
    }
}

pub fn lookup_identifier(ident: &str) -> (t: TokenType)
    ensures
        t == keyword_type(ident@),
{
    if text::same_text(ident, "def") {
        TokenType::Def
    } else if text::same_text(ident, "do") {
        TokenType::Do
    } else if text::same_text(ident, "end") {
        TokenType::End
    } else if text::same_text(ident, "if") {
        TokenType::If
    } else if text::same_text(ident, "else") {
        TokenType::Else
    } else if text::same_text(ident, "elsif") {
        TokenType::Elsif
    } else if text::same_text(ident, "while") {
        TokenType::While
    } else if text::same_text(ident, "return") {
        TokenType::Return
    } else if text::same_text(ident, "true") {
        TokenType::True
    } else if text::same_text(ident, "false") {
        TokenType::False
    } else if text::same_text(ident, "nil") {
        TokenType::Nil
    } else {
        TokenType::Identifier
    }
}

} // verus!
