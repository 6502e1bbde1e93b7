//! Errors the lexer records: the illegal token and what was wrong with it.
use vstd::prelude::*;
use vstd::utf8::*;
use crate::text;
use crate::token::Token;

verus! {

#[derive(Debug, Clone, Copy, PartialEq, Eq, Structural)]
pub enum LexerErrorType {
    UnexpectedCharacter,
    UnterminatedString,
    InvalidNumber,
    InvalidSymbol,
}

#[derive(Debug, Clone, Copy)]
pub struct LexerError {
    pub token: Token,
    pub error: LexerErrorType,
}

/// The text that a message starts with, for each kind of error.
pub open spec fn message_prefix(error: LexerErrorType) -> Seq<char> {
    match error {
        LexerErrorType::UnexpectedCharacter => "Unexpected character: "@,
        LexerErrorType::InvalidNumber => "Invalid number format: "@,
        LexerErrorType::UnterminatedString => "Unterminated string: "@,
        LexerErrorType::InvalidSymbol => "Invalid symbol format: "@,
    }
}

/// Name for the result of formatting a string with `{:?}`: the string in
/// double quotes, with quotes, backslashes and control characters escaped.
pub uninterp spec fn debug_text(s: Seq<char>) -> Seq<char>;

/// Printable ASCII, tab, newline and carriage return: the characters whose
/// `{:?}` form is stated below.
pub open spec fn is_plain_ascii(c: char) -> bool {
    ' ' <= c <= '~' || c == '\t' || c == '\n' || c == '\r'
}

/// What `{:?}` writes for a character of a string that `is_plain_ascii`
/// holds of: a backslash before a double quote or a backslash, `\t`, `\n`
/// and `\r` for tab, newline and carriage return, and any other such
/// character as itself.
pub open spec fn ascii_debug_escape(c: char) -> Seq<char> {
    if c == '"' {
        seq!['\\', '"']
    } else if c == '\\' {
        seq!['\\', '\\']
    } else if c == '\t' {
        seq!['\\', 't']
    } else if c == '\n' {
        seq!['\\', 'n']
    } else if c == '\r' {
        seq!['\\', 'r']
    } else {
        seq![c]
    }
}

/// The escapes of the characters of `s`, one after the other.
pub open spec fn ascii_debug_body(s: Seq<char>) -> Seq<char>
    decreases s.len(),
{
    if s.len() == 0 {
        Seq::empty()
    } else {
        ascii_debug_body(s.drop_last()) + ascii_debug_escape(s.last())
    }
}

/// Formats `s` with `{:?}`, that is `<str as Debug>::fmt`; the result is named
/// `debug_text`. For a string of printable ASCII, tabs, newlines and carriage
/// returns it is the string in double quotes with `ascii_debug_escape`
/// applied to each character; for other strings (other control characters,
/// characters beyond ASCII) nothing more than the name is stated.
#[verifier::external_body]
fn debug_quoted(s: &str) -> (r: String)
    ensures
        r@ == debug_text(s@),
        (forall|k: int| 0 <= k < s@.len() ==> is_plain_ascii(#[trigger] s@[k])) ==> r@ == seq!['"']
            + ascii_debug_body(s@) + seq!['"'],
{
    format!("{:?}", s)
}

impl LexerError {
    pub fn new(token: Token, error: LexerErrorType) -> (e: LexerError)
        ensures
            e.token == token,
            e.error == error,
    {
        LexerError { token, error }
    }

    /// The message for this error: its prefix, then the token's text in
    /// `source` formatted with `{:?}`.
    pub fn message(&self, source: &str) -> (m: String)
        requires
            self.token.spans_whole_chars(source),
        ensures
            m@ == message_prefix(self.error) + debug_text(
                text::span_text(source@, self.token.start as int, self.token.end as int),
            ),
            ({
                let word = text::span_text(source@, self.token.start as int, self.token.end as int);
                (forall|k: int| 0 <= k < word.len() ==> is_plain_ascii(#[trigger] word[k])) ==> m@
                    == message_prefix(self.error) + seq!['"'] + ascii_debug_body(word) + seq!['"']
            }),
    {
        let word = self.token.lexeme(source);
        proof {
            encode_utf8_decode_utf8(word@);
        }
        let quoted = debug_quoted(word);
        let mut m = match self.error {
            LexerErrorType::UnexpectedCharacter => "Unexpected character: ".to_owned(),
            LexerErrorType::InvalidNumber => "Invalid number format: ".to_owned(),
            LexerErrorType::UnterminatedString => "Unterminated string: ".to_owned(),
            LexerErrorType::InvalidSymbol => "Invalid symbol format: ".to_owned(),
        };
        m.append(quoted.as_str());
        m
    }
}

} // verus!
