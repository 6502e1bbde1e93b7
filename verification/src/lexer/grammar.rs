//! The lexical grammar, stated over the characters of the source: where each
//! kind of token ends, what the lexer produces from a given character index,
//! and where line and column numbers stand.
use vstd::prelude::*;
use crate::lexer::error::LexerErrorType;
use crate::text;
use crate::token::{self, Token, TokenType};

verus! {

/// The character at index `i`, or `'\0'` past the end of the source.
pub open spec fn char_at(cs: Seq<char>, i: int) -> char {
    if 0 <= i < cs.len() {
        cs[i]
    } else {
        '\0'
    }
}

/// The index after reading one more character; the end of input stays put.
pub open spec fn advance(cs: Seq<char>, i: int) -> int {
    if i < cs.len() {
        i + 1
    } else {
        i
    }
}

pub open spec fn is_whitespace(c: char) -> bool {
    c == ' ' || c == '\t' || c == '\n' || c == '\r'
}

pub open spec fn is_digit(c: char) -> bool {
    '0' <= c <= '9'
}

pub open spec fn is_suffix(c: char) -> bool {
    c == '!' || c == '?'
}

/// Characters that may follow a backslash inside a string literal.
pub open spec fn is_escapable(c: char) -> bool {
    c == 'n' || c == 'r' || c == 't' || c == '\\' || c == '"' || c == '0' || c == 'a' || c == 'b'
}

/// Characters that continue an identifier: alphanumeric or `_`.
pub open spec fn is_ident_char(c: char) -> bool {
    text::alphabetic(c) || text::numeric(c) || c == '_'
}

/// Characters that start an identifier: alphabetic or `_`.
pub open spec fn starts_ident(c: char) -> bool {
    text::alphabetic(c) || c == '_'
}

/// Index of the first character at or after `i` that is not whitespace.
pub open spec fn whitespace_end(cs: Seq<char>, i: int) -> int
    decreases cs.len() - i,
{
    if 0 <= i < cs.len() && is_whitespace(cs[i]) {
        whitespace_end(cs, i + 1)
    } else {
        i
    }
}

/// Index of the first newline or NUL at or after `i` (or the end of input).
pub open spec fn comment_end(cs: Seq<char>, i: int) -> int
    decreases cs.len() - i,
{
    if 0 <= i < cs.len() && cs[i] != '\n' && cs[i] != '\0' {
        comment_end(cs, i + 1)
    } else {
        i
    }
}

/// Index of the first character at or after `i` that does not continue an
/// identifier (or the end of input).
pub open spec fn ident_run_end(cs: Seq<char>, i: int) -> int
    decreases cs.len() - i,
{
    if 0 <= i < cs.len() && is_ident_char(cs[i]) {
        ident_run_end(cs, i + 1)
    } else {
        i
    }
}

/// End of an identifier that starts at `i`: its run of identifier characters,
/// then one optional `!` or `?`.
pub open spec fn ident_end(cs: Seq<char>, i: int) -> int {
    let j = ident_run_end(cs, i);
    if 0 <= j < cs.len() && is_suffix(cs[j]) {
        j + 1
    } else {
        j
    }
}

/// Index of the first character at or after `i` that is neither a digit nor `_`.
pub open spec fn digit_run_end(cs: Seq<char>, i: int) -> int
    decreases cs.len() - i,
{
    if 0 <= i < cs.len() && (is_digit(cs[i]) || cs[i] == '_') {
        digit_run_end(cs, i + 1)
    } else {
        i
    }
}

/// A run of digits and underscores from `i` to `j` is a well-formed part of a
/// number: it is not empty, does not end in `_`, and has no two `_` in a row.
pub open spec fn number_part_valid(cs: Seq<char>, i: int, j: int) -> bool {
    &&& i < j
    &&& cs[j - 1] != '_'
    &&& forall|k: int| i <= k < j - 1 ==> !(#[trigger] cs[k] == '_' && cs[k + 1] == '_')
}

/// Index of the first character at or after `i` that is NUL, whitespace or
/// alphabetic (or the end of input): the extent of a malformed symbol.
pub open spec fn symbol_junk_end(cs: Seq<char>, i: int) -> int
    decreases cs.len() - i,
{
    if 0 <= i < cs.len() && cs[i] != '\0' && !is_whitespace(cs[i]) && !text::alphabetic(cs[i]) {
        symbol_junk_end(cs, i + 1)
    } else {
        i
    }
}

/// Where a string literal stops, given the index `k` of the last character
/// read: the index of the closing quote, or of the NUL or end of input that
/// leaves it unterminated. A backslash followed by an escapable character
/// skips that character.
pub open spec fn string_close(cs: Seq<char>, k: int) -> int
    decreases cs.len() - k,
{
    let m = advance(cs, k);
    if char_at(cs, m) == '\\' && is_escapable(char_at(cs, m + 1)) {
        string_close(cs, m + 1)
    } else if char_at(cs, m) == '"' || char_at(cs, m) == '\0' {
        m
    } else {
        string_close(cs, m)
    }
}

/// Index of the first character at or after `k` in `word` that is not `_`.
pub open spec fn underscore_run_end(word: Seq<char>, k: int) -> int
    decreases word.len() - k,
{
    if 0 <= k < word.len() && word[k] == '_' {
        underscore_run_end(word, k + 1)
    } else {
        k
    }
}

/// A word that starts with underscores followed by a numeric character, such
/// as `_1` or `__2x`: lexed as a malformed number.
pub open spec fn underscore_then_numeric(word: Seq<char>) -> bool {
    let u = underscore_run_end(word, 0);
    &&& word.len() > 0
    &&& word[0] == '_'
    &&& u < word.len()
    &&& text::numeric(word[u])
}

/// The outcome of one call of the lexer, over character indices.
pub struct Step {
    pub token_type: TokenType,
    /// Index of the token's first character.
    pub begin: int,
    /// Index just past the token's last character.
    pub finish: int,
    /// The error recorded along with the token, if any.
    pub error: Option<LexerErrorType>,
    /// Index the lexer stands at afterwards.
    pub next: int,
}

pub open spec fn plain(t: TokenType, begin: int, finish: int) -> Step {
    Step { token_type: t, begin, finish, error: None, next: finish }
}

pub open spec fn illegal(e: LexerErrorType, begin: int, finish: int) -> Step {
    Step { token_type: TokenType::Illegal, begin, finish, error: Some(e), next: finish }
}

/// The token kind of a character that is a token by itself.
pub open spec fn single_char_type(c: char) -> Option<TokenType> {
    if c == '(' {
        Some(TokenType::LParen)
    } else if c == ')' {
        Some(TokenType::RParen)
    } else if c == '{' {
        Some(TokenType::LBrace)
    } else if c == '}' {
        Some(TokenType::RBrace)
    } else if c == '[' {
        Some(TokenType::LBrack)
    } else if c == ']' {
        Some(TokenType::RBrack)
    } else if c == ',' {
        Some(TokenType::Comma)
    } else if c == ';' {
        Some(TokenType::Semicolon)
    } else if c == '.' {
        Some(TokenType::Dot)
    } else if c == '+' {
        Some(TokenType::Plus)
    } else if c == '-' {
        Some(TokenType::Minus)
    } else if c == '/' {
        Some(TokenType::Slash)
    } else {
        None
    }
}

/// Operators of one or two characters, starting with `c` followed by `d`.
pub open spec fn operator_step(c: char, d: char, w: int) -> Step {
    if c == '=' {
        if d == '=' {
            plain(TokenType::Eq, w, w + 2)
        } else if d == '>' {
            plain(TokenType::HashRocket, w, w + 2)
        } else {
            plain(TokenType::Assign, w, w + 1)
        }
    } else if c == '!' {
        if d == '=' {
            plain(TokenType::NotEq, w, w + 2)
        } else {
            plain(TokenType::Bang, w, w + 1)
        }
    } else if c == '<' {
        if d == '=' {
            plain(TokenType::LTE, w, w + 2)
        } else {
            plain(TokenType::LT, w, w + 1)
        }
    } else if c == '>' {
        if d == '=' {
            plain(TokenType::GTE, w, w + 2)
        } else {
            plain(TokenType::GT, w, w + 1)
        }
    } else if c == '*' {
        if d == '*' {
            plain(TokenType::Power, w, w + 2)
        } else {
            plain(TokenType::Asterisk, w, w + 1)
        }
    } else if c == '&' {
        if d == '&' {
            plain(TokenType::And, w, w + 2)
        } else {
            illegal(LexerErrorType::UnexpectedCharacter, w, w + 1)
        }
    } else {
        if d == '|' {
            plain(TokenType::Or, w, w + 2)
        } else {
            illegal(LexerErrorType::UnexpectedCharacter, w, w + 1)
        }
    }
}

pub open spec fn is_operator_start(c: char) -> bool {
    c == '=' || c == '!' || c == '<' || c == '>' || c == '*' || c == '&' || c == '|'
}

/// A string literal starting with the quote at `w`.
#[verifier::opaque]
pub open spec fn string_step(cs: Seq<char>, w: int) -> Step {
    let e = string_close(cs, w);
    if char_at(cs, e) == '"' {
        plain(TokenType::String, w, e + 1)
    } else {
        illegal(LexerErrorType::UnterminatedString, w, e)
    }
}

/// A symbol starting with the colon at `w`.
#[verifier::opaque]
pub open spec fn symbol_step(cs: Seq<char>, w: int) -> Step {
    let k = w + 1;
    let c = char_at(cs, k);
    if starts_ident(c) {
        plain(TokenType::Symbol, w, ident_end(cs, k))
    } else if is_digit(c) || (c != '\0' && !text::alphabetic(c) && !is_whitespace(c)) {
        illegal(LexerErrorType::InvalidSymbol, w, symbol_junk_end(cs, k))
    } else {
        illegal(LexerErrorType::InvalidSymbol, w, k)
    }
}

/// An identifier, keyword or symbol key starting at `w`.
pub open spec fn ident_step(cs: Seq<char>, w: int) -> Step {
    let e = ident_end(cs, w);
    let word = cs.subrange(w, e);
    if underscore_then_numeric(word) {
        illegal(LexerErrorType::InvalidNumber, w, e)
    } else if char_at(cs, e) == ':' {
        plain(TokenType::SymbolKey, w, e + 1)
    } else {
        plain(token::keyword_type(word), w, e)
    }
}

/// A number starting with the digit at `w`: an integer, or a float when a dot
/// and a digit follow the integer part.
#[verifier::opaque]
pub open spec fn number_step(cs: Seq<char>, w: int) -> Step {
    let r1 = digit_run_end(cs, w);
    let v1 = number_part_valid(cs, w, r1);
    if char_at(cs, r1) == '.' && is_digit(char_at(cs, r1 + 1)) {
        let r2 = digit_run_end(cs, r1 + 1);
        let v2 = number_part_valid(cs, r1 + 1, r2);
        Step {
            token_type: if v1 && v2 { TokenType::Float } else { TokenType::Illegal },
            begin: w,
            finish: r2,
            error: if v1 && v2 { None } else { Some(LexerErrorType::InvalidNumber) },
            next: r2,
        }
    } else {
        Step {
            token_type: if v1 { TokenType::Integer } else { TokenType::Illegal },
            begin: w,
            finish: r1,
            error: if v1 { None } else { Some(LexerErrorType::InvalidNumber) },
            next: r1,
        }
    }
}

/// What the lexer produces from the first non-whitespace character, at `w`.
pub open spec fn lex_at(cs: Seq<char>, w: int) -> Step {
    let c = char_at(cs, w);
    if c == '\0' {
        Step {
            token_type: TokenType::EOF,
            begin: w,
            finish: w,
            error: None,
            next: advance(cs, w),
        }
    } else if single_char_type(c) is Some {
        plain(single_char_type(c)->0, w, w + 1)
    } else if c == '#' {
        let e = comment_end(cs, w);
        Step {
            token_type: TokenType::Comment,
            begin: w,
            finish: e,
            error: None,
            next: advance(cs, e),
        }
    } else if is_operator_start(c) {
        operator_step(c, char_at(cs, w + 1), w)
    } else if c == '"' {
        string_step(cs, w)
    } else if c == ':' {
        symbol_step(cs, w)
    } else if starts_ident(c) {
        ident_step(cs, w)
    } else if is_digit(c) {
        number_step(cs, w)
    } else {
        illegal(LexerErrorType::UnexpectedCharacter, w, w + 1)
    }
}

/// What one call of the lexer produces when it stands at index `i`: it skips
/// whitespace, then reads one token.
#[verifier::opaque]
pub open spec fn lex_step(cs: Seq<char>, i: int) -> Step {
    lex_at(cs, whitespace_end(cs, i))
}

/// The steps the lexer takes from index `i` on, up to and including the first
/// end-of-input token (a step that did not move on also ends the run).
pub open spec fn lex_run(cs: Seq<char>, i: int) -> Seq<Step>
    decreases cs.len() - i,
{
    let st = lex_step(cs, i);
    if st.token_type != TokenType::EOF && 0 <= i < st.next <= cs.len() {
        seq![st] + lex_run(cs, st.next)
    } else {
        seq![st]
    }
}

/// The token of a step, with its byte span in the source.
pub open spec fn step_token(cs: Seq<char>, s: Step) -> Token {
    Token {
        token_type: s.token_type,
        start: text::byte_offset(cs, s.begin) as usize,
        end: text::byte_offset(cs, s.finish) as usize,
    }
}

/// The characters a step's token covers.
pub open spec fn step_text(cs: Seq<char>, s: Step) -> Seq<char> {
    cs.subrange(s.begin, s.finish)
}

/// Digits and underscores that start and end with a digit and have no two
/// underscores in a row, such as `1_000`.
pub open spec fn is_number_part(t: Seq<char>) -> bool {
    &&& t.len() > 0
    &&& is_digit(t[0])
    &&& is_digit(t[t.len() - 1])
    &&& forall|k: int| 0 <= k < t.len() ==> is_digit(#[trigger] t[k]) || t[k] == '_'
    &&& forall|k: int| 0 <= k < t.len() - 1 ==> !(#[trigger] t[k] == '_' && t[k + 1] == '_')
}

/// Identifiers and the keywords.
pub open spec fn is_word_kind(t: TokenType) -> bool {
    t == TokenType::Identifier || t == TokenType::Def || t == TokenType::Do || t == TokenType::End
        || t == TokenType::If || t == TokenType::Else || t == TokenType::Elsif || t
        == TokenType::While || t == TokenType::Return || t == TokenType::True || t
        == TokenType::False || t == TokenType::Nil
}

/// The text of the token kinds that always read the same.
pub open spec fn fixed_text(t: TokenType) -> Option<Seq<char>> {
    match t {
        TokenType::LParen => Some(seq!['(']),
        TokenType::RParen => Some(seq![')']),
        TokenType::LBrace => Some(seq!['{']),
        TokenType::RBrace => Some(seq!['}']),
        TokenType::LBrack => Some(seq!['[']),
        TokenType::RBrack => Some(seq![']']),
        TokenType::Comma => Some(seq![',']),
        TokenType::Semicolon => Some(seq![';']),
        TokenType::Dot => Some(seq!['.']),
        TokenType::Plus => Some(seq!['+']),
        TokenType::Minus => Some(seq!['-']),
        TokenType::Slash => Some(seq!['/']),
        TokenType::Assign => Some(seq!['=']),
        TokenType::Eq => Some(seq!['=', '=']),
        TokenType::HashRocket => Some(seq!['=', '>']),
        TokenType::Bang => Some(seq!['!']),
        TokenType::NotEq => Some(seq!['!', '=']),
        TokenType::LT => Some(seq!['<']),
        TokenType::LTE => Some(seq!['<', '=']),
        TokenType::GT => Some(seq!['>']),
        TokenType::GTE => Some(seq!['>', '=']),
        TokenType::Asterisk => Some(seq!['*']),
        TokenType::Power => Some(seq!['*', '*']),
        TokenType::And => Some(seq!['&', '&']),
        TokenType::Or => Some(seq!['|', '|']),
        _ => None,
    }
}

/// Line number at index `i`: one more than the newlines before it.
pub open spec fn line_at(cs: Seq<char>, i: int) -> int
    decreases i,
{
    if i <= 0 {
        1
    } else {
        line_at(cs, i - 1) + (if cs[i - 1] == '\n' { 1int } else { 0int })
    }
}

/// Number of characters between the last newline before index `i` and `i`.
pub open spec fn chars_since_newline(cs: Seq<char>, i: int) -> int
    decreases i,
{
    if i <= 0 {
        0
    } else if cs[i - 1] == '\n' {
        0
    } else {
        chars_since_newline(cs, i - 1) + 1
    }
}

/// Column number at index `i`: the position of the character there within its
/// line, counted in characters from 1; at the end of input, the length of the
/// last line.
pub open spec fn column_at(cs: Seq<char>, i: int) -> int {
    chars_since_newline(cs, i) + (if i < cs.len() { 1int } else { 0int })
}

pub proof fn lemma_position_counts(cs: Seq<char>, i: int)
    requires
        0 <= i,
    ensures
        1 <= line_at(cs, i) <= i + 1,
        0 <= chars_since_newline(cs, i) <= i,
    decreases i,
{
    if i > 0 {
        lemma_position_counts(cs, i - 1);
    }
}

} // verus!
