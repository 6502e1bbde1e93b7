//! What the grammar guarantees of every step of the lexer, proved over the
//! spec functions of `grammar`.
use vstd::prelude::*;
use vstd::utf8::*;
use crate::lexer::error::LexerErrorType;
use crate::lexer::lexer::Lexer;
use crate::lexer::grammar;
use crate::text;
use crate::token::{self, TokenType};

verus! {

proof fn lemma_whitespace_end(cs: Seq<char>, i: int)
    requires
        0 <= i <= cs.len(),
    ensures
        i <= grammar::whitespace_end(cs, i) <= cs.len(),
        forall|k: int|
            i <= k < grammar::whitespace_end(cs, i) ==> grammar::is_whitespace(#[trigger] cs[k]),
        grammar::whitespace_end(cs, i) < cs.len() ==> !grammar::is_whitespace(
            cs[grammar::whitespace_end(cs, i)],
        ),
    decreases cs.len() - i,
{
    if i < cs.len() && grammar::is_whitespace(cs[i]) {
        lemma_whitespace_end(cs, i + 1);
    }
}

proof fn lemma_comment_end(cs: Seq<char>, i: int)
    requires
        0 <= i <= cs.len(),
    ensures
        i <= grammar::comment_end(cs, i) <= cs.len(),
        forall|k: int|
            i <= k < grammar::comment_end(cs, i) ==> #[trigger] cs[k] != '\n' && cs[k] != '\0',
        grammar::comment_end(cs, i) < cs.len() ==> cs[grammar::comment_end(cs, i)] == '\n'
            || cs[grammar::comment_end(cs, i)] == '\0',
    decreases cs.len() - i,
{
    if i < cs.len() && cs[i] != '\n' && cs[i] != '\0' {
        lemma_comment_end(cs, i + 1);
    }
}

proof fn lemma_ident_run_end(cs: Seq<char>, i: int)
    requires
        0 <= i <= cs.len(),
    ensures
        i <= grammar::ident_run_end(cs, i) <= cs.len(),
        forall|k: int|
            i <= k < grammar::ident_run_end(cs, i) ==> grammar::is_ident_char(#[trigger] cs[k]),
        grammar::ident_run_end(cs, i) < cs.len() ==> !grammar::is_ident_char(
            cs[grammar::ident_run_end(cs, i)],
        ),
    decreases cs.len() - i,
{
    if i < cs.len() && grammar::is_ident_char(cs[i]) {
        lemma_ident_run_end(cs, i + 1);
    }
}

proof fn lemma_digit_run_end(cs: Seq<char>, i: int)
    requires
        0 <= i <= cs.len(),
    ensures
        i <= grammar::digit_run_end(cs, i) <= cs.len(),
        forall|k: int|
            i <= k < grammar::digit_run_end(cs, i) ==> grammar::is_digit(#[trigger] cs[k]) || cs[k]
                == '_',
        grammar::digit_run_end(cs, i) < cs.len() ==> !(grammar::is_digit(
            cs[grammar::digit_run_end(cs, i)],
        ) || cs[grammar::digit_run_end(cs, i)] == '_'),
    decreases cs.len() - i,
{
    if i < cs.len() && (grammar::is_digit(cs[i]) || cs[i] == '_') {
        lemma_digit_run_end(cs, i + 1);
    }
}

proof fn lemma_symbol_junk_end(cs: Seq<char>, i: int)
    requires
        0 <= i <= cs.len(),
    ensures
        i <= grammar::symbol_junk_end(cs, i) <= cs.len(),
        forall|k: int|
            i <= k < grammar::symbol_junk_end(cs, i) ==> #[trigger] cs[k] != '\0'
                && !grammar::is_whitespace(cs[k]) && !text::alphabetic(cs[k]),
        grammar::symbol_junk_end(cs, i) < cs.len() ==> ({
            let c = cs[grammar::symbol_junk_end(cs, i)];
            c == '\0' || grammar::is_whitespace(c) || text::alphabetic(c)
        }),
    decreases cs.len() - i,
{
    if i < cs.len() && cs[i] != '\0' && !grammar::is_whitespace(cs[i])
        && !text::alphabetic(cs[i]) {
        lemma_symbol_junk_end(cs, i + 1);
    }
}

proof fn lemma_string_close(cs: Seq<char>, k: int)
    requires
        0 <= k < cs.len(),
    ensures
        k < grammar::string_close(cs, k) <= cs.len(),
        grammar::string_close(cs, k) < cs.len() ==> cs[grammar::string_close(cs, k)] == '"'
            || cs[grammar::string_close(cs, k)] == '\0',
    decreases cs.len() - k,
{
    let m = k + 1;
    if grammar::char_at(cs, m) == '\\' && grammar::is_escapable(grammar::char_at(cs, m + 1)) {
        lemma_string_close(cs, m + 1);
    } else if grammar::char_at(cs, m) == '"' || grammar::char_at(cs, m) == '\0' {
    } else {
        lemma_string_close(cs, m);
    }
}

proof fn lemma_ident_end(cs: Seq<char>, i: int)
    requires
        0 <= i <= cs.len(),
    ensures
        i <= grammar::ident_end(cs, i) <= cs.len(),
{
    lemma_ident_run_end(cs, i);
}

/// Every step of the lexer, from any index `i` of the source:
/// - the token begins after the whitespace that follows `i`, and nothing but
///   whitespace is skipped;
/// - the token is not empty unless it is the end-of-input token, which is
///   produced exactly at a NUL or at the end of the source;
/// - the lexer moves to the end of the token, or, after a comment or a NUL,
///   one character further, past the newline or NUL that ended it, and never
///   past the end of the source;
/// - it always makes progress, except at the end of the source, where it
///   stays and keeps producing the end-of-input token;
/// - an error is recorded exactly with an illegal token.
pub proof fn lemma_step_shape(cs: Seq<char>, i: int)
    requires
        0 <= i <= cs.len(),
    ensures
        ({
            let st = grammar::lex_step(cs, i);
            let w = grammar::whitespace_end(cs, i);
            &&& st.begin == w
            &&& forall|k: int| i <= k < w ==> grammar::is_whitespace(#[trigger] cs[k])
            &&& i <= w <= st.finish <= st.next <= cs.len()
            &&& (st.token_type == TokenType::EOF) == (grammar::char_at(cs, w) == '\0')
            &&& st.token_type != TokenType::EOF ==> w < st.finish
            &&& st.next == st.finish || ((st.token_type == TokenType::EOF || st.token_type
                == TokenType::Comment) && st.next == grammar::advance(cs, st.finish))
            &&& st.finish < st.next ==> cs[st.finish] == '\n' || cs[st.finish] == '\0'
            &&& i < cs.len() ==> i < st.next
            &&& i == cs.len() ==> st.token_type == TokenType::EOF && st.next == i
            &&& (st.error is Some) == (st.token_type == TokenType::Illegal)
        }),
{
    reveal(grammar::lex_step);
    reveal(grammar::string_step);
    reveal(grammar::symbol_step);
    reveal(grammar::number_step);
    let n = cs.len() as int;
    lemma_whitespace_end(cs, i);
    let w = grammar::whitespace_end(cs, i);
    let c = grammar::char_at(cs, w);
    if w < n {
        if c == '#' {
            lemma_comment_end(cs, w + 1);
        } else if c == '"' {
            lemma_string_close(cs, w);
        } else if c == ':' {
            lemma_ident_end(cs, w + 1);
            lemma_symbol_junk_end(cs, w + 1);
        } else if grammar::starts_ident(c) {
            lemma_ident_end(cs, w);
            lemma_ident_run_end(cs, w);
            lemma_ident_run_end(cs, w + 1);
        } else if grammar::is_digit(c) {
            lemma_digit_run_end(cs, w + 1);
            let r1 = grammar::digit_run_end(cs, w);
            if grammar::char_at(cs, r1) == '.' && grammar::is_digit(grammar::char_at(cs, r1 + 1)) {
                lemma_digit_run_end(cs, r1 + 1);
            }
        }
    }
}

proof fn lemma_number_part(cs: Seq<char>, i: int, j: int)
    requires
        0 <= i < j <= cs.len(),
        grammar::is_digit(cs[i]),
        j == grammar::digit_run_end(cs, i),
        grammar::number_part_valid(cs, i, j),
    ensures
        grammar::is_number_part(cs.subrange(i, j)),
{
    lemma_digit_run_end(cs, i);
    let t = cs.subrange(i, j);
    assert forall|k: int| 0 <= k < t.len() - 1 implies !(#[trigger] t[k] == '_' && t[k + 1] == '_') by {
        assert(t[k] == cs[i + k]);
        assert(t[k + 1] == cs[i + k + 1]);
    }
}

/// What the text of each kind of token looks like:
/// - integers are digits with single underscores between them; floats are two
///   such parts around a dot;
/// - strings are enclosed in double quotes;
/// - comments start with `#` and hold no newline;
/// - symbols are a colon followed by the start of an identifier; symbol keys
///   are an identifier followed by a colon;
/// - identifiers and keywords start like an identifier, and their kind is the
///   keyword they spell, or `Identifier`;
/// - operators and delimiters read exactly as their fixed text.
pub proof fn lemma_token_text(cs: Seq<char>, i: int)
    requires
        0 <= i <= cs.len(),
    ensures
        ({
            let st = grammar::lex_step(cs, i);
            let t = grammar::step_text(cs, st);
            &&& st.token_type == TokenType::Integer ==> grammar::is_number_part(t)
            &&& st.token_type == TokenType::Float ==> exists|d: int|
                0 < d < t.len() - 1 && t[d] == '.' && grammar::is_number_part(
                    #[trigger] t.subrange(0, d),
                ) && grammar::is_number_part(t.subrange(d + 1, t.len() as int))
            &&& st.token_type == TokenType::String ==> t.len() >= 2 && t[0] == '"' && t[t.len()
                - 1] == '"'
            &&& st.token_type == TokenType::Comment ==> t.len() >= 1 && t[0] == '#' && forall|k: int|
                0 <= k < t.len() ==> #[trigger] t[k] != '\n'
            &&& st.token_type == TokenType::Symbol ==> t.len() >= 2 && t[0] == ':'
                && grammar::starts_ident(t[1])
            &&& st.token_type == TokenType::SymbolKey ==> t.len() >= 2 && grammar::starts_ident(
                t[0],
            ) && t[t.len() - 1] == ':'
            &&& grammar::is_word_kind(st.token_type) ==> t.len() >= 1 && grammar::starts_ident(t[0])
                && st.token_type == token::keyword_type(t)
            &&& grammar::fixed_text(st.token_type) is Some ==> t == grammar::fixed_text(st.token_type)->0
        }),
{
    reveal(grammar::lex_step);
    reveal(grammar::string_step);
    reveal(grammar::symbol_step);
    reveal(grammar::number_step);
    let n = cs.len() as int;
    lemma_step_shape(cs, i);
    lemma_whitespace_end(cs, i);
    let w = grammar::whitespace_end(cs, i);
    let c = grammar::char_at(cs, w);
    let st = grammar::lex_step(cs, i);
    let t = grammar::step_text(cs, st);
    if w < n {
        if c == '#' {
            lemma_comment_end(cs, w + 1);
            assert forall|k: int| 0 <= k < t.len() implies #[trigger] t[k] != '\n' by {
                assert(t[k] == cs[w + k]);
            }
        } else if c == '"' {
            lemma_string_close(cs, w);
        } else if c == ':' {
            lemma_ident_end(cs, w + 1);
            lemma_symbol_junk_end(cs, w + 1);
            if w + 1 < n {
                lemma_ident_run_end(cs, w + 2);
            }
        } else if grammar::starts_ident(c) {
            lemma_ident_end(cs, w);
            lemma_ident_run_end(cs, w);
            lemma_ident_run_end(cs, w + 1);
        } else if grammar::is_digit(c) {
            lemma_digit_run_end(cs, w + 1);
            lemma_digit_run_end(cs, w);
            let r1 = grammar::digit_run_end(cs, w);
            if grammar::char_at(cs, r1) == '.' && grammar::is_digit(grammar::char_at(cs, r1 + 1)) {
                lemma_digit_run_end(cs, r1 + 2);
                lemma_digit_run_end(cs, r1 + 1);
                let r2 = grammar::digit_run_end(cs, r1 + 1);
                if st.token_type == TokenType::Float {
                    lemma_number_part(cs, w, r1);
                    lemma_number_part(cs, r1 + 1, r2);
                    let d = r1 - w;
                    assert(t.subrange(0, d) =~= cs.subrange(w, r1));
                    assert(t.subrange(d + 1, t.len() as int) =~= cs.subrange(r1 + 1, r2));
                }
            } else if st.token_type == TokenType::Integer {
                lemma_number_part(cs, w, r1);
            }
        }
        if grammar::fixed_text(st.token_type) is Some {
            assert(t =~= grammar::fixed_text(st.token_type)->0);
        }
    }
}

proof fn lemma_offset_is_boundary(cs: Seq<char>, k: int)
    requires
        0 <= k <= cs.len(),
    ensures
        is_char_boundary(encode_utf8(cs), text::byte_offset(cs, k)),
        0 <= text::byte_offset(cs, k) <= encode_utf8(cs).len(),
{
    text::lemma_encode_subrange(cs, k, cs.len() as int);
    if k < cs.len() {
        text::lemma_bytes_at(cs, k);
    } else {
        encode_utf8_valid_utf8(cs);
        is_char_boundary_start_end_of_seq(encode_utf8(cs));
    }
}

/// Every token covers whole characters of the source, so that its text can be
/// cut out of the source (and an error's message can be made), and that text
/// is exactly the characters the step covers; an unexpected character, of
/// any width, is covered whole.
pub proof fn lemma_token_span(cs: Seq<char>, i: int)
    requires
        0 <= i <= cs.len(),
        encode_utf8(cs).len() <= usize::MAX,
    ensures
        ({
            let st = grammar::lex_step(cs, i);
            let token = grammar::step_token(cs, st);
            &&& token.token_type == st.token_type
            &&& token.spans_whole_chars_of(cs)
            &&& encode_utf8(cs).subrange(token.start as int, token.end as int) == encode_utf8(
                cs.subrange(st.begin, st.finish),
            )
            &&& text::span_text(cs, token.start as int, token.end as int) == grammar::step_text(cs, st)
            &&& text::span_text(cs, token.start as int, token.end as int) == cs.subrange(
                st.begin,
                st.finish,
            )
        }),
{
    lemma_step_shape(cs, i);
    let st = grammar::lex_step(cs, i);
    let b = st.begin;
    let f = st.finish;
    lemma_offset_is_boundary(cs, b);
    lemma_offset_is_boundary(cs, f);
    text::lemma_encode_subrange(cs, b, f);
    encode_utf8_decode_utf8(cs.subrange(b, f));
}

/// Each call of the lexer either returns the end-of-input token or moves
/// forward, and never past the end of the source; at the end of the source it
/// stays put and keeps returning the end-of-input token. Lexing a source thus
/// reaches the end of input within one call more than it has characters.
pub proof fn lemma_lexing_progress(before: Lexer, after: Lexer, token: token::Token)
    requires
        before.wf(),
        before.lexed(after, token),
    ensures
        before.cursor() <= after.cursor() <= before.source().len(),
        token.token_type != TokenType::EOF ==> before.cursor() < after.cursor(),
        before.cursor() == before.source().len() ==> token.token_type == TokenType::EOF
            && after.cursor() == before.cursor(),
{
    before.lemma_well_formed();
    lemma_step_shape(before.source(), before.cursor());
}

/// A call of the lexer records one error exactly when it returns an illegal
/// token, and that error carries the token; so the recorded errors match the
/// illegal tokens one for one, in order.
pub proof fn lemma_error_per_illegal_token(before: Lexer, after: Lexer, token: token::Token)
    requires
        before.wf(),
        before.lexed(after, token),
    ensures
        after.recorded().len() == before.recorded().len() + if token.token_type
            == TokenType::Illegal {
            1int
        } else {
            0int
        },
        after.recorded().subrange(0, before.recorded().len() as int) == before.recorded(),
        token.token_type == TokenType::Illegal ==> after.recorded()[before.recorded().len() as int].token
            == token,
        token.token_type == TokenType::Illegal ==> Some(
            after.recorded()[before.recorded().len() as int].error,
        ) == grammar::lex_step(before.source(), before.cursor()).error,
{
    before.lemma_well_formed();
    lemma_step_shape(before.source(), before.cursor());
    assert(after.recorded().subrange(0, before.recorded().len() as int) =~= before.recorded());
}

/// Tokens are as long as they can be: a number is not followed by another
/// digit or underscore (nor an integer by a dot and a digit), an identifier
/// or keyword is not followed by another identifier character unless it ended
/// with `!` or `?`, nor by a colon, and a comment runs to the end of its line.
pub proof fn lemma_longest_match(cs: Seq<char>, i: int)
    requires
        0 <= i <= cs.len(),
    ensures
        ({
            let st = grammar::lex_step(cs, i);
            let t = grammar::step_text(cs, st);
            let after = grammar::char_at(cs, st.finish);
            &&& (st.token_type == TokenType::Integer || st.token_type == TokenType::Float) ==> !(
            grammar::is_digit(after) || after == '_')
            &&& st.token_type == TokenType::Integer ==> !(after == '.' && grammar::is_digit(
                grammar::char_at(cs, st.finish + 1),
            ))
            &&& grammar::is_word_kind(st.token_type) ==> after != ':' && (grammar::is_suffix(
                t[t.len() - 1],
            ) || !grammar::is_ident_char(after) && !grammar::is_suffix(after))
            &&& st.token_type == TokenType::Comment ==> after == '\n' || after == '\0'
        }),
{
    reveal(grammar::lex_step);
    reveal(grammar::string_step);
    reveal(grammar::symbol_step);
    reveal(grammar::number_step);
    let n = cs.len() as int;
    lemma_step_shape(cs, i);
    lemma_token_text(cs, i);
    lemma_whitespace_end(cs, i);
    let w = grammar::whitespace_end(cs, i);
    let c = grammar::char_at(cs, w);
    if w < n {
        if c == '#' {
            lemma_comment_end(cs, w + 1);
        } else if grammar::starts_ident(c) {
            lemma_ident_run_end(cs, w);
            lemma_ident_run_end(cs, w + 1);
        } else if grammar::is_digit(c) {
            lemma_digit_run_end(cs, w + 1);
            lemma_digit_run_end(cs, w);
            let r1 = grammar::digit_run_end(cs, w);
            if grammar::char_at(cs, r1) == '.' && grammar::is_digit(grammar::char_at(cs, r1 + 1)) {
                lemma_digit_run_end(cs, r1 + 2);
                lemma_digit_run_end(cs, r1 + 1);
            }
        }
    }
}

/// A newline is the last character of its line: at a newline the line
/// number has not moved yet, and right after it the line number is one more
/// and the column starts again (at 1, or at 0 at the end of the source).
pub proof fn lemma_newline_ends_its_line(cs: Seq<char>, i: int)
    requires
        0 <= i < cs.len(),
        cs[i] == '\n',
    ensures
        grammar::line_at(cs, i + 1) == grammar::line_at(cs, i) + 1,
        grammar::column_at(cs, i + 1) == if i + 1 < cs.len() { 1int } else { 0int },
{
}

/// Columns count characters, not bytes: on the first line the column of the
/// character with index `i` is `i + 1`, whatever the width of the characters
/// before it.
pub proof fn lemma_first_line_columns(cs: Seq<char>, i: int)
    requires
        0 <= i <= cs.len(),
        forall|k: int| 0 <= k < i ==> #[trigger] cs[k] != '\n',
    ensures
        grammar::line_at(cs, i) == 1,
        grammar::chars_since_newline(cs, i) == i,
        i < cs.len() ==> grammar::column_at(cs, i) == i + 1,
    decreases i,
{
    if i > 0 {
        lemma_first_line_columns(cs, i - 1);
    }
}

proof fn lemma_run_from(cs: Seq<char>, i: int)
    requires
        0 <= i <= cs.len(),
        forall|k: int| 0 <= k < cs.len() ==> #[trigger] cs[k] != '\0',
    ensures
        ({
            let r = grammar::lex_run(cs, i);
            let n = r.len() as int;
            &&& 1 <= n <= cs.len() - i + 1
            &&& r[0] == grammar::lex_step(cs, i)
            &&& r[n - 1].token_type == TokenType::EOF
            &&& r[n - 1].begin == cs.len() && r[n - 1].finish == cs.len()
            &&& forall|k: int| i <= k < r[0].begin ==> grammar::is_whitespace(#[trigger] cs[k])
            &&& forall|j: int|
                0 <= j < n ==> i <= (#[trigger] r[j]).begin <= r[j].finish <= r[j].next <= cs.len()
            &&& forall|j: int|
                0 <= j < n - 1 ==> (#[trigger] r[j]).token_type != TokenType::EOF && r[j].begin
                    < r[j].finish
            &&& forall|j: int, m: int|
                0 <= j && m == j + 1 && m < n ==> #[trigger] r[m] == grammar::lex_step(
                    cs,
                    (#[trigger] r[j]).next,
                ) && r[j].finish <= r[m].begin
            &&& forall|j: int, m: int, k: int|
                0 <= j && m == j + 1 && m < n && (#[trigger] r[j]).finish <= k < (#[trigger] r[m]).begin
                    ==> grammar::is_whitespace(#[trigger] cs[k])
        }),
    decreases cs.len() - i,
{
    lemma_step_shape(cs, i);
    let st = grammar::lex_step(cs, i);
    let r = grammar::lex_run(cs, i);
    if st.token_type != TokenType::EOF && i < st.next <= cs.len() {
        lemma_run_from(cs, st.next);
        lemma_step_shape(cs, st.next);
        let rest = grammar::lex_run(cs, st.next);
        assert(r == seq![st] + rest);
        assert(r[0] == st);
        assert forall|j: int| 0 <= j < r.len() implies i <= (#[trigger] r[j]).begin <= r[j].finish
            <= r[j].next <= cs.len() by {
            if j > 0 {
                assert(r[j] == rest[j - 1]);
            }
        }
        assert forall|j: int| 0 <= j < r.len() - 1 implies (#[trigger] r[j]).token_type
            != TokenType::EOF && r[j].begin < r[j].finish by {
            if j > 0 {
                assert(r[j] == rest[j - 1]);
            }
        }
        assert forall|j: int, m: int| 0 <= j && m == j + 1 && m < r.len() implies #[trigger] r[m]
            == grammar::lex_step(cs, (#[trigger] r[j]).next) && r[j].finish <= r[m].begin by {
            assert(r[m] == rest[m - 1]);
            if j > 0 {
                assert(r[j] == rest[j - 1]);
            }
        }
        assert forall|j: int, m: int, k: int|
            0 <= j && m == j + 1 && m < r.len() && (#[trigger] r[j]).finish <= k < (
            #[trigger] r[m]).begin implies grammar::is_whitespace(#[trigger] cs[k]) by {
            assert(r[m] == rest[m - 1]);
            if j > 0 {
                assert(r[j] == rest[j - 1]);
            } else {
                if k < st.next {
                    assert(cs[st.finish] != '\0');
                }
            }
        }
    } else {
        assert(r =~= seq![st]);
    }
}

/// Lexing a source that holds no NUL from its start: the tokens tile the
/// source. There is at most one token more than the source has characters;
/// the last is the end-of-input token, an empty span at the very end of the
/// source, and only the last is; every other token is non-empty and begins at
/// or after the end of the one before; every token covers whole characters,
/// so its text can be cut out; and nothing but whitespace lies outside the
/// tokens.
pub proof fn lemma_run_tiles_source(cs: Seq<char>)
    requires
        encode_utf8(cs).len() <= usize::MAX,
        forall|k: int| 0 <= k < cs.len() ==> #[trigger] cs[k] != '\0',
    ensures
        ({
            let r = grammar::lex_run(cs, 0);
            let n = r.len() as int;
            &&& 1 <= n <= cs.len() + 1
            &&& grammar::step_token(cs, r[n - 1]).token_type == TokenType::EOF
            &&& grammar::step_token(cs, r[n - 1]).start == encode_utf8(cs).len()
            &&& grammar::step_token(cs, r[n - 1]).end == encode_utf8(cs).len()
            &&& forall|j: int|
                0 <= j < n ==> grammar::step_token(cs, #[trigger] r[j]).spans_whole_chars_of(cs)
            &&& forall|j: int|
                0 <= j < n - 1 ==> grammar::step_token(cs, #[trigger] r[j]).token_type
                    != TokenType::EOF && grammar::step_token(cs, r[j]).start < grammar::step_token(
                    cs,
                    r[j],
                ).end
            &&& forall|j: int, m: int|
                0 <= j && m == j + 1 && m < n ==> grammar::step_token(cs, #[trigger] r[j]).end
                    <= grammar::step_token(cs, #[trigger] r[m]).start
            &&& forall|k: int| 0 <= k < r[0].begin ==> grammar::is_whitespace(#[trigger] cs[k])
            &&& forall|j: int, m: int, k: int|
                0 <= j && m == j + 1 && m < n && (#[trigger] r[j]).finish <= k < (#[trigger] r[m]).begin
                    ==> grammar::is_whitespace(#[trigger] cs[k])
        }),
{
    lemma_run_from(cs, 0);
    let r = grammar::lex_run(cs, 0);
    let n = r.len() as int;
    text::lemma_encode_subrange(cs, 0, cs.len() as int);
    assert forall|j: int| 0 <= j < n implies grammar::step_token(cs, #[trigger] r[j]).spans_whole_chars_of(
        cs,
    ) by {
        if j == 0 {
            lemma_token_span(cs, 0);
        } else {
            let p = r[j - 1];
            assert(r[j] == grammar::lex_step(cs, p.next));
            lemma_token_span(cs, p.next);
        }
    }
    assert forall|j: int| 0 <= j < n - 1 implies grammar::step_token(cs, #[trigger] r[j]).token_type
        != TokenType::EOF && grammar::step_token(cs, r[j]).start < grammar::step_token(cs, r[j]).end by {
        text::lemma_encode_subrange(cs, r[j].begin, r[j].finish);
        text::lemma_offset_monotonic(cs, r[j].begin, r[j].finish);
    }
    assert forall|j: int, m: int| 0 <= j && m == j + 1 && m < n implies grammar::step_token(
        cs,
        #[trigger] r[j],
    ).end <= grammar::step_token(cs, #[trigger] r[m]).start by {
        text::lemma_encode_subrange(cs, r[j].finish, r[m].begin);
    }
}

/// Calling the lexer again and again hands out the tokens of `lex_run` in
/// order: when each lexer of `lexers` is the one before it after one call that
/// returned the matching token of `tokens`, those tokens are the tokens of the
/// run from where the first lexer stood, as far as the run goes (after it the
/// lexer keeps returning the end-of-input token).
pub proof fn lemma_calls_follow_run<'a>(lexers: Seq<Lexer<'a>>, tokens: Seq<token::Token>)
    requires
        lexers.len() == tokens.len() + 1,
        forall|k: int|
            0 <= k < tokens.len() ==> (#[trigger] lexers[k]).wf() && lexers[k].lexed(
                lexers[k + 1],
                tokens[k],
            ),
    ensures
        forall|k: int|
            0 <= k < tokens.len() && k < grammar::lex_run(lexers[0].source(), lexers[0].cursor()).len()
                ==> #[trigger] tokens[k] == grammar::step_token(
                lexers[0].source(),
                grammar::lex_run(lexers[0].source(), lexers[0].cursor())[k],
            ),
    decreases tokens.len(),
{
    if tokens.len() > 0 {
        let cs = lexers[0].source();
        let c = lexers[0].cursor();
        assert(lexers[0].wf());
        lexers[0].lemma_well_formed();
        lemma_step_shape(cs, c);
        let st = grammar::lex_step(cs, c);
        let r = grammar::lex_run(cs, c);
        assert(r[0] == st);
        if st.token_type != TokenType::EOF {
            let ls = lexers.drop_first();
            let ts = tokens.drop_first();
            assert forall|k: int| 0 <= k < ts.len() implies (#[trigger] ls[k]).wf() && ls[k].lexed(
                ls[k + 1],
                ts[k],
            ) by {
                assert(ls[k] == lexers[k + 1]);
                assert(ls[k + 1] == lexers[k + 2]);
                assert(ts[k] == tokens[k + 1]);
                assert(lexers[k + 1].wf() && lexers[k + 1].lexed(lexers[k + 2], tokens[k + 1]));
            }
            lemma_calls_follow_run(ls, ts);
            assert(lexers[0].lexed(lexers[1], tokens[0]));
            let rest = grammar::lex_run(cs, st.next);
            assert(r == seq![st] + rest);
            assert forall|k: int| 0 <= k < tokens.len() && k < r.len() implies #[trigger] tokens[k]
                == grammar::step_token(cs, r[k]) by {
                if k > 0 {
                    assert(tokens[k] == ts[k - 1]);
                    assert(r[k] == rest[k - 1]);
                }
            }
        } else {
            assert(lexers[0].lexed(lexers[1], tokens[0]));
        }
    }
}

/// Only the eleven exact spellings are keywords: a word is `def`, `do`,
/// `end`, `if`, `else`, `elsif`, `while`, `return`, `true`, `false` or `nil`
/// exactly when it is classified as that keyword, and every other word, such
/// as `nil?` or `End`, is an identifier.
pub proof fn lemma_keyword_spellings(word: Seq<char>)
    ensures
        (token::keyword_type(word) == TokenType::Def) == (word == "def"@),
        (token::keyword_type(word) == TokenType::Do) == (word == "do"@),
        (token::keyword_type(word) == TokenType::End) == (word == "end"@),
        (token::keyword_type(word) == TokenType::If) == (word == "if"@),
        (token::keyword_type(word) == TokenType::Else) == (word == "else"@),
        (token::keyword_type(word) == TokenType::Elsif) == (word == "elsif"@),
        (token::keyword_type(word) == TokenType::While) == (word == "while"@),
        (token::keyword_type(word) == TokenType::Return) == (word == "return"@),
        (token::keyword_type(word) == TokenType::True) == (word == "true"@),
        (token::keyword_type(word) == TokenType::False) == (word == "false"@),
        (token::keyword_type(word) == TokenType::Nil) == (word == "nil"@),
        token::keyword_type(word) == TokenType::Identifier || word == "def"@ || word == "do"@
            || word == "end"@ || word == "if"@ || word == "else"@ || word == "elsif"@ || word
            == "while"@ || word == "return"@ || word == "true"@ || word == "false"@ || word
            == "nil"@,
{
    reveal_strlit("def");
    reveal_strlit("do");
    reveal_strlit("end");
    reveal_strlit("if");
    reveal_strlit("else");
    reveal_strlit("elsif");
    reveal_strlit("while");
    reveal_strlit("return");
    reveal_strlit("true");
    reveal_strlit("false");
    reveal_strlit("nil");
    assert("def"@.len() == 3 && "def"@[0] == 'd');
    assert("do"@.len() == 2 && "do"@[0] == 'd');
    assert("end"@.len() == 3 && "end"@[0] == 'e');
    assert("if"@.len() == 2 && "if"@[0] == 'i');
    assert("else"@.len() == 4 && "else"@[0] == 'e');
    assert("elsif"@.len() == 5 && "elsif"@[0] == 'e');
    assert("while"@.len() == 5 && "while"@[0] == 'w');
    assert("return"@.len() == 6 && "return"@[0] == 'r');
    assert("true"@.len() == 4 && "true"@[0] == 't');
    assert("false"@.len() == 5 && "false"@[0] == 'f');
    assert("nil"@.len() == 3 && "nil"@[0] == 'n');
}

/// Between tokens the lexer skips exactly spaces, tabs, newlines and carriage
/// returns: every character it passes over before a token is one of these
/// four, and the token begins at the first character that is not.
pub proof fn lemma_skips_only_blanks(cs: Seq<char>, i: int)
    requires
        0 <= i <= cs.len(),
    ensures
        ({
            let st = grammar::lex_step(cs, i);
            &&& i <= st.begin <= cs.len()
            &&& forall|k: int|
                i <= k < st.begin ==> #[trigger] cs[k] == ' ' || cs[k] == '\t' || cs[k] == '\n'
                    || cs[k] == '\r'
            &&& st.begin < cs.len() ==> !(cs[st.begin] == ' ' || cs[st.begin] == '\t'
                || cs[st.begin] == '\n' || cs[st.begin] == '\r')
        }),
{
    reveal(grammar::lex_step);
    lemma_whitespace_end(cs, i);
    lemma_step_shape(cs, i);
}

/// A character that starts no token (not a blank, not NUL, not one of the
/// punctuation and operator characters, not alphabetic, `_` or a digit), such
/// as `%`, `$` or `€`, gives an illegal token of exactly that character, with
/// an unexpected-character error, and lexing goes on right after it.
pub proof fn lemma_unexpected_character(cs: Seq<char>, i: int)
    requires
        0 <= i < cs.len(),
        !(cs[i] == ' ' || cs[i] == '\t' || cs[i] == '\n' || cs[i] == '\r' || cs[i] == '\0'),
        !(cs[i] == '(' || cs[i] == ')' || cs[i] == '{' || cs[i] == '}' || cs[i] == '['
            || cs[i] == ']' || cs[i] == ',' || cs[i] == ';' || cs[i] == '.' || cs[i] == '+'
            || cs[i] == '-' || cs[i] == '/' || cs[i] == '#' || cs[i] == '=' || cs[i] == '!'
            || cs[i] == '<' || cs[i] == '>' || cs[i] == '*' || cs[i] == '&' || cs[i] == '|'
            || cs[i] == '"' || cs[i] == ':'),
        !text::alphabetic(cs[i]),
        cs[i] != '_',
        !('0' <= cs[i] <= '9'),
    ensures
        ({
            let st = grammar::lex_step(cs, i);
            &&& st.token_type == TokenType::Illegal
            &&& st.error == Some(LexerErrorType::UnexpectedCharacter)
            &&& st.begin == i
            &&& st.finish == i + 1
            &&& st.next == i + 1
        }),
{
    reveal(grammar::lex_step);
}

/// A colon followed by a character that can start an identifier (an
/// alphabetic character, of either case or any script, or `_`) gives one
/// symbol token, without error, covering the colon and the whole identifier
/// after it.
pub proof fn lemma_symbol_reads_identifier(cs: Seq<char>, i: int)
    requires
        0 <= i < cs.len(),
        cs[i] == ':',
        i + 1 < cs.len(),
        text::alphabetic(cs[i + 1]) || cs[i + 1] == '_',
    ensures
        ({
            let st = grammar::lex_step(cs, i);
            &&& st.token_type == TokenType::Symbol
            &&& st.error is None
            &&& st.begin == i
            &&& st.finish == grammar::ident_end(cs, i + 1)
            &&& st.next == st.finish
            &&& i + 2 <= st.finish <= cs.len()
        }),
{
    reveal(grammar::lex_step);
    reveal(grammar::symbol_step);
    lemma_ident_run_end(cs, i + 1);
}

/// A word that starts with an alphabetic character, keyword or not, directly
/// followed by a colon gives one symbol key token, without error, covering the
/// word and the colon.
pub proof fn lemma_word_then_colon(cs: Seq<char>, i: int)
    requires
        0 <= i < cs.len(),
        text::alphabetic(cs[i]),
        grammar::char_at(cs, grammar::ident_end(cs, i)) == ':',
    ensures
        ({
            let st = grammar::lex_step(cs, i);
            &&& st.token_type == TokenType::SymbolKey
            &&& st.error is None
            &&& st.begin == i
            &&& st.finish == grammar::ident_end(cs, i) + 1
            &&& st.next == st.finish
        }),
{
    reveal(grammar::lex_step);
    lemma_ident_run_end(cs, i);
    let e = grammar::ident_end(cs, i);
    let word = cs.subrange(i, e);
    assert(word[0] == cs[i]);
}

proof fn lemma_string_close_quotes(cs: Seq<char>, k: int)
    requires
        0 <= k < cs.len(),
    ensures
        forall|q: int|
            k < q < grammar::string_close(cs, k) && #[trigger] cs[q] == '"' ==> cs[q - 1] == '\\',
    decreases cs.len() - k,
{
    lemma_string_close(cs, k);
    let m = k + 1;
    if grammar::char_at(cs, m) == '\\' && grammar::is_escapable(grammar::char_at(cs, m + 1)) {
        lemma_string_close_quotes(cs, m + 1);
    } else if grammar::char_at(cs, m) == '"' || grammar::char_at(cs, m) == '\0' {
    } else {
        lemma_string_close_quotes(cs, m);
    }
}

/// A double quote starts a string literal that ends at the first double quote
/// that no backslash escapes: the token is a string, without error, from the
/// opening to that closing quote (so `""` is the empty string); when a NUL or
/// the end of the source comes first, it is an illegal token running up to it,
/// with an unterminated-string error. Inside the literal every double quote is
/// escaped by a backslash.
pub proof fn lemma_string_literal(cs: Seq<char>, i: int)
    requires
        0 <= i < cs.len(),
        cs[i] == '"',
    ensures
        ({
            let st = grammar::lex_step(cs, i);
            &&& st.begin == i
            &&& st.next == st.finish
            &&& st.finish <= cs.len()
            &&& (st.token_type == TokenType::String && st.error is None) || (st.token_type
                == TokenType::Illegal && st.error == Some(LexerErrorType::UnterminatedString))
            &&& st.token_type == TokenType::String ==> i + 2 <= st.finish && cs[st.finish - 1]
                == '"'
            &&& st.token_type == TokenType::Illegal ==> i < st.finish && grammar::char_at(
                cs,
                st.finish,
            ) == '\0'
            &&& forall|q: int|
                i < q < (if st.token_type == TokenType::String {
                    st.finish - 1
                } else {
                    st.finish
                }) && #[trigger] cs[q] == '"' ==> cs[q - 1] == '\\'
            &&& i + 1 < cs.len() && cs[i + 1] == '"' ==> st.token_type == TokenType::String
                && st.finish == i + 2
        }),
{
    reveal(grammar::lex_step);
    reveal(grammar::string_step);
    lemma_string_close(cs, i);
    lemma_string_close_quotes(cs, i);
}

/// The characters a backslash escapes inside a string literal.
pub open spec fn escaped_by_backslash(c: char) -> bool {
    c == 'n' || c == 'r' || c == 't' || c == '\\' || c == '"' || c == '0' || c == 'a' || c == 'b'
}

proof fn lemma_string_close_agree(a: Seq<char>, b: Seq<char>, k: int)
    requires
        a.len() == b.len(),
        0 <= k < a.len(),
        forall|j: int| k < j < a.len() ==> a[j] == b[j],
    ensures
        grammar::string_close(a, k) == grammar::string_close(b, k),
    decreases a.len() - k,
{
    let m = k + 1;
    if m < a.len() {
        if grammar::char_at(a, m) == '\\' && grammar::is_escapable(grammar::char_at(a, m + 1)) {
            lemma_string_close_agree(a, b, m + 1);
        } else if grammar::char_at(a, m) == '"' || grammar::char_at(a, m) == '\0' {
        } else {
            lemma_string_close_agree(a, b, m);
        }
    }
}

/// How a string literal is read, one character after the opening quote at a
/// time: a double quote right after it closes an (empty) string; a NUL or the
/// end of the source leaves it unterminated; a backslash and a character it
/// escapes are passed over together; any other character is passed over
/// alone. "Passed over" means: the literal ends where a literal opened by a
/// quote put in place of the last character passed over would end, with the
/// same outcome.
pub proof fn lemma_string_steps(cs: Seq<char>, i: int)
    requires
        0 <= i < cs.len(),
        cs[i] == '"',
    ensures
        ({
            let st = grammar::lex_step(cs, i);
            &&& i + 1 < cs.len() && cs[i + 1] == '"' ==> st.token_type == TokenType::String
                && st.error is None && st.begin == i && st.finish == i + 2 && st.next == i + 2
            &&& (i + 1 == cs.len() || cs[i + 1] == '\0') ==> st.token_type == TokenType::Illegal
                && st.error == Some(LexerErrorType::UnterminatedString) && st.begin == i
                && st.finish == i + 1 && st.next == i + 1
            &&& i + 2 < cs.len() && cs[i + 1] == '\\' && escaped_by_backslash(cs[i + 2]) ==> {
                let st2 = grammar::lex_step(cs.update(i + 2, '"'), i + 2);
                &&& st.token_type == st2.token_type
                &&& st.error == st2.error
                &&& st.begin == i
                &&& st.finish == st2.finish
                &&& st.next == st2.next
            }
            &&& i + 1 < cs.len() && cs[i + 1] != '"' && cs[i + 1] != '\0' && !(cs[i + 1] == '\\'
                && i + 2 < cs.len() && escaped_by_backslash(cs[i + 2])) ==> {
                let st2 = grammar::lex_step(cs.update(i + 1, '"'), i + 1);
                &&& st.token_type == st2.token_type
                &&& st.error == st2.error
                &&& st.begin == i
                &&& st.finish == st2.finish
                &&& st.next == st2.next
            }
        }),
{
    reveal(grammar::lex_step);
    reveal(grammar::string_step);
    lemma_string_close(cs, i);
    if i + 2 < cs.len() && cs[i + 1] == '\\' && escaped_by_backslash(cs[i + 2]) {
        let c2 = cs.update(i + 2, '"');
        lemma_string_close_agree(cs, c2, i + 2);
        lemma_string_close(cs, i + 2);
        assert(grammar::whitespace_end(c2, i + 2) == i + 2);
    }
    if i + 1 < cs.len() && cs[i + 1] != '"' && cs[i + 1] != '\0' && !(cs[i + 1] == '\\' && i + 2
        < cs.len() && escaped_by_backslash(cs[i + 2])) {
        let c2 = cs.update(i + 1, '"');
        lemma_string_close_agree(cs, c2, i + 1);
        lemma_string_close(cs, i + 1);
        assert(grammar::whitespace_end(c2, i + 1) == i + 1);
    }
}

/// A step that reads `t` from the `len` characters at `i`, with no error.
pub open spec fn reads(t: TokenType, i: int, len: int) -> grammar::Step {
    grammar::Step { token_type: t, begin: i, finish: i + len, error: None, next: i + len }
}

/// The punctuation and operators: each reads as the token the character (and
/// the one after it, for a two-character operator) spells; `=`, `!`, `<`,
/// `>` and `*` read alone when the next character does not make a
/// two-character operator with them, and a lone `&` or `|` is an unexpected
/// character.
pub proof fn lemma_operators(cs: Seq<char>, i: int)
    requires
        0 <= i < cs.len(),
    ensures
        ({
            let st = grammar::lex_step(cs, i);
            let c = cs[i];
            let d = grammar::char_at(cs, i + 1);
            &&& c == '(' ==> st == reads(TokenType::LParen, i, 1)
            &&& c == ')' ==> st == reads(TokenType::RParen, i, 1)
            &&& c == '{' ==> st == reads(TokenType::LBrace, i, 1)
            &&& c == '}' ==> st == reads(TokenType::RBrace, i, 1)
            &&& c == '[' ==> st == reads(TokenType::LBrack, i, 1)
            &&& c == ']' ==> st == reads(TokenType::RBrack, i, 1)
            &&& c == ',' ==> st == reads(TokenType::Comma, i, 1)
            &&& c == ';' ==> st == reads(TokenType::Semicolon, i, 1)
            &&& c == '.' ==> st == reads(TokenType::Dot, i, 1)
            &&& c == '+' ==> st == reads(TokenType::Plus, i, 1)
            &&& c == '-' ==> st == reads(TokenType::Minus, i, 1)
            &&& c == '/' ==> st == reads(TokenType::Slash, i, 1)
            &&& c == '=' && d == '=' ==> st == reads(TokenType::Eq, i, 2)
            &&& c == '=' && d == '>' ==> st == reads(TokenType::HashRocket, i, 2)
            &&& c == '=' && d != '=' && d != '>' ==> st == reads(TokenType::Assign, i, 1)
            &&& c == '!' && d == '=' ==> st == reads(TokenType::NotEq, i, 2)
            &&& c == '!' && d != '=' ==> st == reads(TokenType::Bang, i, 1)
            &&& c == '<' && d == '=' ==> st == reads(TokenType::LTE, i, 2)
            &&& c == '<' && d != '=' ==> st == reads(TokenType::LT, i, 1)
            &&& c == '>' && d == '=' ==> st == reads(TokenType::GTE, i, 2)
            &&& c == '>' && d != '=' ==> st == reads(TokenType::GT, i, 1)
            &&& c == '*' && d == '*' ==> st == reads(TokenType::Power, i, 2)
            &&& c == '*' && d != '*' ==> st == reads(TokenType::Asterisk, i, 1)
            &&& c == '&' && d == '&' ==> st == reads(TokenType::And, i, 2)
            &&& c == '|' && d == '|' ==> st == reads(TokenType::Or, i, 2)
            &&& (c == '&' && d != '&' || c == '|' && d != '|') ==> st == grammar::Step {
                token_type: TokenType::Illegal,
                begin: i,
                finish: i + 1,
                error: Some(LexerErrorType::UnexpectedCharacter),
                next: i + 1,
            }
        }),
{
    reveal(grammar::lex_step);
}

/// Lines and columns, character by character: the first character is on line
/// 1, column 1; a newline moves the next character to the next line, column
/// 1; any other character moves it one column on. At the end of the source the
/// column is that of the last character (0 after a newline or in an empty
/// source).
pub proof fn lemma_line_and_column_steps(cs: Seq<char>, i: int)
    requires
        0 <= i < cs.len(),
    ensures
        grammar::line_at(cs, 0) == 1,
        grammar::column_at(cs, 0) == 1,
        grammar::line_at(cs, i + 1) == grammar::line_at(cs, i) + if cs[i] == '\n' {
            1int
        } else {
            0int
        },
        grammar::column_at(cs, i + 1) == (if cs[i] == '\n' {
            0
        } else {
            grammar::column_at(cs, i)
        }) + if i + 1 < cs.len() {
            1int
        } else {
            0int
        },
{
}

/// A blank: space, tab, newline or carriage return.
pub open spec fn is_blank(c: char) -> bool {
    c == ' ' || c == '\t' || c == '\n' || c == '\r'
}

/// A colon that no alphabetic character or `_` follows is an invalid symbol:
/// with a blank, a NUL or the end of the source after it, the illegal token is
/// the colon alone; with anything else after it, the token runs on up to the
/// next blank, NUL, alphabetic character or the end of the source.
pub proof fn lemma_invalid_symbol(cs: Seq<char>, i: int)
    requires
        0 <= i < cs.len(),
        cs[i] == ':',
        !(i + 1 < cs.len() && (text::alphabetic(cs[i + 1]) || cs[i + 1] == '_')),
    ensures
        ({
            let st = grammar::lex_step(cs, i);
            &&& st.token_type == TokenType::Illegal
            &&& st.error == Some(LexerErrorType::InvalidSymbol)
            &&& st.begin == i
            &&& st.next == st.finish
            &&& i + 1 <= st.finish <= cs.len()
            &&& (i + 1 == cs.len() || is_blank(cs[i + 1]) || cs[i + 1] == '\0') ==> st.finish
                == i + 1
            &&& (i + 1 < cs.len() && !is_blank(cs[i + 1]) && cs[i + 1] != '\0') ==> i + 1
                < st.finish
            &&& forall|k: int|
                i + 1 <= k < st.finish ==> !is_blank(#[trigger] cs[k]) && cs[k] != '\0'
                    && !text::alphabetic(cs[k])
            &&& i + 1 < st.finish < cs.len() ==> is_blank(cs[st.finish]) || cs[st.finish] == '\0'
                || text::alphabetic(cs[st.finish])
        }),
{
    reveal(grammar::lex_step);
    reveal(grammar::symbol_step);
    lemma_symbol_junk_end(cs, i + 1);
}

proof fn lemma_underscore_run_end(word: Seq<char>, k: int)
    requires
        0 <= k <= word.len(),
    ensures
        k <= grammar::underscore_run_end(word, k) <= word.len(),
        forall|v: int| k <= v < grammar::underscore_run_end(word, k) ==> #[trigger] word[v] == '_',
        grammar::underscore_run_end(word, k) < word.len() ==> word[grammar::underscore_run_end(
            word,
            k,
        )] != '_',
    decreases word.len() - k,
{
    if k < word.len() && word[k] == '_' {
        lemma_underscore_run_end(word, k + 1);
    }
}

/// A word made of underscores and then a numeric character, such as `_1`.
pub open spec fn underscores_then_digit(cs: Seq<char>, i: int, e: int) -> bool {
    &&& cs[i] == '_'
    &&& exists|u: int|
        i < u < e && text::numeric(#[trigger] cs[u]) && forall|v: int| i <= v < u ==> #[trigger] cs[v]
            == '_'
}

/// A word: it starts with an alphabetic character or `_`, goes on with
/// alphabetic or numeric characters and `_` for as long as there are any, and
/// takes one `!` or `?` after them if there is one. A word directly followed by
/// a colon is a symbol key (word and colon); otherwise it is the keyword it
/// spells or an identifier. A word of underscores and then a numeric
/// character, as `_1`, is an invalid number instead, colon or not.
pub proof fn lemma_word(cs: Seq<char>, i: int)
    requires
        0 <= i < cs.len(),
        text::alphabetic(cs[i]) || cs[i] == '_',
    ensures
        ({
            let st = grammar::lex_step(cs, i);
            let e = if st.token_type == TokenType::SymbolKey {
                st.finish - 1
            } else {
                st.finish
            };
            let word = cs.subrange(i, e);
            let ident = |c: char| text::alphabetic(c) || text::numeric(c) || c == '_';
            &&& st.begin == i
            &&& st.next == st.finish
            &&& i < e <= cs.len()
            &&& forall|k: int|
                i < k < e ==> ident(#[trigger] cs[k]) || (k == e - 1 && (cs[k] == '!' || cs[k]
                    == '?'))
            &&& !(cs[e - 1] == '!' || cs[e - 1] == '?') ==> !(ident(grammar::char_at(cs, e))
                || grammar::char_at(cs, e) == '!' || grammar::char_at(cs, e) == '?')
            &&& (st.token_type == TokenType::Illegal) == underscores_then_digit(cs, i, e)
            &&& st.token_type == TokenType::Illegal ==> st.error == Some(
                LexerErrorType::InvalidNumber,
            )
            &&& st.token_type != TokenType::Illegal ==> st.error is None
            &&& st.token_type == TokenType::SymbolKey ==> cs[e] == ':'
            &&& st.token_type != TokenType::Illegal && st.token_type != TokenType::SymbolKey ==> {
                &&& grammar::char_at(cs, e) != ':'
                &&& st.token_type == token::keyword_type(word)
            }
        }),
{
    reveal(grammar::lex_step);
    lemma_ident_run_end(cs, i);
    lemma_ident_run_end(cs, i + 1);
    let e = grammar::ident_end(cs, i);
    let word = cs.subrange(i, e);
    lemma_underscore_run_end(word, 0);
    let u = grammar::underscore_run_end(word, 0);
    if grammar::underscore_then_numeric(word) {
        assert(text::numeric(cs[i + u]));
        assert forall|v: int| i <= v < i + u implies #[trigger] cs[v] == '_' by {
            assert(cs[v] == word[v - i]);
        }
        assert(underscores_then_digit(cs, i, e));
    } else if underscores_then_digit(cs, i, e) {
        let u2 = choose|u2: int|
            i < u2 < e && text::numeric(#[trigger] cs[u2]) && forall|v: int| i <= v < u2 ==> #[trigger] cs[v]
                == '_';
        assert(word[0] == '_');
        if u < u2 - i {
            assert(cs[i + u] == '_');
            assert(word[u] == cs[i + u]);
        } else if u > u2 - i {
            assert(word[u2 - i] == cs[u2]);
            assert(word[u2 - i] == '_');
        }
        assert(word[u] == cs[u2]);
    }
}

/// The characters from `a` to `b` are digits and underscores that make a
/// well-formed part of a number: at least one, not ending in `_`, and no two
/// `_` in a row.
pub open spec fn well_formed_digits(cs: Seq<char>, a: int, b: int) -> bool {
    &&& a < b
    &&& cs[b - 1] != '_'
    &&& forall|k: int| a <= k < b - 1 ==> !(#[trigger] cs[k] == '_' && cs[k + 1] == '_')
}

/// A number, starting at a digit: its token runs over the digits and
/// underscores that follow, and, when a dot and a digit come next, over the dot
/// and the digits and underscores after it. Without a dot it is an integer
/// when its digits are well formed; with one, a float when both parts are; any
/// other such token is an invalid number.
pub proof fn lemma_number(cs: Seq<char>, i: int)
    requires
        0 <= i < cs.len(),
        '0' <= cs[i] <= '9',
    ensures
        ({
            let st = grammar::lex_step(cs, i);
            let f = st.finish;
            let digitish = |c: char| '0' <= c <= '9' || c == '_';
            &&& st.begin == i
            &&& st.next == f
            &&& i < f <= cs.len()
            &&& st.token_type == TokenType::Integer || st.token_type == TokenType::Float
                || st.token_type == TokenType::Illegal
            &&& st.token_type == TokenType::Illegal ==> st.error == Some(
                LexerErrorType::InvalidNumber,
            )
            &&& st.token_type != TokenType::Illegal ==> st.error is None
            &&& !digitish(grammar::char_at(cs, f))
            &&& (forall|k: int| i <= k < f ==> #[trigger] cs[k] != '.') ==> {
                &&& forall|k: int| i <= k < f ==> digitish(#[trigger] cs[k])
                &&& !(grammar::char_at(cs, f) == '.' && '0' <= grammar::char_at(cs, f + 1) <= '9')
                &&& st.token_type != TokenType::Float
                &&& (st.token_type == TokenType::Integer) == well_formed_digits(cs, i, f)
            }
            &&& forall|d: int|
                i <= d < f && #[trigger] cs[d] == '.' ==> {
                    &&& i < d && d + 1 < f
                    &&& '0' <= cs[d + 1] <= '9'
                    &&& forall|k: int| i <= k < f && k != d ==> digitish(#[trigger] cs[k])
                    &&& st.token_type != TokenType::Integer
                    &&& (st.token_type == TokenType::Float) == (well_formed_digits(cs, i, d)
                        && well_formed_digits(cs, d + 1, f))
                }
        }),
{
    reveal(grammar::lex_step);
    reveal(grammar::number_step);
    lemma_digit_run_end(cs, i);
    let r1 = grammar::digit_run_end(cs, i);
    if grammar::char_at(cs, r1) == '.' && grammar::is_digit(grammar::char_at(cs, r1 + 1)) {
        lemma_digit_run_end(cs, r1 + 1);
        let r2 = grammar::digit_run_end(cs, r1 + 1);
        assert(cs[r1] == '.');
        assert forall|d: int| i <= d < r2 && #[trigger] cs[d] == '.' implies d == r1 by {
            if d < r1 {
            } else if d > r1 {
            }
        }
    } else {
        assert forall|k: int| i <= k < r1 implies #[trigger] cs[k] != '.' by {
        }
    }
}

/// A `#` starts a comment that runs up to the next newline or NUL, or to the
/// end of the source; the lexer then goes on after that newline or NUL.
pub proof fn lemma_comment(cs: Seq<char>, i: int)
    requires
        0 <= i < cs.len(),
        cs[i] == '#',
    ensures
        ({
            let st = grammar::lex_step(cs, i);
            &&& st.token_type == TokenType::Comment
            &&& st.error is None
            &&& st.begin == i
            &&& i < st.finish <= cs.len()
            &&& forall|k: int| i < k < st.finish ==> #[trigger] cs[k] != '\n' && cs[k] != '\0'
            &&& st.finish < cs.len() ==> cs[st.finish] == '\n' || cs[st.finish] == '\0'
            &&& st.next == if st.finish < cs.len() {
                st.finish + 1
            } else {
                st.finish
            }
        }),
{
    reveal(grammar::lex_step);
    lemma_comment_end(cs, i + 1);
}

/// At a NUL or at the end of the source the lexer gives the end-of-input
/// token, an empty span there, and goes on after the NUL (or stays at the
/// end).
pub proof fn lemma_end_of_input(cs: Seq<char>, i: int)
    requires
        0 <= i <= cs.len(),
        i == cs.len() || cs[i] == '\0',
    ensures
        grammar::lex_step(cs, i) == (grammar::Step {
            token_type: TokenType::EOF,
            begin: i,
            finish: i,
            error: None,
            next: if i < cs.len() {
                i + 1
            } else {
                i
            },
        }),
{
    reveal(grammar::lex_step);
}

/// A blank before a token changes nothing: lexing from a blank gives the same
/// step as lexing from the character after it.
pub proof fn lemma_blank_skipped(cs: Seq<char>, i: int)
    requires
        0 <= i < cs.len(),
        is_blank(cs[i]),
    ensures
        grammar::lex_step(cs, i) == grammar::lex_step(cs, i + 1),
{
    reveal(grammar::lex_step);
}

} // verus!
