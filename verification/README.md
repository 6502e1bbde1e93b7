# topaz

The lexer of Topaz, a small dynamically typed language in the style of Ruby,
written in Verus and proved against a statement of its lexical grammar.

- `src/token.rs` — token kinds, tokens as byte spans of the source, the keyword
  table.
- `src/text.rs` — byte offsets of UTF-8 encoded characters, decoding a character
  at an offset, and the Unicode character classes the lexer asks std for.
- `src/lexer/grammar.rs` — the lexical grammar over the characters of the source:
  what one call of the lexer produces from a given character index, and line and
  column numbers.
- `src/lexer/lexer.rs` — the lexer; `next_token` is proved to produce exactly what
  the grammar says.
- `src/lexer/laws.rs` — properties of every step (progress, spans, errors,
  the shape of each kind of token) and of a whole run of the lexer, whose
  tokens tile the source.
- `src/lexer/error.rs` — recorded errors and their messages.
- `app/main.rs` — prints the tokens of a sample program.
