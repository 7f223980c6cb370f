# lua_lexer

Lexers for Lua source text, verified with Verus. `lexer::Lexer::new(text).tokenize()`
returns the tokens of `text` (whitespace and comments included), each a kind and a length
in bytes; its result is exactly `rules::lex(text@)`. The rules cover whitespace, line and
block comments (`--...`, `--[==[...]==]`), numerals, names (`Ident`), quoted and long-bracket
strings, and the operator and punctuation symbols. `laws` proves that the lengths add up to
the text's length in bytes, that no token is empty, that the end-of-input mark is never
returned, and that whitespace runs are maximal.

`lua_syntax::Lexer` is the lexer of the `lua-syntax` package. It reads by the same rules,
with one exception that package's own test fixes: the text `--hello`, as a whole, is read as
one `Ident` token of length 4. No lexing rule of the package's code or documentation yields
that reading (by the rules `--hello` is a line comment of 7 bytes, which is also what the
test `trivias_linecomment` expects of `lexer::Lexer`), so `lua_syntax::syntax_tokens` states
it as a reading of that one text and of no other.

`app/` prints the tokens of a sample program.
