//! Lexers for Lua source text.
//!
//! - `token`: the tokens, a kind and a length in bytes;
//! - `chars`: character classes, runs of characters and UTF-8 byte counts;
//! - `rules`: what `lexer::Lexer` reads, stated over the input's characters;
//! - `lexer`: the lexer;
//! - `lua_syntax`: the `lua-syntax` package's lexer: the same rules, and one fixed reading;
//! - `laws`: what holds of every token sequence the lexers return.
pub mod chars;
pub mod token;
pub mod rules;
pub mod lexer;
pub mod lua_syntax;
pub mod laws;
