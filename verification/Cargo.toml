[package]
name = "lua_lexer"
version = "0.1.0"
edition = "2021"
publish = false

[dev-dependencies]
unindent = "0.2"
