//! A small interactive shell's verified core: tokenizer, parser, alias
//! store, builtins and the plans that run parsed command lines.
pub mod text;
pub mod args;
pub mod stream;
pub mod cmd;
pub mod aliases;
pub mod state;
pub mod parser;
pub mod builtin;
pub mod plan;
pub mod completion;
pub mod precedence;
