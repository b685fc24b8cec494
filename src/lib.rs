//! A streaming scanner for an indentation-sensitive, YAML-like markup language:
//! characters go in, position-tagged tokens come out, one pull at a time.

pub mod cli;
pub mod parser;
pub mod tokenizer;
pub mod tokens;

pub use cli::{Cli, CliError, Commands, FunctionError};
pub use parser::{Event, Parser};
pub use tokenizer::Lexer;
pub use tokens::{
    is_blank, is_blank_end, is_break, is_break_end, is_end, is_flow, CharacterPosition, LexErr,
    YamlToken, YamlTokenType,
};
