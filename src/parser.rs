use vstd::prelude::*;
use crate::tokenizer::Lexer;
use crate::tokens::{CharacterPosition, YamlToken, YamlTokenType};

verus! {

/// The states of the parser: each expects certain kinds of token.
#[derive(Debug, Clone, Copy, PartialEq, Eq)]
enum State {
    StreamStart,
}

/// An event of the event-based parsing interface.
#[derive(Clone, PartialEq, Debug, Eq)]
pub enum Event {
    /// Reserved for internal use
    Nothing,
    StreamStart,
    StreamEnd,
    DocumentStart,
    DocumentEnd,
    /// Refer to an anchor ID
    Alias(usize),
    /// Value, style, anchor_id, tag
    Scalar(String, usize, Option<YamlTokenType>),
    /// Anchor ID
    SequenceStart(usize),
    SequenceEnd,
    /// Anchor ID
    MappingStart(usize),
    MappingEnd,
}

/// A parser that pulls its tokens from a scanner.
pub struct Parser {
    scanner: Lexer,
    states: Vec<State>,
    state: State,
    token: Option<YamlToken>,
    current: Option<(Event, CharacterPosition)>,
}

} // verus!
