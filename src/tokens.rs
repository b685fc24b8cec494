use vstd::prelude::*;

verus! {

/// A place in the character stream: how many characters were consumed before it,
/// and the human-readable line (from 1) and column (from 0).
#[derive(Clone, Copy, PartialEq, Debug, Eq)]
pub struct CharacterPosition {
    pub index: usize,
    pub line: usize,
    pub column: usize,
}

impl CharacterPosition {
    pub open spec fn spec_index(&self) -> nat {
        self.index as nat
    }

    pub fn index(&self) -> (r: usize)
        ensures
            r == self.spec_index(),
    {
        self.index
    }

    /// Counts one more consumed character.
    pub fn next_index(&mut self)
        requires
            old(self).spec_index() < usize::MAX,
        ensures
            final(self).spec_index() == old(self).spec_index() + 1,
            final(self).line == old(self).line,
            final(self).column == old(self).column,
    {
        self.index = self.index + 1;
    }
}

impl Default for CharacterPosition {
    /// The start of a stream: nothing consumed, first line, first column.
    fn default() -> (r: Self)
        ensures
            r.spec_index() == 0,
            r.line == 1,
            r.column == 0,
    {
        CharacterPosition { index: 0, line: 1, column: 0 }
    }
}

/// What a token is.
#[derive(Clone, PartialEq, Debug, Eq)]
pub enum YamlTokenType {
    NoToken,
    Scalar(String),
    Key,
    Value,
    Start,
    End,
}

/// What a token is, with a scalar's text as a sequence of characters.
pub enum Lexeme {
    NoToken,
    Scalar(Seq<char>),
    Key,
    Value,
    Start,
    End,
}

impl View for YamlTokenType {
    type V = Lexeme;

    open spec fn view(&self) -> Lexeme {
        match self {
            YamlTokenType::NoToken => Lexeme::NoToken,
            YamlTokenType::Scalar(s) => Lexeme::Scalar(s@),
            YamlTokenType::Key => Lexeme::Key,
            YamlTokenType::Value => Lexeme::Value,
            YamlTokenType::Start => Lexeme::Start,
            YamlTokenType::End => Lexeme::End,
        }
    }
}

/// A token together with the position at which it began.
#[derive(Clone, PartialEq, Debug, Eq)]
pub struct YamlToken(pub CharacterPosition, pub YamlTokenType);

/// The one way scanning can fail: text that fits no token, and where it began.
#[derive(Clone, PartialEq, Debug, Eq)]
pub enum LexErr {
    UnknownToken(String, CharacterPosition),
}

/// The sentinel that stands for the end of the stream.
pub open spec fn end_char(c: char) -> bool {
    c == '\0'
}

pub open spec fn break_char(c: char) -> bool {
    c == '\n' || c == '\r'
}

pub open spec fn blank_char(c: char) -> bool {
    c == ' ' || c == '\t'
}

/// The characters that give structure to a flow collection.
pub open spec fn flow_char(c: char) -> bool {
    c == ',' || c == '[' || c == ']' || c == '{' || c == '}'
}

/// A blank, a line break or the end of the stream.
pub open spec fn blank_end_char(c: char) -> bool {
    blank_char(c) || break_char(c) || end_char(c)
}

pub fn is_end(c: char) -> (r: bool)
    ensures
        r == end_char(c),
{
    c == '\0'
}

pub fn is_break(c: char) -> (r: bool)
    ensures
        r == break_char(c),
{
    c == '\n' || c == '\r'
}

pub fn is_break_end(c: char) -> (r: bool)
    ensures
        r == (break_char(c) || end_char(c)),
{
    is_break(c) || is_end(c)
}

pub fn is_blank(c: char) -> (r: bool)
    ensures
        r == blank_char(c),
{
    c == ' ' || c == '\t'
}

pub fn is_blank_end(c: char) -> (r: bool)
    ensures
        r == blank_end_char(c),
{
    is_blank(c) || is_break_end(c)
}

pub fn is_flow(c: char) -> (r: bool)
    ensures
        r == flow_char(c),
{
    match c {
        ',' | '[' | ']' | '{' | '}' => true,
        _ => false,
    }
}

} // verus!
