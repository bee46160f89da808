//! The instructions that the tokenizer hands to the execution engine, and the ways in
//! which tokenizing can fail.

use vstd::prelude::*;
use crate::value::{SpecValue, VariableValue};

verus! {

/// The reserved words of the language. Only `var`, `print` and `funky` start a statement
/// that can be executed; the others are reserved and rejected.
#[derive(Debug, Clone, Copy, PartialEq, Eq, Structural)]
pub enum Keyword {
    Var,
    Print,
    If,
    Else,
    While,
    For,
    Funky,
    Here,
}

impl Keyword {
    /// The spelling of the keyword.
    pub open spec fn text(self) -> Seq<char> {
        match self {
            Keyword::Var => seq!['v', 'a', 'r'],
            Keyword::Print => seq!['p', 'r', 'i', 'n', 't'],
            Keyword::If => seq!['i', 'f'],
            Keyword::Else => seq!['e', 'l', 's', 'e'],
            Keyword::While => seq!['w', 'h', 'i', 'l', 'e'],
            Keyword::For => seq!['f', 'o', 'r'],
            Keyword::Funky => seq!['f', 'u', 'n', 'k', 'y'],
            Keyword::Here => seq!['h', 'e', 'r', 'e'],
        }
    }

    /// The spelling of the keyword.
    pub fn spelling(&self) -> (v: Vec<char>)
        ensures
            v@ == self.text(),
    {
        match self {
            Keyword::Var => vec!['v', 'a', 'r'],
            Keyword::Print => vec!['p', 'r', 'i', 'n', 't'],
            Keyword::If => vec!['i', 'f'],
            Keyword::Else => vec!['e', 'l', 's', 'e'],
            Keyword::While => vec!['w', 'h', 'i', 'l', 'e'],
            Keyword::For => vec!['f', 'o', 'r'],
            Keyword::Funky => vec!['f', 'u', 'n', 'k', 'y'],
            Keyword::Here => vec!['h', 'e', 'r', 'e'],
        }
    }
}

/// Why the tokenizer could not produce a token.
#[derive(Debug, Clone, Copy, PartialEq, Eq, Structural)]
pub enum LexicalError {
    /// A `"` has no closing `"`.
    UnterminatedQuote,
    /// A `(` that a statement needs is absent, or has no closing `)`.
    UnmatchedBracket,
    /// The `{` of a function body is absent, or has no closing `}`.
    UnmatchedBrace,
    /// The value of a variable is neither a text nor a run of digits that fits 64 bits.
    InvalidInteger,
    /// A print statement has no argument between its brackets.
    MissingArgument,
    /// A reserved word that starts no executable statement.
    UnsupportedKeyword(Keyword),
}

/// One instruction, as the tokenizer produces it.
#[derive(Debug, PartialEq, Eq)]
pub enum Token {
    /// The end of the input.
    EOF,
    /// A print statement: its first argument, then all its arguments, the first included.
    PrintWithArgument(String, Vec<String>),
    /// A variable declaration: the name and the value.
    Variable(String, VariableValue),
    /// A function definition: the name, the source text of the body, the parameter names.
    FunctionDefinition(String, String, Vec<String>),
    /// A function call: the name and the arguments.
    FunctionCall(String, Vec<String>),
}

/// The mathematical model of a `Token`.
pub enum SpecToken {
    EOF,
    PrintWithArgument(Seq<char>, Seq<Seq<char>>),
    Variable(Seq<char>, SpecValue),
    FunctionDefinition(Seq<char>, Seq<char>, Seq<Seq<char>>),
    FunctionCall(Seq<char>, Seq<Seq<char>>),
}

/// The texts that a sequence of strings holds, in order.
pub open spec fn texts(v: Seq<String>) -> Seq<Seq<char>> {
    Seq::new(v.len(), |i: int| v[i]@)
}

impl View for Token {
    type V = SpecToken;

    open spec fn view(&self) -> SpecToken {
        match self {
            Token::EOF => SpecToken::EOF,
            Token::PrintWithArgument(first, args) => SpecToken::PrintWithArgument(
                first@,
                texts(args@),
            ),
            Token::Variable(name, value) => SpecToken::Variable(name@, value@),
            Token::FunctionDefinition(name, body, params) => SpecToken::FunctionDefinition(
                name@,
                body@,
                texts(params@),
            ),
            Token::FunctionCall(name, args) => SpecToken::FunctionCall(name@, texts(args@)),
        }
    }
}

/// The reserved words, in the order in which the tokenizer tries them.
pub open spec fn keyword_list() -> Seq<Keyword> {
    seq![
        Keyword::Var,
        Keyword::Print,
        Keyword::If,
        Keyword::Else,
        Keyword::While,
        Keyword::For,
        Keyword::Funky,
        Keyword::Here,
    ]
}

/// The reserved words, in the order in which the tokenizer tries them.
pub fn keywords() -> (v: Vec<Keyword>)
    ensures
        v@ == keyword_list(),
{
    vec![
        Keyword::Var,
        Keyword::Print,
        Keyword::If,
        Keyword::Else,
        Keyword::While,
        Keyword::For,
        Keyword::Funky,
        Keyword::Here,
    ]
}

} // verus!
