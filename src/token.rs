//! Tokens and their mathematical values.

use vstd::prelude::*;

verus! {

/// A decimal floating-point literal, kept exactly as it was written: its sign,
/// the value of the digits before the point, and the digits after the point.
#[derive(Clone, Debug, PartialEq, Eq)]
pub struct FloatLiteral {
    pub negative: bool,
    pub whole: u128,
    /// Each entry is a digit value, `0..=9`.
    pub fraction: Vec<u8>,
}

/// A classified lexical token.
#[derive(Clone, Debug, PartialEq, Eq)]
pub enum Token {
    Float(FloatLiteral),
    /// An identifier, holding its text.
    String(String),
    Int(i32),
    Plus,
    Minus,
    Multiply,
    Divide,
    If,
    Else,
    While,
    PlusEquals,
    MultiplyEquals,
    MinusEquals,
    DivideEquals,
    NotEquals,
    GreaterThan,
    LessThan,
    GreaterThanOrEqual,
    LessThanOrEqual,
}

/// The mathematical value of a token.
pub enum TokenView {
    Float { negative: bool, whole: nat, fraction: Seq<u8> },
    Identifier(Seq<char>),
    Int(int),
    Plus,
    Minus,
    Multiply,
    Divide,
    If,
    Else,
    While,
    PlusEquals,
    MultiplyEquals,
    MinusEquals,
    DivideEquals,
    NotEquals,
    GreaterThan,
    LessThan,
    GreaterThanOrEqual,
    LessThanOrEqual,
}

impl View for Token {
    type V = TokenView;

    open spec fn view(&self) -> TokenView {
        match self {
            Token::Float(f) => TokenView::Float {
                negative: f.negative,
                whole: f.whole as nat,
                fraction: f.fraction@,
            },
            Token::String(s) => TokenView::Identifier(s@),
            Token::Int(v) => TokenView::Int(*v as int),
            Token::Plus => TokenView::Plus,
            Token::Minus => TokenView::Minus,
            Token::Multiply => TokenView::Multiply,
            Token::Divide => TokenView::Divide,
            Token::If => TokenView::If,
            Token::Else => TokenView::Else,
            Token::While => TokenView::While,
            Token::PlusEquals => TokenView::PlusEquals,
            Token::MultiplyEquals => TokenView::MultiplyEquals,
            Token::MinusEquals => TokenView::MinusEquals,
            Token::DivideEquals => TokenView::DivideEquals,
            Token::NotEquals => TokenView::NotEquals,
            Token::GreaterThan => TokenView::GreaterThan,
            Token::LessThan => TokenView::LessThan,
            Token::GreaterThanOrEqual => TokenView::GreaterThanOrEqual,
            Token::LessThanOrEqual => TokenView::LessThanOrEqual,
        }
    }
}

impl Token {
    /// Whether this token is an identifier.
    pub fn is_identifier(&self) -> (r: bool)
        ensures
            r == (self@ is Identifier),
    {
        match self {
            Token::String(_) => true,
            _ => false,
        }
    }
}

} // verus!
