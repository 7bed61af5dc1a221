use vstd::prelude::*;

use crate::value::bytes_copy;

verus! {

/// A lexical token. Names, string literals and float literals carry their
/// bytes; a float literal is kept as the text it was written with.
#[derive(Debug, Clone, PartialEq, Eq)]
pub enum Token {
    And,
    Break,
    Do,
    Else,
    ElseIf,
    End,
    False,
    For,
    Function,
    Goto,
    If,
    In,
    Local,
    Nil,
    Not,
    Or,
    Repeat,
    Return,
    Then,
    True,
    Until,
    While,
    Add,
    Sub,
    Mul,
    Div,
    Mod,
    Pow,
    Len,
    BitAnd,
    BitXor,
    BitOr,
    ShiftL,
    ShiftR,
    Idiv,
    Equal,
    NotEq,
    LesEq,
    GreEq,
    Less,
    Greater,
    Assign,
    ParL,
    ParR,
    CurlyL,
    CurlyR,
    SqurL,
    SqurR,
    DoubleColon,
    SemiColon,
    Colon,
    Comma,
    Dot,
    Concat,
    Dots,
    Integer(i64),
    Float(Vec<u8>),
    Name(Vec<u8>),
    String(Vec<u8>),
    EOF,
}

/// What a token means, with its byte payloads as sequences.
pub enum Lexeme {
    And,
    Break,
    Do,
    Else,
    ElseIf,
    End,
    False,
    For,
    Function,
    Goto,
    If,
    In,
    Local,
    Nil,
    Not,
    Or,
    Repeat,
    Return,
    Then,
    True,
    Until,
    While,
    Add,
    Sub,
    Mul,
    Div,
    Mod,
    Pow,
    Len,
    BitAnd,
    BitXor,
    BitOr,
    ShiftL,
    ShiftR,
    Idiv,
    Equal,
    NotEq,
    LesEq,
    GreEq,
    Less,
    Greater,
    Assign,
    ParL,
    ParR,
    CurlyL,
    CurlyR,
    SqurL,
    SqurR,
    DoubleColon,
    SemiColon,
    Colon,
    Comma,
    Dot,
    Concat,
    Dots,
    Integer(i64),
    Float(Seq<u8>),
    Name(Seq<u8>),
    String(Seq<u8>),
    EOF,
}

impl View for Token {
    type V = Lexeme;

    open spec fn view(&self) -> Lexeme {
        match self {
            Token::And => Lexeme::And,
            Token::Break => Lexeme::Break,
            Token::Do => Lexeme::Do,
            Token::Else => Lexeme::Else,
            Token::ElseIf => Lexeme::ElseIf,
            Token::End => Lexeme::End,
            Token::False => Lexeme::False,
            Token::For => Lexeme::For,
            Token::Function => Lexeme::Function,
            Token::Goto => Lexeme::Goto,
            Token::If => Lexeme::If,
            Token::In => Lexeme::In,
            Token::Local => Lexeme::Local,
            Token::Nil => Lexeme::Nil,
            Token::Not => Lexeme::Not,
            Token::Or => Lexeme::Or,
            Token::Repeat => Lexeme::Repeat,
            Token::Return => Lexeme::Return,
            Token::Then => Lexeme::Then,
            Token::True => Lexeme::True,
            Token::Until => Lexeme::Until,
            Token::While => Lexeme::While,
            Token::Add => Lexeme::Add,
            Token::Sub => Lexeme::Sub,
            Token::Mul => Lexeme::Mul,
            Token::Div => Lexeme::Div,
            Token::Mod => Lexeme::Mod,
            Token::Pow => Lexeme::Pow,
            Token::Len => Lexeme::Len,
            Token::BitAnd => Lexeme::BitAnd,
            Token::BitXor => Lexeme::BitXor,
            Token::BitOr => Lexeme::BitOr,
            Token::ShiftL => Lexeme::ShiftL,
            Token::ShiftR => Lexeme::ShiftR,
            Token::Idiv => Lexeme::Idiv,
            Token::Equal => Lexeme::Equal,
            Token::NotEq => Lexeme::NotEq,
            Token::LesEq => Lexeme::LesEq,
            Token::GreEq => Lexeme::GreEq,
            Token::Less => Lexeme::Less,
            Token::Greater => Lexeme::Greater,
            Token::Assign => Lexeme::Assign,
            Token::ParL => Lexeme::ParL,
            Token::ParR => Lexeme::ParR,
            Token::CurlyL => Lexeme::CurlyL,
            Token::CurlyR => Lexeme::CurlyR,
            Token::SqurL => Lexeme::SqurL,
            Token::SqurR => Lexeme::SqurR,
            Token::DoubleColon => Lexeme::DoubleColon,
            Token::SemiColon => Lexeme::SemiColon,
            Token::Colon => Lexeme::Colon,
            Token::Comma => Lexeme::Comma,
            Token::Dot => Lexeme::Dot,
            Token::Concat => Lexeme::Concat,
            Token::Dots => Lexeme::Dots,
            Token::Integer(i) => Lexeme::Integer(*i),
            Token::Float(t) => Lexeme::Float(t@),
            Token::Name(t) => Lexeme::Name(t@),
            Token::String(t) => Lexeme::String(t@),
            Token::EOF => Lexeme::EOF,
        }
    }
}

impl Token {
    /// A copy that holds the same content.
    pub fn copy(&self) -> (r: Token)
        ensures
            r@ == self@,
    {
        match self {
            Token::And => Token::And,
            Token::Break => Token::Break,
            Token::Do => Token::Do,
            Token::Else => Token::Else,
            Token::ElseIf => Token::ElseIf,
            Token::End => Token::End,
            Token::False => Token::False,
            Token::For => Token::For,
            Token::Function => Token::Function,
            Token::Goto => Token::Goto,
            Token::If => Token::If,
            Token::In => Token::In,
            Token::Local => Token::Local,
            Token::Nil => Token::Nil,
            Token::Not => Token::Not,
            Token::Or => Token::Or,
            Token::Repeat => Token::Repeat,
            Token::Return => Token::Return,
            Token::Then => Token::Then,
            Token::True => Token::True,
            Token::Until => Token::Until,
            Token::While => Token::While,
            Token::Add => Token::Add,
            Token::Sub => Token::Sub,
            Token::Mul => Token::Mul,
            Token::Div => Token::Div,
            Token::Mod => Token::Mod,
            Token::Pow => Token::Pow,
            Token::Len => Token::Len,
            Token::BitAnd => Token::BitAnd,
            Token::BitXor => Token::BitXor,
            Token::BitOr => Token::BitOr,
            Token::ShiftL => Token::ShiftL,
            Token::ShiftR => Token::ShiftR,
            Token::Idiv => Token::Idiv,
            Token::Equal => Token::Equal,
            Token::NotEq => Token::NotEq,
            Token::LesEq => Token::LesEq,
            Token::GreEq => Token::GreEq,
            Token::Less => Token::Less,
            Token::Greater => Token::Greater,
            Token::Assign => Token::Assign,
            Token::ParL => Token::ParL,
            Token::ParR => Token::ParR,
            Token::CurlyL => Token::CurlyL,
            Token::CurlyR => Token::CurlyR,
            Token::SqurL => Token::SqurL,
            Token::SqurR => Token::SqurR,
            Token::DoubleColon => Token::DoubleColon,
            Token::SemiColon => Token::SemiColon,
            Token::Colon => Token::Colon,
            Token::Comma => Token::Comma,
            Token::Dot => Token::Dot,
            Token::Concat => Token::Concat,
            Token::Dots => Token::Dots,
            Token::Integer(i) => Token::Integer(*i),
            Token::Float(t) => Token::Float(bytes_copy(t)),
            Token::Name(t) => Token::Name(bytes_copy(t)),
            Token::String(t) => Token::String(bytes_copy(t)),
            Token::EOF => Token::EOF,
        }
    }
}

} // verus!
