//! The token model: what the scanner produces and the parser consumes.

use vstd::prelude::*;

verus! {

/// The category of a token. Number, string and identifier tokens keep their
/// text in the token's lexeme rather than in the kind, so kinds are plain
/// tags and can be compared structurally.
#[derive(Debug, Clone, Copy, PartialEq, Eq, Structural)]
pub enum TokenKind {
    // Single character tokens
    LParen,
    RParen,
    LCurly,
    RCurly,
    Comma,
    Dot,
    Semicolon,
    Plus,
    Minus,
    Star,
    Slash,
    // One or two character tokens
    Bang,
    BangEq,
    Equal,
    EqualEqual,
    Gt,
    GtEq,
    Lt,
    LtEq,
    // Literals
    Identifier,
    Str,
    Number,
    // Keywords
    And,
    Or,
    True,
    False,
    If,
    Else,
    While,
    For,
    Class,
    Super,
    This,
    Fun,
    Return,
    Nil,
    Print,
    Var,
}

/// A token: its category, the source-text span it matched, and the line it
/// began on. The lexeme borrows from the source text, so tokens live no
/// longer than the text they were scanned from. A string token's lexeme
/// excludes the delimiting quotes.
#[derive(Debug, Clone, Copy)]
pub struct Token<'a> {
    pub kind: TokenKind,
    pub lexeme: &'a str,
    pub line: u32,
}

/// The mathematical image of a token: the lexeme as a character sequence.
pub struct SpecToken {
    pub kind: TokenKind,
    pub lexeme: Seq<char>,
    pub line: u32,
}

impl<'a> View for Token<'a> {
    type V = SpecToken;

    open spec fn view(&self) -> SpecToken {
        SpecToken { kind: self.kind, lexeme: self.lexeme@, line: self.line }
    }
}

/// The fixed keyword table: which kind an identifier lexeme denotes. Any
/// lexeme not in the table is a plain identifier.
pub open spec fn keyword_kind(lexeme: Seq<char>) -> TokenKind {
    if lexeme == "and"@ {
        TokenKind::And
    } else if lexeme == "or"@ {
        TokenKind::Or
    } else if lexeme == "true"@ {
        TokenKind::True
    } else if lexeme == "false"@ {
        TokenKind::False
    } else if lexeme == "if"@ {
        TokenKind::If
    } else if lexeme == "else"@ {
        TokenKind::Else
    } else if lexeme == "while"@ {
        TokenKind::While
    } else if lexeme == "for"@ {
        TokenKind::For
    } else if lexeme == "class"@ {
        TokenKind::Class
    } else if lexeme == "super"@ {
        TokenKind::Super
    } else if lexeme == "this"@ {
        TokenKind::This
    } else if lexeme == "fun"@ {
        TokenKind::Fun
    } else if lexeme == "return"@ {
        TokenKind::Return
    } else if lexeme == "nil"@ {
        TokenKind::Nil
    } else if lexeme == "print"@ {
        TokenKind::Print
    } else if lexeme == "var"@ {
        TokenKind::Var
    } else {
        TokenKind::Identifier
    }
}

} // verus!
