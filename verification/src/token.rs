use vstd::prelude::*;

use crate::model::{SpecDiagnostic, SpecKind, SpecToken};

verus! {

/// Lexical category of a token. Literal kinds carry their decoded payload:
/// the raw name for identifiers, the unescaped contents for strings, and the
/// digit string for numbers (the embedding program turns that string into a
/// machine float; the verified core holds no floating-point values).
#[derive(Debug, Clone)]
pub enum TokenKind {
    LeftParen,
    RightParen,
    LeftBrace,
    RightBrace,
    Comma,
    Dot,
    Minus,
    Plus,
    Semicolon,
    Slash,
    Star,
    Bang,
    BangEqual,
    Equal,
    EqualEqual,
    Greater,
    GreaterEqual,
    Less,
    LessEqual,
    Identifier(String),
    Str(String),
    Number(String),
    And,
    Class,
    Else,
    False,
    Fun,
    For,
    If,
    Nil,
    Or,
    Print,
    Return,
    Super,
    This,
    True,
    Var,
    While,
    EndOfInput,
}

impl View for TokenKind {
    type V = SpecKind;

    open spec fn view(&self) -> SpecKind {
        match self {
            TokenKind::LeftParen => SpecKind::LeftParen,
            TokenKind::RightParen => SpecKind::RightParen,
            TokenKind::LeftBrace => SpecKind::LeftBrace,
            TokenKind::RightBrace => SpecKind::RightBrace,
            TokenKind::Comma => SpecKind::Comma,
            TokenKind::Dot => SpecKind::Dot,
            TokenKind::Minus => SpecKind::Minus,
            TokenKind::Plus => SpecKind::Plus,
            TokenKind::Semicolon => SpecKind::Semicolon,
            TokenKind::Slash => SpecKind::Slash,
            TokenKind::Star => SpecKind::Star,
            TokenKind::Bang => SpecKind::Bang,
            TokenKind::BangEqual => SpecKind::BangEqual,
            TokenKind::Equal => SpecKind::Equal,
            TokenKind::EqualEqual => SpecKind::EqualEqual,
            TokenKind::Greater => SpecKind::Greater,
            TokenKind::GreaterEqual => SpecKind::GreaterEqual,
            TokenKind::Less => SpecKind::Less,
            TokenKind::LessEqual => SpecKind::LessEqual,
            TokenKind::Identifier(name) => SpecKind::Identifier(name@),
            TokenKind::Str(contents) => SpecKind::Str(contents@),
            TokenKind::Number(digits) => SpecKind::Number(digits@),
            TokenKind::And => SpecKind::And,
            TokenKind::Class => SpecKind::Class,
            TokenKind::Else => SpecKind::Else,
            TokenKind::False => SpecKind::False,
            TokenKind::Fun => SpecKind::Fun,
            TokenKind::For => SpecKind::For,
            TokenKind::If => SpecKind::If,
            TokenKind::Nil => SpecKind::Nil,
            TokenKind::Or => SpecKind::Or,
            TokenKind::Print => SpecKind::Print,
            TokenKind::Return => SpecKind::Return,
            TokenKind::Super => SpecKind::Super,
            TokenKind::This => SpecKind::This,
            TokenKind::True => SpecKind::True,
            TokenKind::Var => SpecKind::Var,
            TokenKind::While => SpecKind::While,
            TokenKind::EndOfInput => SpecKind::EndOfInput,
        }
    }
}

/// One scanned token: its category, the exact source substring that produced
/// it (for literals, the content between the delimiters), and the 1-based
/// line on which the token's first character occurred.
#[derive(Debug, Clone)]
pub struct Token {
    pub kind: TokenKind,
    pub lexeme: String,
    pub line: usize,
}

impl View for Token {
    type V = SpecToken;

    open spec fn view(&self) -> SpecToken {
        SpecToken { kind: self.kind@, lexeme: self.lexeme@, line: self.line as int }
    }
}

impl Token {
    pub fn new(kind: TokenKind, lexeme: String, line: usize) -> (t: Token)
        ensures
            t@ == (SpecToken { kind: kind@, lexeme: lexeme@, line: line as int }),
    {
        Token { kind, lexeme, line }
    }
}

/// One lexical error: the line it was noticed on, a location description
/// (empty at the scanner's own error sites, reserved for later stages), and
/// the message. Diagnostics are accumulated; they never halt the scan.
#[derive(Debug, Clone)]
pub struct Diagnostic {
    pub line: usize,
    pub location: String,
    pub message: String,
}

impl View for Diagnostic {
    type V = SpecDiagnostic;

    open spec fn view(&self) -> SpecDiagnostic {
        SpecDiagnostic {
            line: self.line as int,
            location: self.location@,
            message: self.message@,
        }
    }
}

/// Builds the diagnostic record for a lexical error noticed on `line`, with
/// an empty location description.
pub fn error(line: usize, message: &str) -> (d: Diagnostic)
    ensures
        d@ == (SpecDiagnostic {
            line: line as int,
            location: Seq::<char>::empty(),
            message: message@,
        }),
{
    Diagnostic { line, location: String::new(), message: message.to_owned() }
}

/// The token sequence as its specification-level image.
pub open spec fn tokens_view(ts: Seq<Token>) -> Seq<SpecToken> {
    ts.map_values(|t: Token| t@)
}

/// The diagnostic sequence as its specification-level image.
pub open spec fn diags_view(ds: Seq<Diagnostic>) -> Seq<SpecDiagnostic> {
    ds.map_values(|d: Diagnostic| d@)
}

pub proof fn lemma_tokens_view_push(ts: Seq<Token>, t: Token)
    ensures
        tokens_view(ts.push(t)) =~= tokens_view(ts).push(t@),
{
}

pub proof fn lemma_diags_view_push(ds: Seq<Diagnostic>, d: Diagnostic)
    ensures
        diags_view(ds.push(d)) =~= diags_view(ds).push(d@),
{
}

} // verus!
