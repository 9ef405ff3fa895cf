//! Token categories and tokens, together with their mathematical views.
//!
//! `TokenType` and `Token` are the values the scanner hands to its callers;
//! `SpecTokenType` and `SpecToken` are their views, used by every contract.

use vstd::prelude::*;

verus! {

/// The lexical category of a token, a closed set: punctuation and operators,
/// the three literal forms, the reserved keywords, and the end marker.
///
/// A number literal carries its digit text rather than a machine float; the
/// text is the exact lexeme, so nothing is lost, and a driver that wants a
/// numeric value may convert it at the edge.
#[allow(non_camel_case_types)]
#[derive(Debug, Clone, PartialEq)]
pub enum TokenType {
    LEFT_PAREN,
    RIGHT_PAREN,
    LEFT_BRACE,
    RIGHT_BRACE,
    COMMA,
    DOT,
    MINUS,
    PLUS,
    SEMICOLON,
    SLASH,
    STAR,
    BANG,
    BANG_EQUAL,
    EQUAL,
    EQUAL_EQUAL,
    GREATER,
    GREATER_EQUAL,
    LESS,
    LESS_EQUAL,
    IDENTIFIER(String),
    STRING(String),
    NUMBER(String),
    AND,
    CLASS,
    ELSE,
    FALSE,
    FUN,
    FOR,
    IF,
    NIL,
    OR,
    PRINT,
    RETURN,
    SUPER,
    THIS,
    TRUE,
    VAR,
    WHILE,
    EOF,
}

/// The view of a `TokenType`: the same categories with literal payloads as
/// character sequences.
#[allow(non_camel_case_types)]
pub enum SpecTokenType {
    LEFT_PAREN,
    RIGHT_PAREN,
    LEFT_BRACE,
    RIGHT_BRACE,
    COMMA,
    DOT,
    MINUS,
    PLUS,
    SEMICOLON,
    SLASH,
    STAR,
    BANG,
    BANG_EQUAL,
    EQUAL,
    EQUAL_EQUAL,
    GREATER,
    GREATER_EQUAL,
    LESS,
    LESS_EQUAL,
    IDENTIFIER(Seq<char>),
    STRING(Seq<char>),
    NUMBER(Seq<char>),
    AND,
    CLASS,
    ELSE,
    FALSE,
    FUN,
    FOR,
    IF,
    NIL,
    OR,
    PRINT,
    RETURN,
    SUPER,
    THIS,
    TRUE,
    VAR,
    WHILE,
    EOF,
}

impl View for TokenType {
    type V = SpecTokenType;

    open spec fn view(&self) -> SpecTokenType {
        match self {
            TokenType::LEFT_PAREN => SpecTokenType::LEFT_PAREN,
            TokenType::RIGHT_PAREN => SpecTokenType::RIGHT_PAREN,
            TokenType::LEFT_BRACE => SpecTokenType::LEFT_BRACE,
            TokenType::RIGHT_BRACE => SpecTokenType::RIGHT_BRACE,
            TokenType::COMMA => SpecTokenType::COMMA,
            TokenType::DOT => SpecTokenType::DOT,
            TokenType::MINUS => SpecTokenType::MINUS,
            TokenType::PLUS => SpecTokenType::PLUS,
            TokenType::SEMICOLON => SpecTokenType::SEMICOLON,
            TokenType::SLASH => SpecTokenType::SLASH,
            TokenType::STAR => SpecTokenType::STAR,
            TokenType::BANG => SpecTokenType::BANG,
            TokenType::BANG_EQUAL => SpecTokenType::BANG_EQUAL,
            TokenType::EQUAL => SpecTokenType::EQUAL,
            TokenType::EQUAL_EQUAL => SpecTokenType::EQUAL_EQUAL,
            TokenType::GREATER => SpecTokenType::GREATER,
            TokenType::GREATER_EQUAL => SpecTokenType::GREATER_EQUAL,
            TokenType::LESS => SpecTokenType::LESS,
            TokenType::LESS_EQUAL => SpecTokenType::LESS_EQUAL,
            TokenType::IDENTIFIER(text) => SpecTokenType::IDENTIFIER(text@),
            TokenType::STRING(body) => SpecTokenType::STRING(body@),
            TokenType::NUMBER(digits) => SpecTokenType::NUMBER(digits@),
            TokenType::AND => SpecTokenType::AND,
            TokenType::CLASS => SpecTokenType::CLASS,
            TokenType::ELSE => SpecTokenType::ELSE,
            TokenType::FALSE => SpecTokenType::FALSE,
            TokenType::FUN => SpecTokenType::FUN,
            TokenType::FOR => SpecTokenType::FOR,
            TokenType::IF => SpecTokenType::IF,
            TokenType::NIL => SpecTokenType::NIL,
            TokenType::OR => SpecTokenType::OR,
            TokenType::PRINT => SpecTokenType::PRINT,
            TokenType::RETURN => SpecTokenType::RETURN,
            TokenType::SUPER => SpecTokenType::SUPER,
            TokenType::THIS => SpecTokenType::THIS,
            TokenType::TRUE => SpecTokenType::TRUE,
            TokenType::VAR => SpecTokenType::VAR,
            TokenType::WHILE => SpecTokenType::WHILE,
            TokenType::EOF => SpecTokenType::EOF,
        }
    }
}

/// The category a reserved word maps to, or `None` for any other text.
pub open spec fn spec_keyword(text: Seq<char>) -> Option<SpecTokenType> {
    if text == "and"@ {
        Some(SpecTokenType::AND)
    } else if text == "class"@ {
        Some(SpecTokenType::CLASS)
    } else if text == "else"@ {
        Some(SpecTokenType::ELSE)
    } else if text == "false"@ {
        Some(SpecTokenType::FALSE)
    } else if text == "fun"@ {
        Some(SpecTokenType::FUN)
    } else if text == "for"@ {
        Some(SpecTokenType::FOR)
    } else if text == "if"@ {
        Some(SpecTokenType::IF)
    } else if text == "nil"@ {
        Some(SpecTokenType::NIL)
    } else if text == "or"@ {
        Some(SpecTokenType::OR)
    } else if text == "print"@ {
        Some(SpecTokenType::PRINT)
    } else if text == "return"@ {
        Some(SpecTokenType::RETURN)
    } else if text == "super"@ {
        Some(SpecTokenType::SUPER)
    } else if text == "this"@ {
        Some(SpecTokenType::THIS)
    } else if text == "true"@ {
        Some(SpecTokenType::TRUE)
    } else if text == "var"@ {
        Some(SpecTokenType::VAR)
    } else if text == "while"@ {
        Some(SpecTokenType::WHILE)
    } else {
        None
    }
}

/// The category an identifier-shaped text scans to: its keyword category on a
/// whole-word match, an identifier carrying the text otherwise.
pub open spec fn keyword_or_identifier_typ(text: Seq<char>) -> SpecTokenType {
    match spec_keyword(text) {
        Some(typ) => typ,
        None => SpecTokenType::IDENTIFIER(text),
    }
}

/// Looks the text up in the reserved-keyword table: an exact, case-sensitive,
/// whole-word match yields the keyword category, anything else an identifier.
pub fn keyword_or_identifier(text: String) -> (typ: TokenType)
    ensures
        typ@ == keyword_or_identifier_typ(text@),
{
    if text == "and".to_owned() {
        TokenType::AND
    } else if text == "class".to_owned() {
        TokenType::CLASS
    } else if text == "else".to_owned() {
        TokenType::ELSE
    } else if text == "false".to_owned() {
        TokenType::FALSE
    } else if text == "fun".to_owned() {
        TokenType::FUN
    } else if text == "for".to_owned() {
        TokenType::FOR
    } else if text == "if".to_owned() {
        TokenType::IF
    } else if text == "nil".to_owned() {
        TokenType::NIL
    } else if text == "or".to_owned() {
        TokenType::OR
    } else if text == "print".to_owned() {
        TokenType::PRINT
    } else if text == "return".to_owned() {
        TokenType::RETURN
    } else if text == "super".to_owned() {
        TokenType::SUPER
    } else if text == "this".to_owned() {
        TokenType::THIS
    } else if text == "true".to_owned() {
        TokenType::TRUE
    } else if text == "var".to_owned() {
        TokenType::VAR
    } else if text == "while".to_owned() {
        TokenType::WHILE
    } else {
        TokenType::IDENTIFIER(text)
    }
}

/// A token: its category, the exact slice of source text it came from, and
/// the 1-based line its lexeme began on.  Created once by the scanner and
/// never changed.
#[derive(Debug, Clone, PartialEq)]
pub struct Token {
    typ: TokenType,
    lexeme: String,
    line: usize,
}

/// The view of a `Token`.
pub struct SpecToken {
    pub typ: SpecTokenType,
    pub lexeme: Seq<char>,
    pub line: nat,
}

impl View for Token {
    type V = SpecToken;

    closed spec fn view(&self) -> SpecToken {
        SpecToken { typ: self.typ@, lexeme: self.lexeme@, line: self.line as nat }
    }
}

impl Token {
    pub fn new(typ: TokenType, lexeme: String, line: usize) -> (token: Token)
        ensures
            token@ == (SpecToken { typ: typ@, lexeme: lexeme@, line: line as nat }),
    {
        Token { typ, lexeme, line }
    }

    pub fn typ(&self) -> (typ: &TokenType)
        ensures
            typ@ == self@.typ,
    {
        &self.typ
    }

    pub fn lexeme(&self) -> (lexeme: &str)
        ensures
            lexeme@ == self@.lexeme,
    {
        self.lexeme.as_str()
    }

    pub fn line(&self) -> (line: usize)
        ensures
            line as nat == self@.line,
    {
        self.line
    }
}

} // verus!
