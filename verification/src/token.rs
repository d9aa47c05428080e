use vstd::prelude::*;
use vstd::string::StringExecFns;

verus! {

/// One lexical unit of Monkey source text: punctuation, a one- or
/// two-character operator, a keyword, an identifier or integer literal
/// carrying its text, or `Illegal` for a byte matching no rule.
#[derive(Debug, Clone, PartialEq, Eq)]
pub enum Token {
    Illegal,
    Assign,
    Plus,
    Minus,
    Bang,
    Slash,
    Asterisk,
    LT,
    GT,
    Eq,
    NotEq,
    Semicolon,
    Comma,
    LParen,
    RParen,
    LBrace,
    RBrace,
    Function,
    Let,
    True,
    False,
    If,
    Else,
    Return,
    Ident(String),
    Int(String),
}

/// The mathematical form of a token: the same variants as `Token`, with
/// payloads as character sequences.
pub enum TokenModel {
    Illegal,
    Assign,
    Plus,
    Minus,
    Bang,
    Slash,
    Asterisk,
    LT,
    GT,
    Eq,
    NotEq,
    Semicolon,
    Comma,
    LParen,
    RParen,
    LBrace,
    RBrace,
    Function,
    Let,
    True,
    False,
    If,
    Else,
    Return,
    Ident(Seq<char>),
    Int(Seq<char>),
}

impl View for Token {
    type V = TokenModel;

    open spec fn view(&self) -> TokenModel {
        match self {
            Token::Illegal => TokenModel::Illegal,
            Token::Assign => TokenModel::Assign,
            Token::Plus => TokenModel::Plus,
            Token::Minus => TokenModel::Minus,
            Token::Bang => TokenModel::Bang,
            Token::Slash => TokenModel::Slash,
            Token::Asterisk => TokenModel::Asterisk,
            Token::LT => TokenModel::LT,
            Token::GT => TokenModel::GT,
            Token::Eq => TokenModel::Eq,
            Token::NotEq => TokenModel::NotEq,
            Token::Semicolon => TokenModel::Semicolon,
            Token::Comma => TokenModel::Comma,
            Token::LParen => TokenModel::LParen,
            Token::RParen => TokenModel::RParen,
            Token::LBrace => TokenModel::LBrace,
            Token::RBrace => TokenModel::RBrace,
            Token::Function => TokenModel::Function,
            Token::Let => TokenModel::Let,
            Token::True => TokenModel::True,
            Token::False => TokenModel::False,
            Token::If => TokenModel::If,
            Token::Else => TokenModel::Else,
            Token::Return => TokenModel::Return,
            Token::Ident(s) => TokenModel::Ident(s@),
            Token::Int(s) => TokenModel::Int(s@),
        }
    }
}

/// Keyword classification: exactly the seven reserved words map to keyword
/// tokens; every other letter/underscore run is an identifier carrying its
/// own text.
pub open spec fn spec_lookup_ident(s: Seq<char>) -> TokenModel {
    if s == "fn"@ {
        TokenModel::Function
    } else if s == "let"@ {
        TokenModel::Let
    } else if s == "true"@ {
        TokenModel::True
    } else if s == "false"@ {
        TokenModel::False
    } else if s == "if"@ {
        TokenModel::If
    } else if s == "else"@ {
        TokenModel::Else
    } else if s == "return"@ {
        TokenModel::Return
    } else {
        TokenModel::Ident(s)
    }
}

/// Keyword classification is exact, not prefix-based: a run is classified
/// as a keyword exactly when it spells that keyword letter for letter, and
/// every other run becomes an identifier carrying its own text unchanged.
pub proof fn lemma_keyword_exact(s: Seq<char>)
    ensures
        spec_lookup_ident(s) == TokenModel::Function <==> s == "fn"@,
        spec_lookup_ident(s) == TokenModel::Let <==> s == "let"@,
        spec_lookup_ident(s) == TokenModel::True <==> s == "true"@,
        spec_lookup_ident(s) == TokenModel::False <==> s == "false"@,
        spec_lookup_ident(s) == TokenModel::If <==> s == "if"@,
        spec_lookup_ident(s) == TokenModel::Else <==> s == "else"@,
        spec_lookup_ident(s) == TokenModel::Return <==> s == "return"@,
        (s != "fn"@ && s != "let"@ && s != "true"@ && s != "false"@ && s != "if"@ && s != "else"@
            && s != "return"@) ==> spec_lookup_ident(s) == TokenModel::Ident(s),
{
    reveal_strlit("fn");
    reveal_strlit("let");
    reveal_strlit("true");
    reveal_strlit("false");
    reveal_strlit("if");
    reveal_strlit("else");
    reveal_strlit("return");
    assert("fn"@.len() == 2);
    assert("let"@.len() == 3);
    assert("true"@.len() == 4);
    assert("false"@.len() == 5);
    assert("if"@.len() == 2);
    assert("else"@.len() == 4);
    assert("return"@.len() == 6);
    assert("fn"@[0] == 'f' && "if"@[0] == 'i');
    assert("true"@[0] == 't' && "else"@[0] == 'e');
}

impl Token {
    /// Classify a scanned letter/underscore run: a keyword token if the run
    /// matches one of the seven reserved words exactly, otherwise an
    /// identifier owning the run.
    pub fn lookup_ident(literal: String) -> (t: Token)
        ensures
            t@ == spec_lookup_ident(literal@),
    {
        if literal == String::from_str("fn") {
            Token::Function
        } else if literal == String::from_str("let") {
            Token::Let
        } else if literal == String::from_str("true") {
            Token::True
        } else if literal == String::from_str("false") {
            Token::False
        } else if literal == String::from_str("if") {
            Token::If
        } else if literal == String::from_str("else") {
            Token::Else
        } else if literal == String::from_str("return") {
            Token::Return
        } else {
            Token::Ident(literal)
        }
    }
}

} // verus!
