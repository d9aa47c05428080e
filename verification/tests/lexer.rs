use monkey::lexer::Lexer;
use monkey::token::Token;

#[test]
fn test_next_token() {
    let input = "=+(){},;";

    let mut lexer = Lexer::new(input);
    assert_eq!(lexer.next_token(), Some(Token::Assign));
    assert_eq!(lexer.next_token(), Some(Token::Plus));
    assert_eq!(lexer.next_token(), Some(Token::LParen));
    assert_eq!(lexer.next_token(), Some(Token::RParen));
    assert_eq!(lexer.next_token(), Some(Token::LBrace));
    assert_eq!(lexer.next_token(), Some(Token::RBrace));
    assert_eq!(lexer.next_token(), Some(Token::Comma));
    assert_eq!(lexer.next_token(), Some(Token::Semicolon));
}

#[test]
fn test_next_token_program() {
    let input = "let five = 5;
let ten = 10;

let add = fn(x, y) {
    x + y;
};

let result = add(five, ten);
!-/*5;
5 < 10 > 5;
if (5 < 10) {
    return true;
} else {
    return false;
}

10 == 10;
10 != 9;";

    let mut lexer = Lexer::new(input);
    assert_eq!(lexer.next_token(), Some(Token::Let));
    assert_eq!(lexer.next_token(), Some(Token::Ident("five".to_owned())));
    assert_eq!(lexer.next_token(), Some(Token::Assign));
    assert_eq!(lexer.next_token(), Some(Token::Int("5".to_owned())));
    assert_eq!(lexer.next_token(), Some(Token::Semicolon));
    assert_eq!(lexer.next_token(), Some(Token::Let));
    assert_eq!(lexer.next_token(), Some(Token::Ident("ten".to_owned())));
    assert_eq!(lexer.next_token(), Some(Token::Assign));
    assert_eq!(lexer.next_token(), Some(Token::Int("10".to_owned())));
    assert_eq!(lexer.next_token(), Some(Token::Semicolon));
    assert_eq!(lexer.next_token(), Some(Token::Let));
    assert_eq!(lexer.next_token(), Some(Token::Ident("add".to_owned())));
    assert_eq!(lexer.next_token(), Some(Token::Assign));
    assert_eq!(lexer.next_token(), Some(Token::Function));
    assert_eq!(lexer.next_token(), Some(Token::LParen));
    assert_eq!(lexer.next_token(), Some(Token::Ident("x".to_owned())));
    assert_eq!(lexer.next_token(), Some(Token::Comma));
    assert_eq!(lexer.next_token(), Some(Token::Ident("y".to_owned())));
    assert_eq!(lexer.next_token(), Some(Token::RParen));
    assert_eq!(lexer.next_token(), Some(Token::LBrace));
    assert_eq!(lexer.next_token(), Some(Token::Ident("x".to_owned())));
    assert_eq!(lexer.next_token(), Some(Token::Plus));
    assert_eq!(lexer.next_token(), Some(Token::Ident("y".to_owned())));
    assert_eq!(lexer.next_token(), Some(Token::Semicolon));
    assert_eq!(lexer.next_token(), Some(Token::RBrace));
    assert_eq!(lexer.next_token(), Some(Token::Semicolon));
    assert_eq!(lexer.next_token(), Some(Token::Let));
    assert_eq!(lexer.next_token(), Some(Token::Ident("result".to_owned())));
    assert_eq!(lexer.next_token(), Some(Token::Assign));
    assert_eq!(lexer.next_token(), Some(Token::Ident("add".to_owned())));
    assert_eq!(lexer.next_token(), Some(Token::LParen));
    assert_eq!(lexer.next_token(), Some(Token::Ident("five".to_owned())));
    assert_eq!(lexer.next_token(), Some(Token::Comma));
    assert_eq!(lexer.next_token(), Some(Token::Ident("ten".to_owned())));
    assert_eq!(lexer.next_token(), Some(Token::RParen));
    assert_eq!(lexer.next_token(), Some(Token::Semicolon));
    assert_eq!(lexer.next_token(), Some(Token::Bang));
    assert_eq!(lexer.next_token(), Some(Token::Minus));
    assert_eq!(lexer.next_token(), Some(Token::Slash));
    assert_eq!(lexer.next_token(), Some(Token::Asterisk));
    assert_eq!(lexer.next_token(), Some(Token::Int("5".to_owned())));
    assert_eq!(lexer.next_token(), Some(Token::Semicolon));
    assert_eq!(lexer.next_token(), Some(Token::Int("5".to_owned())));
    assert_eq!(lexer.next_token(), Some(Token::LT));
    assert_eq!(lexer.next_token(), Some(Token::Int("10".to_owned())));
    assert_eq!(lexer.next_token(), Some(Token::GT));
    assert_eq!(lexer.next_token(), Some(Token::Int("5".to_owned())));
    assert_eq!(lexer.next_token(), Some(Token::Semicolon));
    assert_eq!(lexer.next_token(), Some(Token::If));
    assert_eq!(lexer.next_token(), Some(Token::LParen));
    assert_eq!(lexer.next_token(), Some(Token::Int("5".to_owned())));
    assert_eq!(lexer.next_token(), Some(Token::LT));
    assert_eq!(lexer.next_token(), Some(Token::Int("10".to_owned())));
    assert_eq!(lexer.next_token(), Some(Token::RParen));
    assert_eq!(lexer.next_token(), Some(Token::LBrace));
    assert_eq!(lexer.next_token(), Some(Token::Return));
    assert_eq!(lexer.next_token(), Some(Token::True));
    assert_eq!(lexer.next_token(), Some(Token::Semicolon));
    assert_eq!(lexer.next_token(), Some(Token::RBrace));
    assert_eq!(lexer.next_token(), Some(Token::Else));
    assert_eq!(lexer.next_token(), Some(Token::LBrace));
    assert_eq!(lexer.next_token(), Some(Token::Return));
    assert_eq!(lexer.next_token(), Some(Token::False));
    assert_eq!(lexer.next_token(), Some(Token::Semicolon));
    assert_eq!(lexer.next_token(), Some(Token::RBrace));
    assert_eq!(lexer.next_token(), Some(Token::Int("10".to_owned())));
    assert_eq!(lexer.next_token(), Some(Token::Eq));
    assert_eq!(lexer.next_token(), Some(Token::Int("10".to_owned())));
    assert_eq!(lexer.next_token(), Some(Token::Semicolon));
    assert_eq!(lexer.next_token(), Some(Token::Int("10".to_owned())));
    assert_eq!(lexer.next_token(), Some(Token::NotEq));
    assert_eq!(lexer.next_token(), Some(Token::Int("9".to_owned())));
    assert_eq!(lexer.next_token(), Some(Token::Semicolon));
    assert_eq!(lexer.next_token(), None);
}

fn all_tokens(input: &str) -> Vec<Token> {
    let mut lexer = Lexer::new(input);
    let mut tokens = Vec::new();
    while let Some(tok) = lexer.next_token() {
        tokens.push(tok);
    }
    tokens
}

#[test]
fn lookahead_two_char_operators() {
    assert_eq!(all_tokens("=="), vec![Token::Eq]);
    assert_eq!(all_tokens("="), vec![Token::Assign]);
    assert_eq!(all_tokens("!="), vec![Token::NotEq]);
    assert_eq!(all_tokens("!"), vec![Token::Bang]);
    assert_eq!(all_tokens("=a"), vec![Token::Assign, Token::Ident("a".to_owned())]);
}

#[test]
fn keyword_match_is_exact_not_prefix() {
    assert_eq!(all_tokens("fn"), vec![Token::Function]);
    assert_eq!(all_tokens("function"), vec![Token::Ident("function".to_owned())]);
    assert_eq!(all_tokens("let"), vec![Token::Let]);
    assert_eq!(all_tokens("lets"), vec![Token::Ident("lets".to_owned())]);
}

#[test]
fn identifiers_do_not_contain_digits() {
    assert_eq!(
        all_tokens("ab12"),
        vec![Token::Ident("ab".to_owned()), Token::Int("12".to_owned())]
    );
    assert_eq!(
        all_tokens("x1y"),
        vec![
            Token::Ident("x".to_owned()),
            Token::Int("1".to_owned()),
            Token::Ident("y".to_owned()),
        ]
    );
}

#[test]
fn underscores_are_letters() {
    assert_eq!(all_tokens("_foo_bar"), vec![Token::Ident("_foo_bar".to_owned())]);
}

#[test]
fn whitespace_amount_is_irrelevant() {
    let minimal = all_tokens("let x=1;");
    assert_eq!(all_tokens("let  \t x \n =  \r\n 1 ;"), minimal);
    assert_eq!(all_tokens("  let x=1;  "), minimal);
    assert_eq!(all_tokens("   \t\n\r  "), vec![]);
}

#[test]
fn illegal_bytes_consume_one_byte_each() {
    assert_eq!(all_tokens("@"), vec![Token::Illegal]);
    assert_eq!(all_tokens("#"), vec![Token::Illegal]);
    assert_eq!(
        all_tokens("a@b"),
        vec![
            Token::Ident("a".to_owned()),
            Token::Illegal,
            Token::Ident("b".to_owned()),
        ]
    );
}

#[test]
fn form_feed_is_not_whitespace() {
    assert_eq!(all_tokens("\u{c}"), vec![Token::Illegal]);
}

#[test]
fn scenario_let_five() {
    let mut lexer = Lexer::new("let five = 5;");
    assert_eq!(lexer.next_token(), Some(Token::Let));
    assert_eq!(lexer.next_token(), Some(Token::Ident("five".to_owned())));
    assert_eq!(lexer.next_token(), Some(Token::Assign));
    assert_eq!(lexer.next_token(), Some(Token::Int("5".to_owned())));
    assert_eq!(lexer.next_token(), Some(Token::Semicolon));
    assert_eq!(lexer.next_token(), None);
    assert_eq!(lexer.next_token(), None);
}

#[test]
fn scenario_comparisons() {
    assert_eq!(
        all_tokens("10 == 10;\n10 != 9;"),
        vec![
            Token::Int("10".to_owned()),
            Token::Eq,
            Token::Int("10".to_owned()),
            Token::Semicolon,
            Token::Int("10".to_owned()),
            Token::NotEq,
            Token::Int("9".to_owned()),
            Token::Semicolon,
        ]
    );
}

#[test]
fn empty_input_yields_no_token() {
    let mut lexer = Lexer::new("");
    assert_eq!(lexer.next_token(), None);
    assert_eq!(lexer.next_token(), None);
}

#[test]
fn exhaustion_is_sticky() {
    let mut lexer = Lexer::new(";");
    assert_eq!(lexer.next_token(), Some(Token::Semicolon));
    for _ in 0..5 {
        assert_eq!(lexer.next_token(), None);
    }
}

#[test]
fn lookup_ident_classifies_keywords() {
    assert_eq!(Token::lookup_ident("return".to_owned()), Token::Return);
    assert_eq!(Token::lookup_ident("true".to_owned()), Token::True);
    assert_eq!(Token::lookup_ident("false".to_owned()), Token::False);
    assert_eq!(Token::lookup_ident("if".to_owned()), Token::If);
    assert_eq!(Token::lookup_ident("else".to_owned()), Token::Else);
    assert_eq!(
        Token::lookup_ident("returns".to_owned()),
        Token::Ident("returns".to_owned())
    );
}
