use corosync_config_parser::config::ConfigBlock;
use corosync_config_parser::error::{Error, ErrorType};
use corosync_config_parser::lexer::{Token, TokenType};
use corosync_config_parser::parser::{run, run_mode};

fn tok(ty: TokenType) -> Token {
    Token::new(0, 0, ty)
}

#[test]
fn test_it_parsing_the_most_basic_option() {
    assert_eq!(
        run(vec![
            tok(TokenType::RawLiteral(String::from("test"))),
            tok(TokenType::Semicolon)
        ]),
        Ok(ConfigBlock::new(
            String::new(),
            vec![],
            vec![ConfigBlock::new(String::from("test"), vec![], vec![])]
        ))
    );
}

#[test]
fn test_it_parsing_a_typical_example() {
    assert_eq!(
        run(vec![
            tok(TokenType::RawLiteral(String::from("option"))),
            tok(TokenType::RawLiteral(String::from("param1"))),
            tok(TokenType::OpenBrace),
            tok(TokenType::RawLiteral(String::from("inner"))),
            tok(TokenType::StringLiteral(String::from("value"))),
            tok(TokenType::Semicolon),
            tok(TokenType::CloseBrace),
        ]),
        Ok(ConfigBlock::new(
            String::new(),
            vec![],
            vec![ConfigBlock::new(
                String::from("option"),
                vec![String::from("param1")],
                vec![ConfigBlock::new(
                    String::from("inner"),
                    vec![String::from("value")],
                    vec![]
                )]
            )]
        ))
    );
}

#[test]
fn colon_is_a_discarded_separator() {
    assert_eq!(
        run(vec![
            tok(TokenType::RawLiteral(String::from("key"))),
            tok(TokenType::Colon),
            tok(TokenType::RawLiteral(String::from("value"))),
            tok(TokenType::Semicolon),
        ]),
        Ok(ConfigBlock::new(
            String::new(),
            vec![],
            vec![ConfigBlock::new(
                String::from("key"),
                vec![String::from("value")],
                vec![]
            )]
        ))
    );
}

#[test]
fn line_end_terminates_a_statement() {
    assert_eq!(
        run(vec![
            tok(TokenType::RawLiteral(String::from("key"))),
            tok(TokenType::RawLiteral(String::from("value"))),
            tok(TokenType::LineEnd),
        ]),
        Ok(ConfigBlock::new(
            String::new(),
            vec![],
            vec![ConfigBlock::new(
                String::from("key"),
                vec![String::from("value")],
                vec![]
            )]
        ))
    );
}

#[test]
fn stray_semicolons_are_tolerated() {
    assert_eq!(
        run(vec![
            tok(TokenType::Semicolon),
            tok(TokenType::RawLiteral(String::from("a"))),
            tok(TokenType::Semicolon),
            tok(TokenType::Semicolon),
        ]),
        Ok(ConfigBlock::new(
            String::new(),
            vec![],
            vec![ConfigBlock::new(String::from("a"), vec![], vec![])]
        ))
    );
}

#[test]
fn close_brace_at_top_level_is_an_error() {
    assert_eq!(
        run(vec![tok(TokenType::CloseBrace)]),
        Err(Error::new(
            0,
            0,
            ErrorType::Unexpected(tok(TokenType::CloseBrace)),
            Some(String::from("option"))
        ))
    );
}

#[test]
fn unexpected_token_inside_block_names_both_choices() {
    assert_eq!(
        run(vec![
            tok(TokenType::RawLiteral(String::from("a"))),
            tok(TokenType::OpenBrace),
            tok(TokenType::OpenParen),
        ]),
        Err(Error::new(
            0,
            0,
            ErrorType::Unexpected(tok(TokenType::OpenParen)),
            Some(String::from("option or }"))
        ))
    );
}

#[test]
fn eof_inside_nested_block_is_an_error() {
    assert_eq!(
        run(vec![
            tok(TokenType::RawLiteral(String::from("a"))),
            tok(TokenType::OpenBrace),
        ]),
        Err(Error::new(
            0,
            0,
            ErrorType::UnexpectedEOF,
            Some(String::from("token"))
        ))
    );
}

#[test]
fn eof_while_collecting_params_is_an_error() {
    assert_eq!(
        run(vec![tok(TokenType::RawLiteral(String::from("a")))]),
        Err(Error::new(
            0,
            0,
            ErrorType::UnexpectedEOF,
            Some(String::from("}"))
        ))
    );
}

#[test]
fn strict_mode_rejects_paren_in_params() {
    assert_eq!(
        run_mode(
            vec![
                tok(TokenType::RawLiteral(String::from("a"))),
                tok(TokenType::CloseParen),
            ],
            true
        ),
        Err(Error::new(
            0,
            0,
            ErrorType::Unexpected(tok(TokenType::CloseParen)),
            Some(String::from("; or {"))
        ))
    );
}

#[test]
fn nonstrict_mode_closes_statement_on_paren() {
    assert_eq!(
        run_mode(
            vec![
                tok(TokenType::RawLiteral(String::from("a"))),
                tok(TokenType::CloseParen),
            ],
            false
        ),
        Ok(ConfigBlock::new(
            String::new(),
            vec![],
            vec![ConfigBlock::new(String::from("a"), vec![], vec![])]
        ))
    );
}
