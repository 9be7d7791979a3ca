use corosync_config_parser::error::{Error, ErrorType};
use corosync_config_parser::lexer::{run, Token, TokenType};

fn unwrap_tokens(tokens: Result<Vec<Token>, Error>) -> Result<Vec<TokenType>, Error> {
    tokens.map(|toks| toks.iter().map(|t| t.token_type.clone()).collect())
}

#[test]
fn successfully_parses_empty_string() {
    assert_eq!(run(""), Ok(vec![]));
}

#[test]
fn successfully_parses_raw_token() {
    assert_eq!(
        unwrap_tokens(run("test")),
        Ok(vec![TokenType::RawLiteral(String::from("test"))])
    );
}

#[test]
fn successfully_parses_string_token() {
    assert_eq!(
        unwrap_tokens(run("\"test\"")),
        Ok(vec![TokenType::StringLiteral(String::from("test"))])
    );
}

#[test]
fn successfully_parse_basic_tokens() {
    assert_eq!(
        unwrap_tokens(run("(){};:")),
        Ok(vec![
            TokenType::OpenParen,
            TokenType::CloseParen,
            TokenType::OpenBrace,
            TokenType::CloseBrace,
            TokenType::Semicolon,
            TokenType::Colon,
        ])
    );
}

#[test]
fn successfully_parse_a_typical_example() {
    assert_eq!(
        unwrap_tokens(run("option param { inner_option \"value\"; };")),
        Ok(vec![
            TokenType::RawLiteral(String::from("option")),
            TokenType::RawLiteral(String::from("param")),
            TokenType::OpenBrace,
            TokenType::RawLiteral(String::from("inner_option")),
            TokenType::StringLiteral(String::from("value")),
            TokenType::Semicolon,
            TokenType::CloseBrace,
            TokenType::Semicolon
        ])
    );
}

#[test]
fn ignores_comments() {
    assert_eq!(
        unwrap_tokens(run(
            "/* shit */
                                       // crap
                                       # shit"
        )),
        Ok(vec![])
    );
}

#[test]
fn fails_on_unterminated_string() {
    assert_eq!(
        run("\"yo dawg"),
        Err(Error::new(1, 8, ErrorType::UnexpectedEOF, None))
    );
}

#[test]
fn nested_comment_consumed_as_one() {
    assert_eq!(unwrap_tokens(run("/* a /* b */ c */")), Ok(vec![]));
}

#[test]
fn adjacent_comments_leave_word_between() {
    assert_eq!(
        unwrap_tokens(run("/* a */ b /* c */")),
        Ok(vec![TokenType::RawLiteral(String::from("b"))])
    );
}

#[test]
fn comment_prefix_does_not_change_tokens() {
    let plain = unwrap_tokens(run("alpha beta;"));
    let commented = unwrap_tokens(run("/* note /* nested */ still note */alpha beta;"));
    assert_eq!(plain, commented);
}

#[test]
fn invalid_escape_is_rejected() {
    assert_eq!(
        run("\"a\\qb\""),
        Err(Error::new(1, 4, ErrorType::InvalidEscape('q'), None))
    );
}

#[test]
fn recognized_escapes_are_resolved() {
    assert_eq!(
        unwrap_tokens(run("\"a\\\\b\\nc\"")),
        Ok(vec![TokenType::StringLiteral(String::from("a\\b\nc"))])
    );
}

#[test]
fn carriage_returns_are_dropped() {
    assert_eq!(
        unwrap_tokens(run("a\r\nb")),
        Ok(vec![
            TokenType::RawLiteral(String::from("a")),
            TokenType::LineEnd,
            TokenType::RawLiteral(String::from("b")),
        ])
    );
}

#[test]
fn newline_after_bare_word_emits_line_end() {
    assert_eq!(
        unwrap_tokens(run("key: value\n")),
        Ok(vec![
            TokenType::RawLiteral(String::from("key")),
            TokenType::Colon,
            TokenType::RawLiteral(String::from("value")),
            TokenType::LineEnd,
        ])
    );
}

#[test]
fn comment_newline_acts_as_space_not_line_end() {
    assert_eq!(
        unwrap_tokens(run("foo // bar\nbaz")),
        Ok(vec![
            TokenType::RawLiteral(String::from("foo")),
            TokenType::RawLiteral(String::from("baz")),
        ])
    );
}

#[test]
fn hash_comment_runs_to_end_of_line() {
    assert_eq!(
        unwrap_tokens(run("# heading\nfoo")),
        Ok(vec![TokenType::RawLiteral(String::from("foo"))])
    );
}

#[test]
fn semicolon_sticks_to_bare_word() {
    assert_eq!(
        unwrap_tokens(run("test;")),
        Ok(vec![TokenType::RawLiteral(String::from("test;"))])
    );
}

#[test]
fn unterminated_block_comment_swallows_rest() {
    assert_eq!(
        unwrap_tokens(run("a /* b")),
        Ok(vec![TokenType::RawLiteral(String::from("a"))])
    );
}

#[test]
fn token_positions_are_recorded() {
    let toks = run("ab\ncd ").unwrap();
    assert_eq!(toks.len(), 3);
    // "ab" is closed by the newline, observed at the start of line 2.
    assert_eq!((toks[0].line, toks[0].col), (2, 0));
    assert_eq!(toks[0].token_type, TokenType::RawLiteral(String::from("ab")));
    assert_eq!(toks[1].token_type, TokenType::LineEnd);
    // "cd" is closed by the space after it, at line 2, column 3.
    assert_eq!((toks[2].line, toks[2].col), (2, 3));
}

#[test]
fn token_new_carries_position_and_kind() {
    let t = Token::new(7, 3, TokenType::Colon);
    assert_eq!(t.line, 7);
    assert_eq!(t.col, 3);
    assert_eq!(t.token_type, TokenType::Colon);
}

#[test]
fn tab_is_whitespace_between_words() {
    assert_eq!(
        unwrap_tokens(run("a\tb")),
        Ok(vec![
            TokenType::RawLiteral(String::from("a")),
            TokenType::RawLiteral(String::from("b")),
        ])
    );
}

#[test]
fn eof_right_after_backslash_is_unexpected_eof() {
    assert_eq!(
        run("\"a\\"),
        Err(Error::new(1, 3, ErrorType::UnexpectedEOF, None))
    );
}
