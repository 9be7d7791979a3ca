//! Parser for the corosync.conf configuration dialect: nested named blocks
//! with positional parameters, colon-separated key/value pairs, and C-style
//! as well as shell-style comments.
//!
//! The pipeline is `text -> lexer -> tokens -> parser -> ConfigBlock tree`.
//! Every stage carries a full functional specification: the lexer is proved
//! equal to a character-level state machine (`lexer::spec_lex`) and the
//! parser to a token-level machine (`parser::spec_parse`).

pub mod config;
pub mod error;
pub mod laws;
pub mod lexer;
pub mod parser;

pub use config::ConfigBlock;
pub use error::Error as ParseError;

use vstd::prelude::*;

verus! {

/// What `parse` returns on a given text: the token machine runs first and
/// its error is handed through unchanged; on success the block machine
/// decides the result.
pub open spec fn spec_parse_text(text: Seq<char>) -> Result<
    config::BlockView,
    error::ErrorView,
> {
    match lexer::spec_lex(text) {
        Ok(toks) => parser::spec_parse(toks, true),
        Err(e) => Err(e),
    }
}

/// Entry point: lex the whole input, then parse the token sequence into a
/// block tree, in strict mode.
pub fn parse(data: String) -> (r: Result<config::ConfigBlock, error::Error>)
    ensures
        match r {
            Ok(b) => spec_parse_text(data@) == Ok::<config::BlockView, error::ErrorView>(b@),
            Err(e) => spec_parse_text(data@) == Err::<config::BlockView, error::ErrorView>(e@),
        },
{
    match lexer::run(data.as_str()) {
        Ok(tokens) => parser::run(tokens),
        Err(err) => Err(err),
    }
}

} // verus!
