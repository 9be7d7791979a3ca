//! The parser: consumes the token sequence and builds the block tree.
//!
//! The grammar over nested blocks is written down once as a token-level
//! machine: a stack of partially built blocks plus a register that holds
//! the parameter list currently being collected. Pushing a frame
//! corresponds to entering a `name params {` header, popping one to a
//! closing brace; a `;` or line end closes a leaf statement. The
//! executable [`run`] is proved to return exactly what that machine,
//! [`spec_parse`], returns.

use vstd::prelude::*;
use vstd::string::StringExecFns;

use crate::config::{
    blocks_view, lemma_blocks_view_index, lemma_blocks_view_len, params_view, BlockView,
    ConfigBlock,
};
use crate::error::{Error, ErrorKindView, ErrorType, ErrorView};
use crate::lexer::{tokens_view, Token, TokenKind, TokenType, TokenView};

verus! {

// ---------------------------------------------------------------------------
// The parser as a token-level state machine (specification)
// ---------------------------------------------------------------------------

/// What the parser is doing between tokens: walking a block body, or
/// collecting the positional parameters that follow a statement name.
pub enum SpecParserMode {
    Body,
    Params(Seq<char>, Seq<Seq<char>>),
}

/// Parser state: the stack of partially built blocks (the root frame at
/// the bottom), the mode register, and the position of the most recently
/// consumed token, reported by errors raised at end of input.
pub struct SpecParser {
    pub stack: Seq<BlockView>,
    pub pm: SpecParserMode,
    pub line: u32,
    pub col: u16,
}

/// Appends `b` as a child of the topmost frame.
pub open spec fn push_child(stack: Seq<BlockView>, b: BlockView) -> Seq<BlockView> {
    if stack.len() == 0 {
        stack
    } else {
        let top = stack.last();
        stack.drop_last().push(BlockView { children: top.children.push(b), ..top })
    }
}

/// An error for a token of the wrong kind, at that token's position.
pub open spec fn unexpected(t: TokenView, what: Seq<char>) -> ErrorView {
    ErrorView {
        line: t.line,
        col: t.col,
        kind: ErrorKindView::Unexpected(t),
        expected: Some(what),
    }
}

/// Closes the pending `name params` run as a leaf block of the topmost
/// frame and returns to body mode.
pub open spec fn close_leaf(st: SpecParser, name: Seq<char>, ps: Seq<Seq<char>>) -> SpecParser {
    SpecParser {
        stack: push_child(
            st.stack,
            BlockView { name, params: ps, children: Seq::empty() },
        ),
        pm: SpecParserMode::Body,
        ..st
    }
}

/// One parser transition on a token.
///
/// In body mode a raw literal opens a parameter run, a closing brace pops
/// a nested frame (at the root it is an error expecting an option), a
/// stray semicolon is tolerated, and everything else is an error. While
/// collecting parameters, literals extend the run, colons are discarded
/// separators, an opening brace pushes a frame, a semicolon or line end
/// closes a leaf; any other token is an error in strict mode and closes
/// the leaf silently otherwise (the token itself is consumed).
pub open spec fn spec_parse_step(st0: SpecParser, t: TokenView, strict: bool) -> Result<
    SpecParser,
    ErrorView,
> {
    let st = SpecParser { line: t.line, col: t.col, ..st0 };
    match st.pm {
        SpecParserMode::Body => match t.kind {
            TokenKind::RawLiteral(s) => Ok(
                SpecParser { pm: SpecParserMode::Params(s, Seq::empty()), ..st },
            ),
            TokenKind::CloseBrace => {
                if st.stack.len() >= 2 {
                    Ok(
                        SpecParser {
                            stack: push_child(st.stack.drop_last(), st.stack.last()),
                            ..st
                        },
                    )
                } else {
                    Err(unexpected(t, "option"@))
                }
            },
            TokenKind::Semicolon => Ok(st),
            _ => Err(
                unexpected(
                    t,
                    if st.stack.len() >= 2 {
                        "option or }"@
                    } else {
                        "option"@
                    },
                ),
            ),
        },
        SpecParserMode::Params(name, ps) => match t.kind {
            TokenKind::StringLiteral(s) => Ok(
                SpecParser { pm: SpecParserMode::Params(name, ps.push(s)), ..st },
            ),
            TokenKind::RawLiteral(s) => Ok(
                SpecParser { pm: SpecParserMode::Params(name, ps.push(s)), ..st },
            ),
            TokenKind::Colon => Ok(st),
            TokenKind::OpenBrace => Ok(
                SpecParser {
                    stack: st.stack.push(
                        BlockView { name, params: ps, children: Seq::empty() },
                    ),
                    pm: SpecParserMode::Body,
                    ..st
                },
            ),
            TokenKind::Semicolon => Ok(close_leaf(st, name, ps)),
            TokenKind::LineEnd => Ok(close_leaf(st, name, ps)),
            _ => {
                if strict {
                    Err(unexpected(t, "; or {"@))
                } else {
                    Ok(close_leaf(st, name, ps))
                }
            },
        },
    }
}

/// What the parser returns when the tokens are exhausted: an open
/// parameter run or an unclosed nested block is an error; otherwise the
/// root frame is the result.
pub open spec fn spec_parse_finish(st: SpecParser) -> Result<BlockView, ErrorView> {
    match st.pm {
        SpecParserMode::Params(name, ps) => Err(
            ErrorView {
                line: st.line,
                col: st.col,
                kind: ErrorKindView::UnexpectedEOF,
                expected: Some("}"@),
            },
        ),
        SpecParserMode::Body => {
            if st.stack.len() == 1 {
                Ok(st.stack[0])
            } else {
                Err(
                    ErrorView {
                        line: st.line,
                        col: st.col,
                        kind: ErrorKindView::UnexpectedEOF,
                        expected: Some("token"@),
                    },
                )
            }
        },
    }
}

/// Runs the machine over a whole token sequence and returns the state it
/// ends in, or the first error.
pub open spec fn spec_run(st: SpecParser, toks: Seq<TokenView>, strict: bool) -> Result<
    SpecParser,
    ErrorView,
>
    decreases toks.len(),
{
    if toks.len() == 0 {
        Ok(st)
    } else {
        match spec_run(st, toks.drop_last(), strict) {
            Ok(s) => spec_parse_step(s, toks.last(), strict),
            Err(e) => Err(e),
        }
    }
}

/// The machine's initial state: only the root frame, with an empty name,
/// in body mode.
pub open spec fn initial_parser() -> SpecParser {
    SpecParser {
        stack: seq![
            BlockView { name: Seq::empty(), params: Seq::empty(), children: Seq::empty() },
        ],
        pm: SpecParserMode::Body,
        line: 0,
        col: 0,
    }
}

/// What parsing a token sequence from a given state returns.
pub open spec fn spec_parse_from(st: SpecParser, toks: Seq<TokenView>, strict: bool) -> Result<
    BlockView,
    ErrorView,
> {
    match spec_run(st, toks, strict) {
        Ok(s) => spec_parse_finish(s),
        Err(e) => Err(e),
    }
}

/// What parsing a whole token sequence returns.
pub open spec fn spec_parse(toks: Seq<TokenView>, strict: bool) -> Result<BlockView, ErrorView> {
    spec_parse_from(initial_parser(), toks, strict)
}

/// An error reached on a prefix of the tokens is the result on the whole
/// sequence.
proof fn lemma_run_err_extends(
    st: SpecParser,
    ts: Seq<TokenView>,
    k: int,
    e: ErrorView,
    strict: bool,
)
    requires
        0 <= k <= ts.len(),
        spec_run(st, ts.take(k), strict) == Err::<SpecParser, ErrorView>(e),
    ensures
        spec_run(st, ts, strict) == Err::<SpecParser, ErrorView>(e),
    decreases ts.len() - k,
{
    if k == ts.len() {
        assert(ts.take(k) =~= ts);
    } else {
        assert(ts.drop_last().take(k) =~= ts.take(k));
        lemma_run_err_extends(st, ts.drop_last(), k, e, strict);
    }
}

// ---------------------------------------------------------------------------
// Executable parser
// ---------------------------------------------------------------------------

/// The mode register as the exec parser keeps it: a flag plus the pending
/// name and parameters, meaningful only while the flag is set.
pub open spec fn pm_view(in_params: bool, name: Seq<char>, ps: Seq<Seq<char>>) -> SpecParserMode {
    if in_params {
        SpecParserMode::Params(name, ps)
    } else {
        SpecParserMode::Body
    }
}

/// Parses a token sequence in strict mode.
pub fn run(tokens: Vec<Token>) -> (r: Result<ConfigBlock, Error>)
    ensures
        match r {
            Ok(b) => spec_parse(tokens_view(tokens@), true) == Ok::<BlockView, ErrorView>(b@),
            Err(e) => spec_parse(tokens_view(tokens@), true) == Err::<BlockView, ErrorView>(e@),
        },
{
    run_mode(tokens, true)
}

/// Parses a token sequence and builds the block tree, or reports the
/// first grammar error. In nonstrict mode a structurally ambiguous
/// parameter terminator closes the statement instead of failing. Returns
/// exactly what the machine [`spec_parse`] returns on the same tokens.
pub fn run_mode(tokens: Vec<Token>, strict: bool) -> (r: Result<ConfigBlock, Error>)
    ensures
        match r {
            Ok(b) => spec_parse(tokens_view(tokens@), strict) == Ok::<BlockView, ErrorView>(b@),
            Err(e) => spec_parse(tokens_view(tokens@), strict) == Err::<BlockView, ErrorView>(e@),
        },
{
    let ghost tv = tokens_view(tokens@);
    let mut stack: Vec<ConfigBlock> = Vec::new();
    stack.push(ConfigBlock::new(String::new(), Vec::new(), Vec::new()));
    let mut in_params: bool = false;
    let mut pname: String = String::new();
    let mut pvals: Vec<String> = Vec::new();
    let mut line: u32 = 0;
    let mut col: u16 = 0;
    let mut i: usize = 0;
    proof {
        broadcast use lemma_blocks_view_len, lemma_blocks_view_index;

        assert(tv.take(0) =~= Seq::<TokenView>::empty());
        assert(params_view(Seq::<String>::empty()) =~= Seq::<Seq<char>>::empty());
        assert(blocks_view(Seq::<ConfigBlock>::empty()) =~= Seq::<BlockView>::empty());
        assert(blocks_view(stack@) =~= initial_parser().stack);
        assert(params_view(pvals@) =~= Seq::<Seq<char>>::empty());
    }
    while i < tokens.len()
        invariant
            tv == tokens_view(tokens@),
            tv.len() == tokens@.len(),
            i <= tokens.len(),
            stack.len() >= 1,
            spec_run(initial_parser(), tv.take(i as int), strict) == Ok::<SpecParser, ErrorView>(
                SpecParser {
                    stack: blocks_view(stack@),
                    pm: pm_view(in_params, pname@, params_view(pvals@)),
                    line,
                    col,
                },
            ),
        decreases tokens.len() - i,
    {
        proof {
            broadcast use lemma_blocks_view_len, lemma_blocks_view_index;

        }
        let ghost prev = SpecParser {
            stack: blocks_view(stack@),
            pm: pm_view(in_params, pname@, params_view(pvals@)),
            line,
            col,
        };
        let t = &tokens[i];
        proof {
            assert(tv[i as int] == tokens@[i as int]@);
            assert(tv.take(i as int + 1).drop_last() =~= tv.take(i as int));
            assert(tv.take(i as int + 1).last() == tv[i as int]);
        }
        line = t.line;
        col = t.col;
        if !in_params {
            match &t.token_type {
                TokenType::RawLiteral(s) => {
                    pname = s.clone();
                    pvals = Vec::new();
                    in_params = true;
                    proof {
                        assert(params_view(pvals@) =~= Seq::<Seq<char>>::empty());
                        assert(spec_run(initial_parser(), tv.take(i as int + 1), strict)
                            == Ok::<SpecParser, ErrorView>(
                            SpecParser {
                                stack: blocks_view(stack@),
                                pm: pm_view(in_params, pname@, params_view(pvals@)),
                                line,
                                col,
                            },
                        ));
                    }
                },
                TokenType::CloseBrace => {
                    if stack.len() >= 2 {
                        let ghost s0 = blocks_view(stack@);
                        let child = stack.pop().unwrap();
                        let mut parent = stack.pop().unwrap();
                        parent.add_block(child);
                        stack.push(parent);
                        proof {
                            assert(blocks_view(stack@) =~= push_child(
                                s0.drop_last(),
                                s0.last(),
                            ));
                            assert(spec_run(initial_parser(), tv.take(i as int + 1), strict)
                                == Ok::<SpecParser, ErrorView>(
                                SpecParser {
                                    stack: blocks_view(stack@),
                                    pm: pm_view(in_params, pname@, params_view(pvals@)),
                                    line,
                                    col,
                                },
                            ));
                        }
                    } else {
                        let e = Error::new(
                            t.line,
                            t.col,
                            ErrorType::Unexpected(t.duplicate()),
                            Some(String::from_str("option")),
                        );
                        proof {
                            assert(spec_run(initial_parser(), tv.take(i as int + 1), strict)
                                == Err::<SpecParser, ErrorView>(e@));
                            lemma_run_err_extends(initial_parser(), tv, i as int + 1, e@, strict);
                        }
                        return Err(e);
                    }
                },
                TokenType::Semicolon => {
                    proof {
                        assert(spec_run(initial_parser(), tv.take(i as int + 1), strict)
                            == Ok::<SpecParser, ErrorView>(
                            SpecParser {
                                stack: blocks_view(stack@),
                                pm: pm_view(in_params, pname@, params_view(pvals@)),
                                line,
                                col,
                            },
                        ));
                    }
                },
                _ => {
                    let what = if stack.len() >= 2 {
                        String::from_str("option or }")
                    } else {
                        String::from_str("option")
                    };
                    let e = Error::new(
                        t.line,
                        t.col,
                        ErrorType::Unexpected(t.duplicate()),
                        Some(what),
                    );
                    proof {
                        assert(spec_run(initial_parser(), tv.take(i as int + 1), strict)
                            == Err::<SpecParser, ErrorView>(e@));
                        lemma_run_err_extends(initial_parser(), tv, i as int + 1, e@, strict);
                    }
                    return Err(e);
                },
            }
        } else {
            match &t.token_type {
                TokenType::StringLiteral(s) => {
                    let ghost ps0 = params_view(pvals@);
                    pvals.push(s.clone());
                    proof {
                        assert(params_view(pvals@) =~= ps0.push(s@));
                        assert(spec_run(initial_parser(), tv.take(i as int + 1), strict)
                            == Ok::<SpecParser, ErrorView>(
                            SpecParser {
                                stack: blocks_view(stack@),
                                pm: pm_view(in_params, pname@, params_view(pvals@)),
                                line,
                                col,
                            },
                        ));
                    }
                },
                TokenType::RawLiteral(s) => {
                    let ghost ps0 = params_view(pvals@);
                    pvals.push(s.clone());
                    proof {
                        assert(params_view(pvals@) =~= ps0.push(s@));
                        assert(spec_run(initial_parser(), tv.take(i as int + 1), strict)
                            == Ok::<SpecParser, ErrorView>(
                            SpecParser {
                                stack: blocks_view(stack@),
                                pm: pm_view(in_params, pname@, params_view(pvals@)),
                                line,
                                col,
                            },
                        ));
                    }
                },
                TokenType::Colon => {
                    proof {
                        assert(spec_run(initial_parser(), tv.take(i as int + 1), strict)
                            == Ok::<SpecParser, ErrorView>(
                            SpecParser {
                                stack: blocks_view(stack@),
                                pm: pm_view(in_params, pname@, params_view(pvals@)),
                                line,
                                col,
                            },
                        ));
                    }
                },
                TokenType::OpenBrace => {
                    let ghost s0 = blocks_view(stack@);
                    let ghost nm0 = pname@;
                    let ghost ps0 = params_view(pvals@);
                    let nm = pname;
                    pname = String::new();
                    let ps = pvals;
                    pvals = Vec::new();
                    in_params = false;
                    stack.push(ConfigBlock::new(nm, ps, Vec::new()));
                    proof {
                        assert(blocks_view(Seq::<ConfigBlock>::empty())
                            =~= Seq::<BlockView>::empty());
                        assert(params_view(pvals@) =~= Seq::<Seq<char>>::empty());
                        assert(blocks_view(stack@) =~= s0.push(
                            BlockView { name: nm0, params: ps0, children: Seq::empty() },
                        ));
                        assert(spec_run(initial_parser(), tv.take(i as int + 1), strict)
                            == Ok::<SpecParser, ErrorView>(
                            SpecParser {
                                stack: blocks_view(stack@),
                                pm: pm_view(in_params, pname@, params_view(pvals@)),
                                line,
                                col,
                            },
                        ));
                    }
                },
                TokenType::Semicolon => {
                    close_leaf_exec(&mut stack, &mut in_params, &mut pname, &mut pvals);
                    proof {
                        assert(spec_run(initial_parser(), tv.take(i as int + 1), strict)
                            == Ok::<SpecParser, ErrorView>(
                            SpecParser {
                                stack: blocks_view(stack@),
                                pm: pm_view(in_params, pname@, params_view(pvals@)),
                                line,
                                col,
                            },
                        ));
                    }
                },
                TokenType::LineEnd => {
                    close_leaf_exec(&mut stack, &mut in_params, &mut pname, &mut pvals);
                    proof {
                        assert(spec_run(initial_parser(), tv.take(i as int + 1), strict)
                            == Ok::<SpecParser, ErrorView>(
                            SpecParser {
                                stack: blocks_view(stack@),
                                pm: pm_view(in_params, pname@, params_view(pvals@)),
                                line,
                                col,
                            },
                        ));
                    }
                },
                _ => {
                    if strict {
                        let e = Error::new(
                            t.line,
                            t.col,
                            ErrorType::Unexpected(t.duplicate()),
                            Some(String::from_str("; or {")),
                        );
                        proof {
                            assert(spec_run(initial_parser(), tv.take(i as int + 1), strict)
                                == Err::<SpecParser, ErrorView>(e@));
                            lemma_run_err_extends(initial_parser(), tv, i as int + 1, e@, strict);
                        }
                        return Err(e);
                    } else {
                        close_leaf_exec(&mut stack, &mut in_params, &mut pname, &mut pvals);
                        proof {
                            assert(spec_run(initial_parser(), tv.take(i as int + 1), strict)
                                == Ok::<SpecParser, ErrorView>(
                                SpecParser {
                                    stack: blocks_view(stack@),
                                    pm: pm_view(in_params, pname@, params_view(pvals@)),
                                    line,
                                    col,
                                },
                            ));
                        }
                    }
                },
            }
        }
        i = i + 1;
    }
    proof {
        broadcast use lemma_blocks_view_len, lemma_blocks_view_index;

        assert(tv.take(i as int) =~= tv);
    }
    if in_params {
        let e = Error::new(line, col, ErrorType::UnexpectedEOF, Some(String::from_str("}")));
        return Err(e);
    }
    if stack.len() == 1 {
        let root = stack.pop().unwrap();
        proof {
            broadcast use lemma_blocks_view_len, lemma_blocks_view_index;

        }
        Ok(root)
    } else {
        Err(Error::new(line, col, ErrorType::UnexpectedEOF, Some(String::from_str("token"))))
    }
}

/// Closes the pending parameter run as a leaf child of the topmost frame;
/// mirrors [`close_leaf`].
fn close_leaf_exec(
    stack: &mut Vec<ConfigBlock>,
    in_params: &mut bool,
    pname: &mut String,
    pvals: &mut Vec<String>,
)
    requires
        old(stack).len() >= 1,
        *old(in_params),
    ensures
        final(stack).len() == old(stack).len(),
        blocks_view(final(stack)@) == push_child(
            blocks_view(old(stack)@),
            BlockView {
                name: old(pname)@,
                params: params_view(old(pvals)@),
                children: Seq::empty(),
            },
        ),
        !*final(in_params),
{
    proof {
        broadcast use lemma_blocks_view_len, lemma_blocks_view_index;

    }
    let ghost s0 = blocks_view(stack@);
    let mut nm = String::new();
    core::mem::swap(pname, &mut nm);
    let mut ps: Vec<String> = Vec::new();
    core::mem::swap(pvals, &mut ps);
    *in_params = false;
    let leaf = ConfigBlock::new(nm, ps, Vec::new());
    let mut top = stack.pop().unwrap();
    top.add_block(leaf);
    stack.push(top);
    proof {
        broadcast use lemma_blocks_view_len, lemma_blocks_view_index;

        assert(blocks_view(Seq::<ConfigBlock>::empty()) =~= Seq::<BlockView>::empty());
        assert(blocks_view(stack@) =~= push_child(
            s0,
            BlockView {
                name: old(pname)@,
                params: params_view(old(pvals)@),
                children: Seq::empty(),
            },
        ));
    }
}

} // verus!
