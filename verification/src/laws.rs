//! Properties of the lexer and parser machines, stated and proved once
//! and for all inputs: comments are transparent to tokenization, leaf
//! statements and block headers parse to exactly the expected shapes,
//! error positions for unterminated literals account for every consumed
//! character, and a path lookup over a tree never fails, it only comes
//! back empty.

use vstd::prelude::*;

use crate::config::{matching_spec, path_spec, BlockView};
use crate::error::{ErrorKindView, ErrorView};
use crate::lexer::{
    adv_col, adv_line, initial_lexer, is_space_char, spec_feed, spec_lex, spec_lex_from,
    spec_lex_finish, spec_scan_step, SpecLexer, SpecMode, SpecPp, SpecScanner, TokenKind,
    TokenView,
};
use crate::parser::{
    close_leaf, initial_parser, push_child, spec_parse, spec_parse_finish, spec_parse_step,
    spec_run, SpecParser, SpecParserMode,
};

verus! {

// ---------------------------------------------------------------------------
// Leaf statements
// ---------------------------------------------------------------------------

/// A lone `name ;` statement parses, in either mode, to a root with
/// exactly one child: a leaf with that name, no parameters and no
/// children.
pub proof fn lemma_leaf_statement(t1: TokenView, t2: TokenView, name: Seq<char>, strict: bool)
    requires
        t1.kind == TokenKind::RawLiteral(name),
        t2.kind == TokenKind::Semicolon,
    ensures
        spec_parse(seq![t1, t2], strict) == Ok::<BlockView, ErrorView>(
            BlockView {
                name: Seq::empty(),
                params: Seq::empty(),
                children: seq![
                    BlockView { name, params: Seq::empty(), children: Seq::empty() },
                ],
            },
        ),
{
    let ts = seq![t1, t2];
    assert(ts.drop_last() =~= seq![t1]);
    assert(seq![t1].drop_last() =~= Seq::<TokenView>::empty());
    let st0 = initial_parser();
    assert(spec_run(st0, seq![t1].drop_last(), strict) == Ok::<SpecParser, ErrorView>(st0));
    let st1 = SpecParser {
        pm: SpecParserMode::Params(name, Seq::empty()),
        line: t1.line,
        col: t1.col,
        ..st0
    };
    assert(spec_run(st0, seq![t1], strict) == Ok::<SpecParser, ErrorView>(st1));
    let leaf = BlockView { name, params: Seq::empty(), children: Seq::empty() };
    let st2 = spec_parse_step(st1, t2, strict);
    assert(st2 == Ok::<SpecParser, ErrorView>(close_leaf(
        SpecParser { line: t2.line, col: t2.col, ..st1 },
        name,
        Seq::empty(),
    )));
    let endst = close_leaf(SpecParser { line: t2.line, col: t2.col, ..st1 }, name, Seq::empty());
    assert(st0.stack.drop_last() =~= Seq::<BlockView>::empty());
    assert(endst.stack =~= seq![
        BlockView {
            name: Seq::empty(),
            params: Seq::empty(),
            children: seq![leaf],
        },
    ]);
    assert(spec_run(st0, ts, strict) == Ok::<SpecParser, ErrorView>(endst));
    assert(spec_parse_finish(endst) == Ok::<BlockView, ErrorView>(endst.stack[0]));
}

// ---------------------------------------------------------------------------
// Path lookups
// ---------------------------------------------------------------------------

/// A path whose first name matches no child comes back empty — the walk
/// reports nothing rather than failing.
pub proof fn lemma_path_missing_name(b: BlockView, names: Seq<Seq<char>>)
    requires
        names.len() > 0,
        matching_spec(b, names[0]).len() == 0,
    ensures
        path_spec(b, names) is None,
{
}

// ---------------------------------------------------------------------------
// Error positions for unterminated string literals
// ---------------------------------------------------------------------------

/// A character that neither ends a quoted literal nor wakes the
/// preprocessor: positions advance by exactly one column for each.
pub open spec fn plain_char(c: char) -> bool {
    c != '"' && c != '\\' && c != '\n' && c != '\r' && c != '/' && c != '#'
}

/// Inside an unterminated quoted literal, wherever it starts, every
/// remaining character is consumed, each advancing the column by one,
/// and the end of input is reported at exactly the resulting position.
pub proof fn lemma_string_runs_to_eof(st: SpecLexer, s: Seq<char>)
    requires
        st.pp == SpecPp::Code,
        st.scan.mode == SpecMode::InString,
        !st.scan.escaped,
        st.col as int + s.len() <= u16::MAX as int,
        forall|i: int| 0 <= i < s.len() ==> plain_char(#[trigger] s[i]),
    ensures
        spec_lex_from(st, s) == Err::<Seq<TokenView>, ErrorView>(
            ErrorView {
                line: st.line,
                col: (st.col + s.len()) as u16,
                kind: ErrorKindView::UnexpectedEOF,
                expected: None,
            },
        ),
    decreases s.len(),
{
    if s.len() > 0 {
        let c = s[0];
        assert(plain_char(c));
        let st2 = SpecLexer { col: adv_col(st.col), ..st };
        let fed = if is_space_char(c) {
            ' '
        } else {
            c
        };
        let sc2 = spec_scan_step(st.scan, fed, st2.line, st2.col);
        assert(sc2 is Ok);
        let st3 = SpecLexer { scan: sc2->Ok_0, ..st2 };
        assert(st3.scan.mode == SpecMode::InString && !st3.scan.escaped);
        lemma_string_runs_to_eof(st3, s.skip(1));
        assert(spec_lex_from(st, s) == spec_feed(st2, fed, s.skip(1)));
    }
}

/// For an unterminated string literal opened at the very start of the
/// input and running over N further plain characters, the reported error
/// position accounts for every consumed character: line 1, column N + 1.
pub proof fn lemma_unterminated_string_position(s: Seq<char>)
    requires
        s.len() + 1 <= u16::MAX as int,
        forall|i: int| 0 <= i < s.len() ==> plain_char(#[trigger] s[i]),
    ensures
        spec_lex(seq!['"'] + s) == Err::<Seq<TokenView>, ErrorView>(
            ErrorView {
                line: 1,
                col: (s.len() + 1) as u16,
                kind: ErrorKindView::UnexpectedEOF,
                expected: None,
            },
        ),
{
    let input = seq!['"'] + s;
    assert(input[0] == '"');
    assert(input.skip(1) =~= s);
    let st0 = initial_lexer();
    let st2 = SpecLexer { col: adv_col(st0.col), ..st0 };
    let sc2 = spec_scan_step(st0.scan, '"', st2.line, st2.col);
    assert(sc2 is Ok);
    let st3 = SpecLexer { scan: sc2->Ok_0, ..st2 };
    assert(st3.scan.mode == SpecMode::InString && !st3.scan.escaped && st3.col == 1);
    lemma_string_runs_to_eof(st3, s);
    assert(spec_lex_from(st0, input) == spec_feed(st2, '"', s));
}

// ---------------------------------------------------------------------------
// Block headers and nesting
// ---------------------------------------------------------------------------

/// Running the parser machine over a concatenation: the first part runs
/// to a state (or an error), the second continues from there.
proof fn lemma_run_split(st: SpecParser, x: Seq<TokenView>, y: Seq<TokenView>, strict: bool)
    ensures
        spec_run(st, x + y, strict) == (match spec_run(st, x, strict) {
            Ok(s) => spec_run(s, y, strict),
            Err(e) => Err(e),
        }),
    decreases y.len(),
{
    if y.len() == 0 {
        assert(x + y =~= x);
    } else {
        assert((x + y).drop_last() =~= x + y.drop_last());
        assert((x + y).last() == y.last());
        lemma_run_split(st, x, y.drop_last(), strict);
    }
}

/// The bottom frame of the stack with its name and parameters replaced;
/// the machine never reads them, it only appends children.
pub open spec fn reframe(s: Seq<BlockView>, name: Seq<char>, params: Seq<Seq<char>>) -> Seq<
    BlockView,
> {
    s.update(0, BlockView { name, params, children: s[0].children })
}

/// Appending a child commutes with prepending frames below the stack and
/// with renaming the bottom frame.
proof fn lemma_push_child_reframed(
    base: Seq<BlockView>,
    s: Seq<BlockView>,
    name: Seq<char>,
    params: Seq<Seq<char>>,
    b: BlockView,
)
    requires
        s.len() >= 1,
    ensures
        push_child(base + reframe(s, name, params), b) == base + reframe(
            push_child(s, b),
            name,
            params,
        ),
{
    let d = base + reframe(s, name, params);
    assert(d.len() == base.len() + s.len());
    assert(d.last() == reframe(s, name, params).last());
    assert(d.drop_last() =~= base + reframe(s, name, params).drop_last());
    if s.len() == 1 {
        assert(reframe(s, name, params).last() == (BlockView {
            name,
            params,
            children: s[0].children,
        }));
        assert(push_child(d, b) =~= base + reframe(push_child(s, b), name, params));
    } else {
        assert(reframe(s, name, params).last() == s.last());
        assert(reframe(s, name, params).drop_last() =~= reframe(s.drop_last(), name, params));
        assert(push_child(d, b) =~= base + reframe(push_child(s, b), name, params));
    }
}

/// One successful parser step is insensitive to frames below the stack,
/// to the bottom frame's name and parameters, and to the starting
/// position register.
proof fn lemma_step_reframed(
    m: SpecParser,
    base: Seq<BlockView>,
    name: Seq<char>,
    params: Seq<Seq<char>>,
    l0: u32,
    c0: u16,
    t: TokenView,
    strict: bool,
)
    requires
        m.stack.len() >= 1,
        spec_parse_step(m, t, strict) is Ok,
    ensures
        ({
            let nx = spec_parse_step(m, t, strict)->Ok_0;
            nx.stack.len() >= 1 && spec_parse_step(
                SpecParser { stack: base + reframe(m.stack, name, params), pm: m.pm, line: l0, col: c0 },
                t,
                strict,
            ) == Ok::<SpecParser, ErrorView>(
                SpecParser { stack: base + reframe(nx.stack, name, params), ..nx },
            )
        }),
{
    let nx = spec_parse_step(m, t, strict)->Ok_0;
    let d = base + reframe(m.stack, name, params);
    match m.pm {
        SpecParserMode::Body => match t.kind {
            TokenKind::RawLiteral(sname) => {
                assert(nx.stack == m.stack);
            },
            TokenKind::CloseBrace => {
                assert(m.stack.len() >= 2);
                assert(d.last() == m.stack.last());
                assert(d.drop_last() =~= base + reframe(m.stack.drop_last(), name, params));
                lemma_push_child_reframed(
                    base,
                    m.stack.drop_last(),
                    name,
                    params,
                    m.stack.last(),
                );
            },
            TokenKind::Semicolon => {
                assert(nx.stack == m.stack);
            },
            _ => {},
        },
        SpecParserMode::Params(pn, ps) => match t.kind {
            TokenKind::StringLiteral(sv) => {
                assert(nx.stack == m.stack);
            },
            TokenKind::RawLiteral(sv) => {
                assert(nx.stack == m.stack);
            },
            TokenKind::Colon => {
                assert(nx.stack == m.stack);
            },
            TokenKind::OpenBrace => {
                let f = BlockView { name: pn, params: ps, children: Seq::empty() };
                assert(d.push(f) =~= base + reframe(m.stack.push(f), name, params));
            },
            TokenKind::Semicolon => {
                let leaf = BlockView { name: pn, params: ps, children: Seq::empty() };
                lemma_push_child_reframed(base, m.stack, name, params, leaf);
            },
            TokenKind::LineEnd => {
                let leaf = BlockView { name: pn, params: ps, children: Seq::empty() };
                lemma_push_child_reframed(base, m.stack, name, params, leaf);
            },
            _ => {
                let leaf = BlockView { name: pn, params: ps, children: Seq::empty() };
                if !strict {
                    lemma_push_child_reframed(base, m.stack, name, params, leaf);
                }
            },
        },
    }
}

/// A whole successful run is insensitive to frames below the stack, to
/// the bottom frame's name and parameters, and to the starting position
/// register: the same steps happen, appending the same children.
proof fn lemma_run_reframed(
    sh: SpecParser,
    base: Seq<BlockView>,
    name: Seq<char>,
    params: Seq<Seq<char>>,
    l0: u32,
    c0: u16,
    toks: Seq<TokenView>,
    strict: bool,
)
    requires
        sh.stack.len() >= 1,
        toks.len() >= 1,
        spec_run(sh, toks, strict) is Ok,
    ensures
        ({
            let en = spec_run(sh, toks, strict)->Ok_0;
            en.stack.len() >= 1 && spec_run(
                SpecParser { stack: base + reframe(sh.stack, name, params), pm: sh.pm, line: l0, col: c0 },
                toks,
                strict,
            ) == Ok::<SpecParser, ErrorView>(
                SpecParser { stack: base + reframe(en.stack, name, params), ..en },
            )
        }),
    decreases toks.len(),
{
    let dl = toks.drop_last();
    let mid = spec_run(sh, dl, strict);
    assert(mid is Ok);
    if dl.len() == 0 {
        assert(mid->Ok_0 == sh);
        lemma_step_reframed(sh, base, name, params, l0, c0, toks.last(), strict);
    } else {
        lemma_run_reframed(sh, base, name, params, l0, c0, dl, strict);
        let m = mid->Ok_0;
        lemma_step_reframed(m, base, name, params, m.line, m.col, toks.last(), strict);
    }
}

/// A `name p1 p2 { inner };`-style block without the trailing semicolon:
/// for any token sequence `inner` that is itself valid at top level, the
/// whole input parses to a root with a single child whose name is `name`,
/// whose parameters are exactly `[p1, p2]` in that order, and whose
/// children are exactly the top-level children that `inner` yields.
pub proof fn lemma_block_with_params(
    n: TokenView,
    a: TokenView,
    b: TokenView,
    o: TokenView,
    cb: TokenView,
    name: Seq<char>,
    p1: Seq<char>,
    p2: Seq<char>,
    inner: Seq<TokenView>,
    strict: bool,
)
    requires
        n.kind == TokenKind::RawLiteral(name),
        a.kind == TokenKind::RawLiteral(p1) || a.kind == TokenKind::StringLiteral(p1),
        b.kind == TokenKind::RawLiteral(p2) || b.kind == TokenKind::StringLiteral(p2),
        o.kind == TokenKind::OpenBrace,
        cb.kind == TokenKind::CloseBrace,
        spec_parse(inner, strict) is Ok,
    ensures
        ({
            let ir = spec_parse(inner, strict)->Ok_0;
            spec_parse(seq![n, a, b, o] + inner + seq![cb], strict) == Ok::<
                BlockView,
                ErrorView,
            >(
                BlockView {
                    name: Seq::empty(),
                    params: Seq::empty(),
                    children: seq![
                        BlockView { name, params: seq![p1, p2], children: ir.children },
                    ],
                },
            )
        }),
{
    let ps2 = seq![p1, p2];
    let hdr = seq![n, a, b, o];
    let tail = inner + seq![cb];
    let whole = hdr + tail;
    let st0 = initial_parser();
    let root0 = st0.stack[0];

    // Running the header pushes exactly the frame (name, [p1, p2], []).
    assert(hdr.drop_last() =~= seq![n, a, b]);
    assert(seq![n, a, b].drop_last() =~= seq![n, a]);
    assert(seq![n, a].drop_last() =~= seq![n]);
    assert(seq![n].drop_last() =~= Seq::<TokenView>::empty());
    assert(spec_run(st0, Seq::<TokenView>::empty(), strict) == Ok::<SpecParser, ErrorView>(st0));
    let st1 = SpecParser {
        pm: SpecParserMode::Params(name, Seq::empty()),
        line: n.line,
        col: n.col,
        ..st0
    };
    assert(spec_run(st0, seq![n], strict) == Ok::<SpecParser, ErrorView>(st1));
    let st2 = SpecParser {
        pm: SpecParserMode::Params(name, Seq::empty().push(p1)),
        line: a.line,
        col: a.col,
        ..st1
    };
    assert(spec_run(st0, seq![n, a], strict) == Ok::<SpecParser, ErrorView>(st2));
    let st3 = SpecParser {
        pm: SpecParserMode::Params(name, Seq::empty().push(p1).push(p2)),
        line: b.line,
        col: b.col,
        ..st2
    };
    assert(spec_run(st0, seq![n, a, b], strict) == Ok::<SpecParser, ErrorView>(st3));
    assert(Seq::empty().push(p1).push(p2) =~= ps2);
    let f = BlockView { name, params: ps2, children: Seq::empty() };
    let st4 = SpecParser {
        stack: st0.stack.push(f),
        pm: SpecParserMode::Body,
        line: o.line,
        col: o.col,
        ..st3
    };
    assert(spec_run(st0, hdr, strict) == Ok::<SpecParser, ErrorView>(st4));

    // The shallow run of `inner` at top level succeeds and leaves one frame.
    let en = spec_run(st0, inner, strict)->Ok_0;
    let ir = spec_parse(inner, strict)->Ok_0;
    assert(spec_run(st0, inner, strict) is Ok);
    assert(en.pm is Body && en.stack.len() == 1 && ir == en.stack[0]);

    // The same run inside the opened block appends the same children to
    // the pushed frame.
    let fdone = BlockView { name, params: ps2, children: ir.children };
    let mid = if inner.len() == 0 {
        st4
    } else {
        SpecParser { stack: seq![root0] + reframe(en.stack, name, ps2), ..en }
    };
    if inner.len() == 0 {
        assert(spec_run(st4, inner, strict) == Ok::<SpecParser, ErrorView>(mid));
    } else {
        lemma_run_reframed(st0, seq![root0], name, ps2, o.line, o.col, inner, strict);
        assert(reframe(st0.stack, name, ps2) =~= seq![f]);
        assert(seq![root0] + reframe(st0.stack, name, ps2) =~= st4.stack);
        assert(SpecParser {
            stack: seq![root0] + reframe(st0.stack, name, ps2),
            pm: st0.pm,
            line: o.line,
            col: o.col,
        } == st4);
        assert(spec_run(st4, inner, strict) == Ok::<SpecParser, ErrorView>(mid));
    }
    assert(mid.pm is Body);
    assert(reframe(en.stack, name, ps2) =~= seq![fdone]);
    assert(mid.stack =~= seq![root0, fdone]);

    // The closing brace pops the finished frame into the root.
    assert(seq![cb].drop_last() =~= Seq::<TokenView>::empty());
    assert(spec_run(mid, Seq::<TokenView>::empty(), strict) == Ok::<SpecParser, ErrorView>(mid));
    assert(spec_run(mid, seq![cb], strict) == spec_parse_step(mid, cb, strict));
    let done = spec_parse_step(mid, cb, strict)->Ok_0;
    assert(mid.stack.last() == fdone);
    assert(mid.stack.drop_last() =~= seq![root0]);
    assert(done.stack == push_child(seq![root0], fdone));
    assert(done.stack =~= seq![
        BlockView {
            name: root0.name,
            params: root0.params,
            children: root0.children.push(fdone),
        },
    ]);
    assert(root0.children.push(fdone) =~= seq![fdone]);

    // Stitch the three runs together and finish.
    lemma_run_split(st0, hdr, tail, strict);
    lemma_run_split(st4, inner, seq![cb], strict);
    assert(whole =~= hdr + tail);
    assert(spec_run(st0, whole, strict) == Ok::<SpecParser, ErrorView>(done));
    assert(done.pm is Body && done.stack.len() == 1);
    assert(spec_parse_finish(done) == Ok::<BlockView, ErrorView>(done.stack[0]));
    assert(done.stack[0] =~= (BlockView {
        name: Seq::empty(),
        params: Seq::empty(),
        children: seq![fdone],
    }));
    assert(seq![n, a, b, o] + inner + seq![cb] =~= whole);
    assert(spec_parse(whole, strict) == Ok::<BlockView, ErrorView>(done.stack[0]));
}



// ---------------------------------------------------------------------------
// Comments are transparent to tokenization
// ---------------------------------------------------------------------------

/// The kinds of a token sequence, stripped of positions.
pub open spec fn kinds_of(ts: Seq<TokenView>) -> Seq<TokenKind> {
    ts.map_values(|t: TokenView| t.kind)
}

/// A lexing result stripped of positions: the token kinds on success, the
/// error kind on failure.
pub open spec fn lex_result_kinds(r: Result<Seq<TokenView>, ErrorView>) -> Result<
    Seq<TokenKind>,
    ErrorKindView,
> {
    match r {
        Ok(ts) => Ok(kinds_of(ts)),
        Err(e) => Err(e.kind),
    }
}

/// Two tokenizer states that agree on everything but the positions baked
/// into already-emitted tokens.
pub open spec fn scan_similar(s1: SpecScanner, s2: SpecScanner) -> bool {
    s1.mode == s2.mode && s1.escaped == s2.escaped && s1.tmp == s2.tmp && kinds_of(s1.tokens)
        == kinds_of(s2.tokens)
}

broadcast proof fn lemma_kinds_push(ts: Seq<TokenView>, t: TokenView)
    ensures
        #[trigger] kinds_of(ts.push(t)) == kinds_of(ts).push(t.kind),
{
    assert(kinds_of(ts.push(t)) =~= kinds_of(ts).push(t.kind));
}

/// One tokenizer transition on similar states, at any two positions:
/// both succeed with similar states, or both fail with the same kind.
proof fn lemma_scan_step_similar(
    s1: SpecScanner,
    s2: SpecScanner,
    c: char,
    l1: u32,
    c1: u16,
    l2: u32,
    c2: u16,
)
    requires
        scan_similar(s1, s2),
    ensures
        match (spec_scan_step(s1, c, l1, c1), spec_scan_step(s2, c, l2, c2)) {
            (Ok(a), Ok(b)) => scan_similar(a, b),
            (Err(e1), Err(e2)) => e1.kind == e2.kind,
            _ => false,
        },
{
    broadcast use lemma_kinds_push;

}

/// The machine consumes the same characters and emits the same token
/// kinds from any two states that differ only in positions.
proof fn lemma_lex_pos_similar(st1: SpecLexer, st2: SpecLexer, input: Seq<char>)
    requires
        st1.pp == st2.pp,
        scan_similar(st1.scan, st2.scan),
    ensures
        lex_result_kinds(spec_lex_from(st1, input)) == lex_result_kinds(
            spec_lex_from(st2, input),
        ),
    decreases input.len(),
{
    broadcast use lemma_kinds_push;

    if input.len() == 0 {
        assert(lex_result_kinds(spec_lex_finish(st1.scan, st1.line, st1.col))
            == lex_result_kinds(spec_lex_finish(st2.scan, st2.line, st2.col)));
    } else {
        let c = input[0];
        match st1.pp {
            SpecPp::LineComment => {
                if c == '\n' {
                    let n1 = SpecLexer { pp: SpecPp::Code, line: adv_line(st1.line), col: 0, ..st1 };
                    let n2 = SpecLexer { pp: SpecPp::Code, line: adv_line(st2.line), col: 0, ..st2 };
                    lemma_scan_step_similar(n1.scan, n2.scan, ' ', n1.line, n1.col, n2.line, n2.col);
                    assert(spec_lex_from(st1, input) == spec_feed(n1, ' ', input.skip(1)));
                    assert(spec_lex_from(st2, input) == spec_feed(n2, ' ', input.skip(1)));
                    let r1 = spec_scan_step(n1.scan, ' ', n1.line, n1.col);
                    let r2 = spec_scan_step(n2.scan, ' ', n2.line, n2.col);
                    if r1 is Ok {
                        lemma_lex_pos_similar(
                            SpecLexer { scan: r1->Ok_0, ..n1 },
                            SpecLexer { scan: r2->Ok_0, ..n2 },
                            input.skip(1),
                        );
                    }
                } else {
                    lemma_lex_pos_similar(
                        SpecLexer { col: adv_col(st1.col), ..st1 },
                        SpecLexer { col: adv_col(st2.col), ..st2 },
                        input.skip(1),
                    );
                }
            },
            SpecPp::BlockComment(level) => {
                if c == '*' && input.len() >= 2 && input[1] == '/' {
                    let pp2 = if level <= 1 {
                        SpecPp::Code
                    } else {
                        SpecPp::BlockComment((level - 1) as nat)
                    };
                    lemma_lex_pos_similar(
                        SpecLexer { pp: pp2, col: adv_col(adv_col(st1.col)), ..st1 },
                        SpecLexer { pp: pp2, col: adv_col(adv_col(st2.col)), ..st2 },
                        input.skip(2),
                    );
                } else if c == '/' && input.len() >= 2 && input[1] == '*' {
                    lemma_lex_pos_similar(
                        SpecLexer {
                            pp: SpecPp::BlockComment(level + 1),
                            col: adv_col(adv_col(st1.col)),
                            ..st1
                        },
                        SpecLexer {
                            pp: SpecPp::BlockComment(level + 1),
                            col: adv_col(adv_col(st2.col)),
                            ..st2
                        },
                        input.skip(2),
                    );
                } else if c == '\n' {
                    lemma_lex_pos_similar(
                        SpecLexer { line: adv_line(st1.line), col: 0, ..st1 },
                        SpecLexer { line: adv_line(st2.line), col: 0, ..st2 },
                        input.skip(1),
                    );
                } else {
                    lemma_lex_pos_similar(
                        SpecLexer { col: adv_col(st1.col), ..st1 },
                        SpecLexer { col: adv_col(st2.col), ..st2 },
                        input.skip(1),
                    );
                }
            },
            SpecPp::Code => {
                if c == '\n' {
                    let n1 = SpecLexer { line: adv_line(st1.line), col: 0, ..st1 };
                    let n2 = SpecLexer { line: adv_line(st2.line), col: 0, ..st2 };
                    lemma_scan_step_similar(n1.scan, n2.scan, '\n', n1.line, n1.col, n2.line, n2.col);
                    assert(spec_lex_from(st1, input) == spec_feed(n1, '\n', input.skip(1)));
                    assert(spec_lex_from(st2, input) == spec_feed(n2, '\n', input.skip(1)));
                    let r1 = spec_scan_step(n1.scan, '\n', n1.line, n1.col);
                    let r2 = spec_scan_step(n2.scan, '\n', n2.line, n2.col);
                    if r1 is Ok {
                        lemma_lex_pos_similar(
                            SpecLexer { scan: r1->Ok_0, ..n1 },
                            SpecLexer { scan: r2->Ok_0, ..n2 },
                            input.skip(1),
                        );
                    }
                } else if c == '\r' {
                    lemma_lex_pos_similar(st1, st2, input.skip(1));
                } else if c == '/' && input.len() >= 2 && input[1] == '/' {
                    lemma_lex_pos_similar(
                        SpecLexer { pp: SpecPp::LineComment, col: adv_col(adv_col(st1.col)), ..st1 },
                        SpecLexer { pp: SpecPp::LineComment, col: adv_col(adv_col(st2.col)), ..st2 },
                        input.skip(2),
                    );
                } else if c == '/' && input.len() >= 2 && input[1] == '*' {
                    lemma_lex_pos_similar(
                        SpecLexer { pp: SpecPp::BlockComment(1), col: adv_col(adv_col(st1.col)), ..st1 },
                        SpecLexer { pp: SpecPp::BlockComment(1), col: adv_col(adv_col(st2.col)), ..st2 },
                        input.skip(2),
                    );
                } else if c == '#' {
                    lemma_lex_pos_similar(
                        SpecLexer { pp: SpecPp::LineComment, col: adv_col(st1.col), ..st1 },
                        SpecLexer { pp: SpecPp::LineComment, col: adv_col(st2.col), ..st2 },
                        input.skip(1),
                    );
                } else {
                    let fed = if is_space_char(c) {
                        ' '
                    } else {
                        c
                    };
                    let n1 = SpecLexer { col: adv_col(st1.col), ..st1 };
                    let n2 = SpecLexer { col: adv_col(st2.col), ..st2 };
                    lemma_scan_step_similar(n1.scan, n2.scan, fed, n1.line, n1.col, n2.line, n2.col);
                    assert(spec_lex_from(st1, input) == spec_feed(n1, fed, input.skip(1)));
                    assert(spec_lex_from(st2, input) == spec_feed(n2, fed, input.skip(1)));
                    let r1 = spec_scan_step(n1.scan, fed, n1.line, n1.col);
                    let r2 = spec_scan_step(n2.scan, fed, n2.line, n2.col);
                    if r1 is Ok {
                        lemma_lex_pos_similar(
                            SpecLexer { scan: r1->Ok_0, ..n1 },
                            SpecLexer { scan: r2->Ok_0, ..n2 },
                            input.skip(1),
                        );
                    }
                }
            },
        }
    }
}

/// How many characters it takes to leave a block comment open at the
/// given nesting level, scanning two-character delimiters first; nothing
/// if the input ends inside the comment.
pub open spec fn comment_span(level: nat, w: Seq<char>) -> Option<int>
    decreases w.len(),
{
    if level == 0 {
        Some(0)
    } else if w.len() == 0 {
        None
    } else if w.len() >= 2 && w[0] == '*' && w[1] == '/' {
        match comment_span((level - 1) as nat, w.skip(2)) {
            Some(k) => Some(k + 2),
            None => None,
        }
    } else if w.len() >= 2 && w[0] == '/' && w[1] == '*' {
        match comment_span(level + 1, w.skip(2)) {
            Some(k) => Some(k + 2),
            None => None,
        }
    } else {
        match comment_span(level, w.skip(1)) {
            Some(k) => Some(k + 1),
            None => None,
        }
    }
}

/// A balanced block comment: it opens with `/*`, and its remaining text
/// closes the comment exactly at its end, through any nesting.
pub open spec fn is_balanced_comment(c: Seq<char>) -> bool {
    c.len() >= 4 && c[0] == '/' && c[1] == '*' && comment_span(1, c.skip(2)) == Some(
        c.len() - 2,
    )
}

/// Consuming comment text that closes exactly at its end brings the
/// machine back to plain code with nothing emitted: only positions moved.
proof fn lemma_comment_skipped(st: SpecLexer, level: nat, w: Seq<char>, s: Seq<char>)
    requires
        st.pp == SpecPp::BlockComment(level),
        level >= 1,
        comment_span(level, w) == Some(w.len() as int),
    ensures
        lex_result_kinds(spec_lex_from(st, w + s)) == lex_result_kinds(
            spec_lex_from(SpecLexer { pp: SpecPp::Code, ..st }, s),
        ),
    decreases w.len(),
{
    let ws = w + s;
    if w.len() == 0 {
        assert(false);
    } else {
        assert(ws[0] == w[0]);
        assert(ws.skip(1) =~= w.skip(1) + s);
        if w.len() >= 2 {
            assert(ws[1] == w[1]);
            assert(ws.skip(2) =~= w.skip(2) + s);
        }
        if ws.len() >= 2 && ws[0] == '*' && ws[1] == '/' {
            if w.len() == 1 {
                assert(comment_span(level, w) is None);
            } else {
                let n1 = SpecLexer { col: adv_col(adv_col(st.col)), ..st };
                if level == 1 {
                    assert(comment_span(0nat, w.skip(2)) == Some(w.len() - 2));
                    assert(w.len() == 2);
                    assert(ws.skip(2) =~= s);
                    lemma_lex_pos_similar(
                        SpecLexer { pp: SpecPp::Code, ..n1 },
                        SpecLexer { pp: SpecPp::Code, ..st },
                        s,
                    );
                } else {
                    let st2 = SpecLexer { pp: SpecPp::BlockComment((level - 1) as nat), ..n1 };
                    lemma_comment_skipped(st2, (level - 1) as nat, w.skip(2), s);
                    lemma_lex_pos_similar(
                        SpecLexer { pp: SpecPp::Code, ..st2 },
                        SpecLexer { pp: SpecPp::Code, ..st },
                        s,
                    );
                }
            }
        } else if ws.len() >= 2 && ws[0] == '/' && ws[1] == '*' {
            if w.len() == 1 {
                assert(comment_span(level, w) is None);
            } else {
                let st2 = SpecLexer {
                    pp: SpecPp::BlockComment(level + 1),
                    col: adv_col(adv_col(st.col)),
                    ..st
                };
                lemma_comment_skipped(st2, level + 1, w.skip(2), s);
                lemma_lex_pos_similar(
                    SpecLexer { pp: SpecPp::Code, ..st2 },
                    SpecLexer { pp: SpecPp::Code, ..st },
                    s,
                );
            }
        } else {
            let st2 = if w[0] == '\n' {
                SpecLexer { line: adv_line(st.line), col: 0, ..st }
            } else {
                SpecLexer { col: adv_col(st.col), ..st }
            };
            lemma_comment_skipped(st2, level, w.skip(1), s);
            lemma_lex_pos_similar(
                SpecLexer { pp: SpecPp::Code, ..st2 },
                SpecLexer { pp: SpecPp::Code, ..st },
                s,
            );
        }
    }
}

/// Comments are transparent: whenever the preprocessor is in plain code,
/// a balanced block comment inserted in front of the remaining text
/// changes nothing about the tokens but their recorded positions, and
/// nothing about success, failure, or the failure's kind.
pub proof fn lemma_comment_transparent(st: SpecLexer, c: Seq<char>, s: Seq<char>)
    requires
        st.pp == SpecPp::Code,
        is_balanced_comment(c),
    ensures
        lex_result_kinds(spec_lex_from(st, c + s)) == lex_result_kinds(spec_lex_from(st, s)),
{
    let cs = c + s;
    assert(cs[0] == c[0]);
    assert(cs[1] == c[1]);
    assert(cs.skip(2) =~= c.skip(2) + s);
    let st2 = SpecLexer {
        pp: SpecPp::BlockComment(1),
        col: adv_col(adv_col(st.col)),
        ..st
    };
    lemma_comment_skipped(st2, 1, c.skip(2), s);
    lemma_lex_pos_similar(SpecLexer { pp: SpecPp::Code, ..st2 }, st, s);
}

/// The whole-input corollary: lexing a text with a balanced block comment
/// in front yields the same token kinds, or the same kind of error, as
/// lexing the text alone.
pub proof fn lemma_comment_prefix_transparent(c: Seq<char>, s: Seq<char>)
    requires
        is_balanced_comment(c),
    ensures
        lex_result_kinds(spec_lex(c + s)) == lex_result_kinds(spec_lex(s)),
{
    lemma_comment_transparent(initial_lexer(), c, s);
}

} // verus!
