//! The expression tree: tokens are consumed left to right into a nested
//! tree of instruction leaves and `Loop` nodes, tracking a `(column, line)`
//! position for diagnostics.

use vstd::prelude::*;

use crate::cursor;
use crate::cursor::{spec_expect, wadd, Cursor, ExpectRes, Outputs, StructuralError, StructuralKind};
use crate::lexer::{Token, Tokens};

verus! {

/// One node of the expression tree.  A `Loop` node owns its child sequence
/// exclusively; `Comment` keeps the literal source bytes it was built from.
#[derive(Debug, PartialEq)]
pub enum Expr {
    Dot,
    Comma,
    Plus,
    Minus,
    ShiftR,
    ShiftL,
    Comment(Vec<u8>),
    Loop(Vec<Expr>),
}

/// The mathematical shape of an expression tree node.
pub enum ExprS {
    Dot,
    Comma,
    Plus,
    Minus,
    ShiftR,
    ShiftL,
    Comment(Seq<u8>),
    Loop(Seq<ExprS>),
}

/// The mathematical shape of one tree node.
pub open spec fn expr_deep(e: Expr) -> ExprS
    decreases e,
{
    match e {
        Expr::Dot => ExprS::Dot,
        Expr::Comma => ExprS::Comma,
        Expr::Plus => ExprS::Plus,
        Expr::Minus => ExprS::Minus,
        Expr::ShiftR => ExprS::ShiftR,
        Expr::ShiftL => ExprS::ShiftL,
        Expr::Comment(text) => ExprS::Comment(text@),
        Expr::Loop(children) => ExprS::Loop(exprs_deep(children@)),
    }
}

/// The mathematical shape of a sequence of tree nodes.
pub open spec fn exprs_deep(es: Seq<Expr>) -> Seq<ExprS>
    decreases es,
{
    if es.len() == 0 {
        Seq::empty()
    } else {
        seq![expr_deep(es[0])] + exprs_deep(es.skip(1))
    }
}

/// The shape of a node sequence is the sequence of its nodes' shapes.
pub proof fn lemma_exprs_deep_index(es: Seq<Expr>)
    ensures
        exprs_deep(es).len() == es.len(),
        forall|i: int| 0 <= i < es.len() ==> exprs_deep(es)[i] == expr_deep(#[trigger] es[i]),
    decreases es,
{
    if es.len() > 0 {
        lemma_exprs_deep_index(es.skip(1));
        assert(forall|i: int| 0 < i < es.len() ==> es.skip(1)[i - 1] == #[trigger] es[i]);
    }
}

/// Appending one node appends its shape.
pub proof fn lemma_exprs_deep_push(es: Seq<Expr>, e: Expr)
    ensures
        exprs_deep(es.push(e)) =~= exprs_deep(es).push(expr_deep(e)),
{
    lemma_exprs_deep_index(es);
    lemma_exprs_deep_index(es.push(e));
    assert forall|i: int| 0 <= i < es.len() + 1 implies exprs_deep(es.push(e))[i] == exprs_deep(
        es,
    ).push(expr_deep(e))[i] by {
        if i < es.len() {
            assert(es.push(e)[i] == es[i]);
        } else {
            assert(es.push(e)[i] == e);
        }
    }
}

/// The leaf node built for one instruction token kind (only the six
/// instruction kinds are ever mapped).
pub open spec fn leaf_expr(k: Tokens) -> ExprS {
    match k {
        Tokens::Dot => ExprS::Dot,
        Tokens::Comma => ExprS::Comma,
        Tokens::Plus => ExprS::Plus,
        Tokens::Minus => ExprS::Minus,
        Tokens::ShiftR => ExprS::ShiftR,
        Tokens::ShiftL => ExprS::ShiftL,
        _ => ExprS::Dot,
    }
}

/// Outcome of building the expression tree from a token sequence.
pub enum BuildRes {
    /// Every token was consumed: the nodes built, and the final position.
    Built { items: Seq<ExprS>, pos: (u32, u32) },
    /// A closing bracket was met at the top level, outside any loop region:
    /// its literal text and the position reached (its own length included).
    ExtraClose { text: Seq<u8>, col: u32, line: u32 },
    /// An opening bracket's loop region never closed.
    Unclosed { col: u32, line: u32 },
}

/// Builds the expression tree from the head of `toks`: one leaf per
/// instruction token, comments and newlines kept as `Comment` leaves (a
/// newline advancing the line count instead of the column), unrecognized
/// tokens dropped, and each opening bracket delegated to the loop-region
/// parser.  A top-level closing bracket is a structural error.
#[verifier::opaque]
pub open spec fn spec_build(toks: Seq<Token>, src: Seq<u8>, pos: (u32, u32)) -> BuildRes
    decreases toks.len(),
{
    if toks.len() == 0 {
        BuildRes::Built { items: Seq::empty(), pos }
    } else {
        let t = toks[0];
        let l = t.span.spec_len() as int;
        match t.kind {
            Tokens::CloseSquare => BuildRes::ExtraClose {
                text: src.subrange(t.span.start as int, t.span.end as int),
                col: wadd(pos.0, l),
                line: pos.1,
            },
            Tokens::OpenSquare => match spec_expect(toks.skip(1), (wadd(pos.0, l), pos.1), (0, 0)) {
                ExpectRes::Unclosed { col, line } => BuildRes::Unclosed { col, line },
                ExpectRes::Closed { children: ch, consumed: n, pos: pos2 } => {
                    let k = if 1 + n <= toks.len() {
                        1 + n
                    } else {
                        toks.len() as nat
                    };
                    match spec_build(toks.skip(k as int), src, pos2) {
                        BuildRes::Built { items, pos: p } => BuildRes::Built {
                            items: seq![ExprS::Loop(ch)] + items,
                            pos: p,
                        },
                        e => e,
                    }
                },
            },
            Tokens::Newline => match spec_build(toks.skip(1), src, (pos.0, wadd(pos.1, 1))) {
                BuildRes::Built { items, pos: p } => BuildRes::Built {
                    items: seq![ExprS::Comment(src.subrange(t.span.start as int, t.span.end as int))]
                        + items,
                    pos: p,
                },
                e => e,
            },
            Tokens::Comment => match spec_build(toks.skip(1), src, (wadd(pos.0, l), pos.1)) {
                BuildRes::Built { items, pos: p } => BuildRes::Built {
                    items: seq![ExprS::Comment(src.subrange(t.span.start as int, t.span.end as int))]
                        + items,
                    pos: p,
                },
                e => e,
            },
            Tokens::Unknown => spec_build(toks.skip(1), src, (wadd(pos.0, l), pos.1)),
            _ => match spec_build(toks.skip(1), src, (wadd(pos.0, l), pos.1)) {
                BuildRes::Built { items, pos: p } => BuildRes::Built {
                    items: seq![leaf_expr(t.kind)] + items,
                    pos: p,
                },
                e => e,
            },
        }
    }
}

/// An empty token sequence builds an empty tree.
pub proof fn lemma_build_empty(toks: Seq<Token>, src: Seq<u8>, pos: (u32, u32))
    requires
        toks.len() == 0,
    ensures
        spec_build(toks, src, pos) == (BuildRes::Built { items: Seq::<ExprS>::empty(), pos }),
{
    reveal(spec_build);
}

/// A top-level closing bracket is reported with its literal and position.
pub proof fn lemma_build_close(toks: Seq<Token>, src: Seq<u8>, pos: (u32, u32))
    requires
        toks.len() > 0,
        toks[0].kind == Tokens::CloseSquare,
    ensures
        spec_build(toks, src, pos) == (BuildRes::ExtraClose {
            text: src.subrange(toks[0].span.start as int, toks[0].span.end as int),
            col: wadd(pos.0, toks[0].span.spec_len() as int),
            line: pos.1,
        }),
{
    reveal(spec_build);
}

/// An opening bracket delegates to the loop-region parser and prepends the
/// resulting `Loop` node.
pub proof fn lemma_build_open(toks: Seq<Token>, src: Seq<u8>, pos: (u32, u32))
    requires
        toks.len() > 0,
        toks[0].kind == Tokens::OpenSquare,
    ensures
        spec_build(toks, src, pos) == (match spec_expect(
            toks.skip(1),
            (wadd(pos.0, toks[0].span.spec_len() as int), pos.1),
            (0, 0),
        ) {
            ExpectRes::Unclosed { col, line } => BuildRes::Unclosed { col, line },
            ExpectRes::Closed { children: ch, consumed: n, pos: pos2 } => match spec_build(
                toks.skip(1 + n as int),
                src,
                pos2,
            ) {
                BuildRes::Built { items, pos: p } => BuildRes::Built {
                    items: seq![ExprS::Loop(ch)] + items,
                    pos: p,
                },
                e => e,
            },
        }),
{
    reveal(spec_build);
    cursor::lemma_spec_expect_consumed(
        toks.skip(1),
        (wadd(pos.0, toks[0].span.spec_len() as int), pos.1),
        (0, 0),
    );
}

/// A newline token advances the line count and is kept as a comment leaf.
pub proof fn lemma_build_newline(toks: Seq<Token>, src: Seq<u8>, pos: (u32, u32))
    requires
        toks.len() > 0,
        toks[0].kind == Tokens::Newline,
    ensures
        spec_build(toks, src, pos) == (match spec_build(toks.skip(1), src, (pos.0, wadd(pos.1, 1))) {
            BuildRes::Built { items, pos: p } => BuildRes::Built {
                items: seq![
                    ExprS::Comment(src.subrange(toks[0].span.start as int, toks[0].span.end as int)),
                ] + items,
                pos: p,
            },
            e => e,
        }),
{
    reveal(spec_build);
}

/// A comment token advances the column and is kept as a comment leaf.
pub proof fn lemma_build_comment(toks: Seq<Token>, src: Seq<u8>, pos: (u32, u32))
    requires
        toks.len() > 0,
        toks[0].kind == Tokens::Comment,
    ensures
        spec_build(toks, src, pos) == (match spec_build(
            toks.skip(1),
            src,
            (wadd(pos.0, toks[0].span.spec_len() as int), pos.1),
        ) {
            BuildRes::Built { items, pos: p } => BuildRes::Built {
                items: seq![
                    ExprS::Comment(src.subrange(toks[0].span.start as int, toks[0].span.end as int)),
                ] + items,
                pos: p,
            },
            e => e,
        }),
{
    reveal(spec_build);
}

/// An unrecognized token advances the column and builds nothing.
pub proof fn lemma_build_unknown(toks: Seq<Token>, src: Seq<u8>, pos: (u32, u32))
    requires
        toks.len() > 0,
        toks[0].kind == Tokens::Unknown,
    ensures
        spec_build(toks, src, pos) == spec_build(
            toks.skip(1),
            src,
            (wadd(pos.0, toks[0].span.spec_len() as int), pos.1),
        ),
{
    reveal(spec_build);
}

/// An instruction token advances the column and prepends its leaf.
pub proof fn lemma_build_leaf(toks: Seq<Token>, src: Seq<u8>, pos: (u32, u32))
    requires
        toks.len() > 0,
        toks[0].kind == Tokens::Dot || toks[0].kind == Tokens::Comma || toks[0].kind
            == Tokens::Plus || toks[0].kind == Tokens::Minus || toks[0].kind == Tokens::ShiftR
            || toks[0].kind == Tokens::ShiftL,
    ensures
        spec_build(toks, src, pos) == (match spec_build(
            toks.skip(1),
            src,
            (wadd(pos.0, toks[0].span.spec_len() as int), pos.1),
        ) {
            BuildRes::Built { items, pos: p } => BuildRes::Built {
                items: seq![leaf_expr(toks[0].kind)] + items,
                pos: p,
            },
            e => e,
        }),
{
    reveal(spec_build);
}

/// The tree builder against the bracket structure of its tokens: building
/// succeeds exactly on well-bracketed token sequences (and then the `Loop`
/// nodes nest as the brackets did, as `spec_build` describes); a sequence
/// with a prefix that closes more brackets than it opens is rejected with
/// an unmatched-closing-bracket error; and one that over-closes nowhere but
/// leaves an opening bracket unanswered is rejected with an
/// unmatched-opening-bracket error.
pub proof fn lemma_build_brackets(toks: Seq<Token>, src: Seq<u8>, pos: (u32, u32))
    ensures
        (spec_build(toks, src, pos) matches BuildRes::Built { .. })
            <==> cursor::well_bracketed(toks),
        (spec_build(toks, src, pos) matches BuildRes::ExtraClose { .. })
            <==> !cursor::never_neg(toks),
        (spec_build(toks, src, pos) matches BuildRes::Unclosed { .. })
            <==> (cursor::never_neg(toks) && cursor::opens(toks) != cursor::closes(toks)),
    decreases toks.len(),
{
    reveal(spec_build);
    assert(toks.take(0) =~= Seq::<Token>::empty());
    if toks.len() == 0 {
        assert(cursor::never_neg(toks)) by {
            assert forall|k: int| 0 <= k <= toks.len() implies cursor::closes(
                #[trigger] toks.take(k),
            ) <= cursor::opens(toks.take(k)) by {
                assert(toks.take(k) =~= Seq::<Token>::empty());
            }
        }
    } else {
        let t = toks[0];
        let l = t.span.spec_len() as int;
        if t.kind == Tokens::CloseSquare {
            cursor::lemma_prefix_cons(toks, 1);
            assert(toks.skip(1).take(0) =~= Seq::<Token>::empty());
            assert(cursor::closes(toks.take(1)) == 1 && cursor::opens(toks.take(1)) == 0);
            assert(!cursor::never_neg(toks));
        } else if t.kind == Tokens::OpenSquare {
            let p1 = (wadd(pos.0, l), pos.1);
            cursor::lemma_expect_brackets(toks.skip(1), p1, (0, 0));
            cursor::lemma_open_region(toks, p1);
            assert(toks.skip(1).take(toks.len() - 1) =~= toks.skip(1));
            match spec_expect(toks.skip(1), p1, (0, 0)) {
                ExpectRes::Unclosed { .. } => {
                    assert(cursor::never_neg(toks)) by {
                        assert forall|k: int| 0 <= k <= toks.len() implies cursor::closes(
                            #[trigger] toks.take(k),
                        ) <= cursor::opens(toks.take(k)) by {
                            if k >= 1 {
                                cursor::lemma_prefix_cons(toks, k);
                            }
                        }
                    }
                    assert(cursor::closes(toks.skip(1)) <= cursor::opens(toks.skip(1)));
                    assert(cursor::opens(toks) == 1 + cursor::opens(toks.skip(1)));
                    assert(cursor::closes(toks) == cursor::closes(toks.skip(1)));
                },
                ExpectRes::Closed { consumed: n, pos: pos2, .. } => {
                    cursor::lemma_spec_expect_consumed(toks.skip(1), p1, (0, 0));
                    let b = 1 + n as int;
                    cursor::lemma_never_neg_block(toks, b);
                    lemma_build_brackets(toks.skip(b), src, pos2);
                },
            }
        } else {
            cursor::lemma_never_neg_cons(toks);
            if t.kind == Tokens::Newline {
                lemma_build_brackets(toks.skip(1), src, (pos.0, wadd(pos.1, 1)));
            } else {
                lemma_build_brackets(toks.skip(1), src, (wadd(pos.0, l), pos.1));
            }
        }
    }
}

/// Copies the bytes of `src` in the half-open range `[a, b)`.
pub fn slice_bytes(src: &Vec<u8>, a: usize, b: usize) -> (r: Vec<u8>)
    requires
        a <= b <= src.len(),
    ensures
        r@ == src@.subrange(a as int, b as int),
{
    let mut r: Vec<u8> = Vec::new();
    let mut j = a;
    while j < b
        invariant
            a <= j <= b <= src.len(),
            r@ == src@.subrange(a as int, j as int),
        decreases b - j,
    {
        r.push(src[j]);
        proof {
            assert(src@.subrange(a as int, j + 1) =~= src@.subrange(a as int, j as int).push(
                src@[j as int],
            ));
        }
        j = j + 1;
    }
    r
}

/// The expression tree under construction, with the `(column, line)`
/// position the builder has reached (columns and lines wrap at 32 bits).
#[derive(Debug, PartialEq)]
pub struct Ast {
    pub inner: Vec<Expr>,
    pub pos: (u32, u32),
}

impl Ast {
    /// An empty tree, positioned at column 0 of line 1.
    pub fn new() -> (r: Ast)
        ensures
            r.inner@ == Seq::<Expr>::empty(),
            r.pos == (0u32, 1u32),
    {
        let r = Ast { inner: Vec::new(), pos: (0, 1) };
        proof {
            assert(r.inner@ =~= Seq::<Expr>::empty());
        }
        r
    }

    /// Consumes the tokens left to right, appending one node per token as
    /// `spec_build` describes, and returns the structural error it
    /// describes where the brackets do not match (the partially built tree
    /// is meaningless in that case: the pipeline stops at the first
    /// structural error).
    #[verifier::rlimit(100)]
    pub fn build(&mut self, tokens: Vec<Token>, source: &Vec<u8>) -> (r: Result<
        (),
        StructuralError,
    >)
        requires
            crate::lexer::wf_tokens(tokens@, source@),
        ensures
            match spec_build(tokens@, source@, old(self).pos) {
                BuildRes::Built { items, pos: p } => r is Ok && exprs_deep(final(self).inner@)
                    == exprs_deep(old(self).inner@) + items && final(self).pos == p,
                BuildRes::ExtraClose { text, col, line } => r matches Err(se) && se.kind
                    == StructuralKind::UnmatchedClose && se.text@ == text && se.col == col
                    && se.line == line,
                BuildRes::Unclosed { col, line } => r matches Err(se) && se.kind
                    == StructuralKind::UnmatchedOpen && se.text@ == seq![91u8] && se.col == col
                    && se.line == line,
            },
    {
        let ghost pos0 = self.pos;
        let ghost base = exprs_deep(old(self).inner@);
        let ghost mut built: Seq<ExprS> = Seq::empty();
        let mut i: usize = 0;
        proof {
            match spec_build(tokens@, source@, pos0) {
                BuildRes::Built { items, .. } => {
                    assert(built + items =~= items);
                },
                _ => {},
            }
            assert(base + built =~= base);
            assert(tokens@.skip(0) == tokens@);
        }
        while i < tokens.len()
            invariant
                0 <= i <= tokens@.len(),
                crate::lexer::wf_tokens(tokens@, source@),
                pos0 == old(self).pos,
                base == exprs_deep(old(self).inner@),
                exprs_deep(self.inner@) == base + built,
                match spec_build(tokens@.skip(i as int), source@, self.pos) {
                    BuildRes::Built { items, pos: p } => spec_build(tokens@, source@, pos0)
                        == (BuildRes::Built { items: built + items, pos: p }),
                    BuildRes::ExtraClose { text, col, line } => spec_build(tokens@, source@, pos0)
                        == (BuildRes::ExtraClose { text, col, line }),
                    BuildRes::Unclosed { col, line } => spec_build(tokens@, source@, pos0)
                        == (BuildRes::Unclosed { col, line }),
                },
            decreases tokens@.len() - i,
        {
            let ghost i_b = i as int;
            let ghost pos_b = self.pos;
            let ghost built_b = built;
            let ghost inner_b = self.inner@;
            let t = tokens[i];
            i = i + 1;
            let l = t.span.len();
            let l32 = crate::cursor::len32(l);
            proof {
                assert(tokens@.skip(i_b)[0] == tokens@[i_b]);
                assert(tokens@.skip(i_b).skip(1) =~= tokens@.skip(i_b + 1));
                cursor::lemma_wadd_trunc(pos_b.0, l as int);
            }
            match t.kind {
                Tokens::CloseSquare => {
                    let text = slice_bytes(source, t.span.start, t.span.end);
                    let col = crate::cursor::wadd_u32(self.pos.0, l32);
                    proof {
                        lemma_build_close(tokens@.skip(i_b), source@, pos_b);
                    }
                    return Err(
                        StructuralError {
                            kind: StructuralKind::UnmatchedClose,
                            text,
                            col,
                            line: self.pos.1,
                        },
                    );
                },
                Tokens::OpenSquare => {
                    self.pos = (crate::cursor::wadd_u32(self.pos.0, l32), self.pos.1);
                    let mut p = self.pos;
                    let nested = Cursor::expect(&tokens, &mut i, Outputs::Loop, &mut p);
                    self.pos = p;
                    proof {
                        lemma_build_open(tokens@.skip(i_b), source@, pos_b);
                    }
                    match nested {
                        Err(se) => {
                            return Err(se);
                        },
                        Ok(e) => {
                            proof {
                                cursor::lemma_spec_expect_consumed(
                                    tokens@.skip(i_b + 1),
                                    (wadd(pos_b.0, l as int), pos_b.1),
                                    (0, 0),
                                );
                                match spec_expect(
                                    tokens@.skip(i_b + 1),
                                    (wadd(pos_b.0, l as int), pos_b.1),
                                    (0, 0),
                                ) {
                                    ExpectRes::Closed { children: ch, consumed: n, .. } => {
                                        assert(tokens@.skip(i_b).skip(1 + n as int)
                                            =~= tokens@.skip(i as int));
                                        lemma_exprs_deep_push(inner_b, e);
                                        built = built.push(ExprS::Loop(ch));
                                        match spec_build(tokens@.skip(i as int), source@, self.pos) {
                                            BuildRes::Built { items: it2, .. } => {
                                                assert(built_b + (seq![ExprS::Loop(ch)] + it2)
                                                    =~= built + it2);
                                            },
                                            _ => {},
                                        }
                                    },
                                    _ => {},
                                }
                            }
                            self.inner.push(e);
                        },
                    }
                },
                Tokens::Newline => {
                    let text = slice_bytes(source, t.span.start, t.span.end);
                    self.pos = (self.pos.0, crate::cursor::wadd_u32(self.pos.1, 1));
                    let e = Expr::Comment(text);
                    proof {
                        lemma_build_newline(tokens@.skip(i_b), source@, pos_b);
                        lemma_exprs_deep_push(inner_b, e);
                        built = built.push(expr_deep(e));
                        match spec_build(tokens@.skip(i as int), source@, self.pos) {
                            BuildRes::Built { items: it2, .. } => {
                                assert(built_b + (seq![expr_deep(e)] + it2) =~= built + it2);
                            },
                            _ => {},
                        }
                    }
                    self.inner.push(e);
                },
                Tokens::Comment => {
                    let text = slice_bytes(source, t.span.start, t.span.end);
                    self.pos = (crate::cursor::wadd_u32(self.pos.0, l32), self.pos.1);
                    let e = Expr::Comment(text);
                    proof {
                        lemma_build_comment(tokens@.skip(i_b), source@, pos_b);
                        lemma_exprs_deep_push(inner_b, e);
                        built = built.push(expr_deep(e));
                        match spec_build(tokens@.skip(i as int), source@, self.pos) {
                            BuildRes::Built { items: it2, .. } => {
                                assert(built_b + (seq![expr_deep(e)] + it2) =~= built + it2);
                            },
                            _ => {},
                        }
                    }
                    self.inner.push(e);
                },
                Tokens::Unknown => {
                    self.pos = (crate::cursor::wadd_u32(self.pos.0, l32), self.pos.1);
                    proof {
                        lemma_build_unknown(tokens@.skip(i_b), source@, pos_b);
                    }
                },
                _ => {
                    self.pos = (crate::cursor::wadd_u32(self.pos.0, l32), self.pos.1);
                    let e = match t.kind {
                        Tokens::Dot => Expr::Dot,
                        Tokens::Comma => Expr::Comma,
                        Tokens::Plus => Expr::Plus,
                        Tokens::Minus => Expr::Minus,
                        Tokens::ShiftR => Expr::ShiftR,
                        _ => Expr::ShiftL,
                    };
                    proof {
                        lemma_build_leaf(tokens@.skip(i_b), source@, pos_b);
                        lemma_exprs_deep_push(inner_b, e);
                        assert(expr_deep(e) == leaf_expr(t.kind));
                        built = built.push(expr_deep(e));
                        match spec_build(tokens@.skip(i as int), source@, self.pos) {
                            BuildRes::Built { items: it2, .. } => {
                                assert(built_b + (seq![expr_deep(e)] + it2) =~= built + it2);
                            },
                            _ => {},
                        }
                    }
                    self.inner.push(e);
                },
            }
        }
        proof {
            lemma_build_empty(tokens@.skip(i as int), source@, self.pos);
            assert(built + Seq::<ExprS>::empty() =~= built);
        }
        Ok(())
    }
}

} // verus!
