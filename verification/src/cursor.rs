//! The loop-region parser: after an opening bracket it consumes tokens from
//! a shared cursor, recursing on nested opening brackets, until the matching
//! closing bracket, or reports the region as unclosed.

use vstd::prelude::*;

use crate::ast::{leaf_expr, Expr, ExprS};
use crate::lexer::{Token, Tokens};

verus! {

/// Position arithmetic is 32-bit wrapping, mirroring how positions are
/// accumulated in `u32` counters.
pub open spec fn wadd(a: u32, b: int) -> u32 {
    ((a + b) % 0x1_0000_0000) as u32
}

/// 32-bit wrapping addition.
pub fn wadd_u32(a: u32, b: u32) -> (r: u32)
    ensures
        r == wadd(a, b as int),
{
    if a <= u32::MAX - b {
        a + b
    } else {
        proof {
            assert((a + b) % 0x1_0000_0000 == a + b - 0x1_0000_0000);
        }
        a - (u32::MAX - b) - 1
    }
}

/// Truncates a span length to the 32 bits kept by position counters.
pub fn len32(l: usize) -> (r: u32)
    ensures
        r == (l as int) % 0x1_0000_0000,
{
    ((l as u64) % 0x1_0000_0000) as u32
}

/// The kinds of structural error the tree builder can report.
#[derive(Clone, Copy, Debug, PartialEq, Eq, Structural)]
pub enum StructuralKind {
    /// A closing bracket with no open loop region to close.
    UnmatchedClose,
    /// An opening bracket whose loop region never closes.
    UnmatchedOpen,
}

/// A structural error: the offending literal text and the `(column, line)`
/// position the builder had reached when it was detected.
#[derive(Debug, PartialEq)]
pub struct StructuralError {
    pub kind: StructuralKind,
    pub text: Vec<u8>,
    pub col: u32,
    pub line: u32,
}

/// What the loop-region parser may be asked to produce.
#[derive(Clone, Copy, Debug, PartialEq, Eq, Structural)]
pub enum Outputs {
    Loop,
}

/// Outcome of parsing one loop region.
pub enum ExpectRes {
    /// The region closed: its children, how many tokens it consumed
    /// (closing bracket included), and the position after folding the
    /// region's own column and line deltas into the outer position.
    Closed { children: Seq<ExprS>, consumed: nat, pos: (u32, u32) },
    /// The cursor was exhausted before the region closed; the position is
    /// the outer position as of the last completed nested region.
    Unclosed { col: u32, line: u32 },
}

/// Parses one loop region from the head of `toks` (the opening bracket
/// itself is already consumed and its length already folded into `ph`).
/// `pos` is the outer position, into which each completed region folds its
/// own `(column, line)` delta `ph`; comments and unrecognized tokens inside
/// a region are discarded, and newline tokens only advance the line count.
#[verifier::opaque]
pub open spec fn spec_expect(toks: Seq<Token>, pos: (u32, u32), ph: (u32, u32)) -> ExpectRes
    decreases toks.len(),
{
    if toks.len() == 0 {
        ExpectRes::Unclosed { col: pos.0, line: pos.1 }
    } else {
        let t = toks[0];
        let l = t.span.spec_len() as int;
        match t.kind {
            Tokens::CloseSquare => ExpectRes::Closed {
                children: Seq::empty(),
                consumed: 1,
                pos: (wadd(pos.0, ph.0 + l), wadd(pos.1, ph.1 as int)),
            },
            Tokens::OpenSquare => match spec_expect(toks.skip(1), pos, (0, 0)) {
                ExpectRes::Unclosed { col, line } => ExpectRes::Unclosed { col, line },
                ExpectRes::Closed { children: ch, consumed: n, pos: pos2 } => {
                    let k = if 1 + n <= toks.len() {
                        1 + n
                    } else {
                        toks.len() as nat
                    };
                    match spec_expect(toks.skip(k as int), pos2, (wadd(ph.0, l), ph.1)) {
                        ExpectRes::Closed { children: rest, consumed: m, pos: pos3 } =>
                            ExpectRes::Closed {
                            children: seq![ExprS::Loop(ch)] + rest,
                            consumed: k + m,
                            pos: pos3,
                        },
                        u => u,
                    }
                },
            },
            Tokens::Newline => match spec_expect(toks.skip(1), pos, (ph.0, wadd(ph.1, 1))) {
                ExpectRes::Closed { children, consumed, pos: p } => ExpectRes::Closed {
                    children,
                    consumed: consumed + 1,
                    pos: p,
                },
                u => u,
            },
            Tokens::Comment | Tokens::Unknown => match spec_expect(
                toks.skip(1),
                pos,
                (wadd(ph.0, l), ph.1),
            ) {
                ExpectRes::Closed { children, consumed, pos: p } => ExpectRes::Closed {
                    children,
                    consumed: consumed + 1,
                    pos: p,
                },
                u => u,
            },
            _ => match spec_expect(toks.skip(1), pos, (wadd(ph.0, l), ph.1)) {
                ExpectRes::Closed { children, consumed, pos: p } => ExpectRes::Closed {
                    children: seq![leaf_expr(t.kind)] + children,
                    consumed: consumed + 1,
                    pos: p,
                },
                u => u,
            },
        }
    }
}

/// A completed region consumes at least one token and at most the whole
/// cursor.
pub proof fn lemma_spec_expect_consumed(toks: Seq<Token>, pos: (u32, u32), ph: (u32, u32))
    ensures
        spec_expect(toks, pos, ph) matches ExpectRes::Closed { consumed, .. } ==> 1 <= consumed
            <= toks.len(),
    decreases toks.len(),
{
    reveal(spec_expect);
    if toks.len() > 0 {
        let t = toks[0];
        match t.kind {
            Tokens::OpenSquare => {
                lemma_spec_expect_consumed(toks.skip(1), pos, (0, 0));
                match spec_expect(toks.skip(1), pos, (0, 0)) {
                    ExpectRes::Closed { children: ch, consumed: n, pos: pos2 } => {
                        let l = t.span.spec_len() as int;
                        let k = if 1 + n <= toks.len() {
                            1 + n
                        } else {
                            toks.len() as nat
                        };
                        lemma_spec_expect_consumed(toks.skip(k as int), pos2, (wadd(ph.0, l), ph.1));
                    },
                    _ => {},
                }
            },
            Tokens::CloseSquare => {},
            Tokens::Newline => {
                lemma_spec_expect_consumed(toks.skip(1), pos, (ph.0, wadd(ph.1, 1)));
            },
            _ => {
                let l = t.span.spec_len() as int;
                lemma_spec_expect_consumed(toks.skip(1), pos, (wadd(ph.0, l), ph.1));
            },
        }
    }
}

/// An exhausted cursor is an unclosed region.
pub proof fn lemma_expect_empty(toks: Seq<Token>, pos: (u32, u32), ph: (u32, u32))
    requires
        toks.len() == 0,
    ensures
        spec_expect(toks, pos, ph) == (ExpectRes::Unclosed { col: pos.0, line: pos.1 }),
{
    reveal(spec_expect);
}

/// A closing bracket ends the region and folds its deltas into `pos`.
pub proof fn lemma_expect_close(toks: Seq<Token>, pos: (u32, u32), ph: (u32, u32))
    requires
        toks.len() > 0,
        toks[0].kind == Tokens::CloseSquare,
    ensures
        spec_expect(toks, pos, ph) == (ExpectRes::Closed {
            children: Seq::<ExprS>::empty(),
            consumed: 1nat,
            pos: (
                wadd(pos.0, ph.0 + toks[0].span.spec_len() as int),
                wadd(pos.1, ph.1 as int),
            ),
        }),
{
    reveal(spec_expect);
}

/// An instruction token prepends its leaf to the region's children.
pub proof fn lemma_expect_leaf(toks: Seq<Token>, pos: (u32, u32), ph: (u32, u32))
    requires
        toks.len() > 0,
        toks[0].kind == Tokens::Dot || toks[0].kind == Tokens::Comma || toks[0].kind
            == Tokens::Plus || toks[0].kind == Tokens::Minus || toks[0].kind == Tokens::ShiftR
            || toks[0].kind == Tokens::ShiftL,
    ensures
        spec_expect(toks, pos, ph) == (match spec_expect(
            toks.skip(1),
            pos,
            (wadd(ph.0, toks[0].span.spec_len() as int), ph.1),
        ) {
            ExpectRes::Closed { children, consumed, pos: p } => ExpectRes::Closed {
                children: seq![leaf_expr(toks[0].kind)] + children,
                consumed: consumed + 1,
                pos: p,
            },
            u => u,
        }),
{
    reveal(spec_expect);
}

/// A comment or unrecognized token inside a region is discarded.
pub proof fn lemma_expect_skip(toks: Seq<Token>, pos: (u32, u32), ph: (u32, u32))
    requires
        toks.len() > 0,
        toks[0].kind == Tokens::Comment || toks[0].kind == Tokens::Unknown,
    ensures
        spec_expect(toks, pos, ph) == (match spec_expect(
            toks.skip(1),
            pos,
            (wadd(ph.0, toks[0].span.spec_len() as int), ph.1),
        ) {
            ExpectRes::Closed { children, consumed, pos: p } => ExpectRes::Closed {
                children,
                consumed: consumed + 1,
                pos: p,
            },
            u => u,
        }),
{
    reveal(spec_expect);
}

/// A newline token inside a region only advances the line delta.
pub proof fn lemma_expect_newline(toks: Seq<Token>, pos: (u32, u32), ph: (u32, u32))
    requires
        toks.len() > 0,
        toks[0].kind == Tokens::Newline,
    ensures
        spec_expect(toks, pos, ph) == (match spec_expect(toks.skip(1), pos, (ph.0, wadd(ph.1, 1))) {
            ExpectRes::Closed { children, consumed, pos: p } => ExpectRes::Closed {
                children,
                consumed: consumed + 1,
                pos: p,
            },
            u => u,
        }),
{
    reveal(spec_expect);
}

/// An opening bracket parses a nested region and prepends its `Loop` node.
pub proof fn lemma_expect_open(toks: Seq<Token>, pos: (u32, u32), ph: (u32, u32))
    requires
        toks.len() > 0,
        toks[0].kind == Tokens::OpenSquare,
    ensures
        spec_expect(toks, pos, ph) == (match spec_expect(toks.skip(1), pos, (0, 0)) {
            ExpectRes::Unclosed { col, line } => ExpectRes::Unclosed { col, line },
            ExpectRes::Closed { children: ch, consumed: n, pos: pos2 } => match spec_expect(
                toks.skip(1 + n as int),
                pos2,
                (wadd(ph.0, toks[0].span.spec_len() as int), ph.1),
            ) {
                ExpectRes::Closed { children: rest, consumed: m, pos: pos3 } => ExpectRes::Closed {
                    children: seq![ExprS::Loop(ch)] + rest,
                    consumed: 1 + n + m,
                    pos: pos3,
                },
                u => u,
            },
        }),
{
    reveal(spec_expect);
    lemma_spec_expect_consumed(toks.skip(1), pos, (0, 0));
}

/// Number of opening brackets among the tokens.
pub open spec fn opens(toks: Seq<Token>) -> nat
    decreases toks.len(),
{
    if toks.len() == 0 {
        0
    } else {
        (if toks[0].kind == Tokens::OpenSquare {
            1nat
        } else {
            0nat
        }) + opens(toks.skip(1))
    }
}

/// Number of closing brackets among the tokens.
pub open spec fn closes(toks: Seq<Token>) -> nat
    decreases toks.len(),
{
    if toks.len() == 0 {
        0
    } else {
        (if toks[0].kind == Tokens::CloseSquare {
            1nat
        } else {
            0nat
        }) + closes(toks.skip(1))
    }
}

/// No prefix closes more brackets than it opens.
pub open spec fn never_neg(toks: Seq<Token>) -> bool {
    forall|k: int|
        0 <= k <= toks.len() ==> closes(#[trigger] toks.take(k)) <= opens(toks.take(k))
}

/// Every opening bracket has a matching closing bracket at the same
/// nesting level: no prefix closes more than it opens, and the whole
/// sequence opens as many as it closes.
pub open spec fn well_bracketed(toks: Seq<Token>) -> bool {
    never_neg(toks) && opens(toks) == closes(toks)
}

/// Bracket counts add over concatenation.
pub proof fn lemma_counts_add(a: Seq<Token>, b: Seq<Token>)
    ensures
        opens(a + b) == opens(a) + opens(b),
        closes(a + b) == closes(a) + closes(b),
    decreases a.len(),
{
    if a.len() == 0 {
        assert(a + b =~= b);
    } else {
        assert((a + b).skip(1) =~= a.skip(1) + b);
        assert((a + b)[0] == a[0]);
        assert((a + b).len() > 0);
        lemma_counts_add(a.skip(1), b);
    }
}

/// Bracket counts of a prefix, split at its first token.
pub proof fn lemma_prefix_cons(toks: Seq<Token>, k: int)
    requires
        toks.len() > 0,
        1 <= k <= toks.len(),
    ensures
        opens(toks.take(k)) == (if toks[0].kind == Tokens::OpenSquare {
            1nat
        } else {
            0nat
        }) + opens(toks.skip(1).take(k - 1)),
        closes(toks.take(k)) == (if toks[0].kind == Tokens::CloseSquare {
            1nat
        } else {
            0nat
        }) + closes(toks.skip(1).take(k - 1)),
{
    let h = seq![toks[0]];
    assert(toks.take(k) =~= h + toks.skip(1).take(k - 1));
    lemma_counts_add(h, toks.skip(1).take(k - 1));
    assert(h.skip(1) =~= Seq::<Token>::empty());
    assert(h.len() == 1 && h[0] == toks[0]);
    assert(opens(h.skip(1)) == 0 && closes(h.skip(1)) == 0);
    assert(opens(h) == (if toks[0].kind == Tokens::OpenSquare {
        1nat
    } else {
        0nat
    }));
    assert(closes(h) == (if toks[0].kind == Tokens::CloseSquare {
        1nat
    } else {
        0nat
    }));
}

/// Bracket counts of a prefix, split at an inner boundary.
pub proof fn lemma_prefix_split(toks: Seq<Token>, j: int, k: int)
    requires
        0 <= j <= k <= toks.len(),
    ensures
        opens(toks.take(k)) == opens(toks.take(j)) + opens(toks.skip(j).take(k - j)),
        closes(toks.take(k)) == closes(toks.take(j)) + closes(toks.skip(j).take(k - j)),
{
    assert(toks.take(k) =~= toks.take(j) + toks.skip(j).take(k - j));
    lemma_counts_add(toks.take(j), toks.skip(j).take(k - j));
}

/// The loop-region parser against the bracket counts: it fails to find a
/// closing bracket exactly when no prefix of the cursor closes more
/// brackets than it opens; and when it does close a region of `consumed`
/// tokens, that region closes exactly one bracket more than it opens, with
/// no earlier prefix doing so.
pub proof fn lemma_expect_brackets(toks: Seq<Token>, pos: (u32, u32), ph: (u32, u32))
    ensures
        (spec_expect(toks, pos, ph) matches ExpectRes::Unclosed { .. }) <==> never_neg(toks),
        spec_expect(toks, pos, ph) matches ExpectRes::Closed { consumed, .. } ==> 1 <= consumed
            <= toks.len() && closes(toks.take(consumed as int)) == opens(
            toks.take(consumed as int),
        ) + 1 && forall|j: int|
            0 <= j < consumed ==> closes(#[trigger] toks.take(j)) <= opens(toks.take(j)),
    decreases toks.len(),
{
    reveal(spec_expect);
    if toks.len() == 0 {
        assert(never_neg(toks)) by {
            assert(forall|k: int| 0 <= k <= 0 ==> #[trigger] toks.take(k) =~= toks.take(0));
            assert(toks.take(0) =~= Seq::<Token>::empty());
        }
    } else {
        let t = toks[0];
        let hop: nat = if t.kind == Tokens::OpenSquare {
            1
        } else {
            0
        };
        let hcl: nat = if t.kind == Tokens::CloseSquare {
            1
        } else {
            0
        };
        assert(toks.take(0) =~= Seq::<Token>::empty());
        if t.kind == Tokens::CloseSquare {
            lemma_prefix_cons(toks, 1);
            assert(toks.skip(1).take(0) =~= Seq::<Token>::empty());
            assert(closes(toks.take(1)) == 1 && opens(toks.take(1)) == 0);
            assert(!never_neg(toks));
        } else if t.kind == Tokens::OpenSquare {
            let nested = spec_expect(toks.skip(1), pos, (0, 0));
            lemma_expect_brackets(toks.skip(1), pos, (0, 0));
            match nested {
                ExpectRes::Unclosed { .. } => {
                    assert(never_neg(toks)) by {
                        assert forall|k: int| 0 <= k <= toks.len() implies closes(
                            #[trigger] toks.take(k),
                        ) <= opens(toks.take(k)) by {
                            if k >= 1 {
                                lemma_prefix_cons(toks, k);
                            }
                        }
                    }
                },
                ExpectRes::Closed { consumed: n, pos: pos2, .. } => {
                    lemma_spec_expect_consumed(toks.skip(1), pos, (0, 0));
                    // the opening bracket and its region balance exactly
                    assert(closes(toks.take(1 + n as int)) == opens(toks.take(1 + n as int))) by {
                        lemma_prefix_cons(toks, 1 + n as int);
                    }
                    assert(forall|j: int|
                        0 <= j <= 1 + n ==> closes(#[trigger] toks.take(j)) <= opens(
                            toks.take(j),
                        )) by {
                        assert forall|j: int| 0 <= j <= 1 + n implies closes(
                            #[trigger] toks.take(j),
                        ) <= opens(toks.take(j)) by {
                            if j >= 1 {
                                lemma_prefix_cons(toks, j);
                            }
                        }
                    }
                    let rest = toks.skip(1 + n as int);
                    let cont = spec_expect(rest, pos2, (wadd(ph.0, t.span.spec_len() as int), ph.1));
                    lemma_expect_brackets(rest, pos2, (wadd(ph.0, t.span.spec_len() as int), ph.1));
                    assert(toks.take(toks.len() as int) =~= toks);
                    match cont {
                        ExpectRes::Unclosed { .. } => {
                            assert(never_neg(toks)) by {
                                assert forall|k: int| 0 <= k <= toks.len() implies closes(
                                    #[trigger] toks.take(k),
                                ) <= opens(toks.take(k)) by {
                                    if k > 1 + n {
                                        lemma_prefix_split(toks, 1 + n as int, k);
                                        assert(rest.take(k - (1 + n)) == rest.take(
                                            k - (1 + n as int),
                                        ));
                                    }
                                }
                            }
                        },
                        ExpectRes::Closed { consumed: m, .. } => {
                            lemma_spec_expect_consumed(
                                rest,
                                pos2,
                                (wadd(ph.0, t.span.spec_len() as int), ph.1),
                            );
                            lemma_prefix_split(toks, 1 + n as int, 1 + n + m as int);
                            assert(closes(toks.take(1 + n + m as int)) == opens(
                                toks.take(1 + n + m as int),
                            ) + 1);
                            assert(!never_neg(toks));
                            assert(forall|j: int|
                                0 <= j < 1 + n + m ==> closes(#[trigger] toks.take(j)) <= opens(
                                    toks.take(j),
                                )) by {
                                assert forall|j: int| 0 <= j < 1 + n + m implies closes(
                                    #[trigger] toks.take(j),
                                ) <= opens(toks.take(j)) by {
                                    if j > 1 + n {
                                        lemma_prefix_split(toks, 1 + n as int, j);
                                    }
                                }
                            }
                        },
                    }
                },
            }
        } else {
            lemma_expect_brackets(toks.skip(1), pos, (ph.0, wadd(ph.1, 1)));
            lemma_expect_brackets(
                toks.skip(1),
                pos,
                (wadd(ph.0, t.span.spec_len() as int), ph.1),
            );
            assert(hop == 0 && hcl == 0);
            assert(never_neg(toks) <==> never_neg(toks.skip(1))) by {
                if never_neg(toks.skip(1)) {
                    assert forall|k: int| 0 <= k <= toks.len() implies closes(
                        #[trigger] toks.take(k),
                    ) <= opens(toks.take(k)) by {
                        if k >= 1 {
                            lemma_prefix_cons(toks, k);
                        }
                    }
                }
                if never_neg(toks) {
                    assert forall|k: int| 0 <= k <= toks.skip(1).len() implies closes(
                        #[trigger] toks.skip(1).take(k),
                    ) <= opens(toks.skip(1).take(k)) by {
                        lemma_prefix_cons(toks, k + 1);
                        assert(closes(toks.take(k + 1)) <= opens(toks.take(k + 1)));
                    }
                }
            }
            match spec_expect(toks.skip(1), pos, (ph.0, wadd(ph.1, 1))) {
                ExpectRes::Closed { consumed: n, .. } => {
                    if t.kind == Tokens::Newline {
                        lemma_prefix_cons(toks, (n + 1) as int);
                        assert(forall|j: int|
                            0 <= j < n + 1 ==> closes(#[trigger] toks.take(j)) <= opens(
                                toks.take(j),
                            )) by {
                            assert forall|j: int| 0 <= j < n + 1 implies closes(
                                #[trigger] toks.take(j),
                            ) <= opens(toks.take(j)) by {
                                if j >= 1 {
                                    lemma_prefix_cons(toks, j);
                                }
                            }
                        }
                    }
                },
                _ => {},
            }
            match spec_expect(toks.skip(1), pos, (wadd(ph.0, t.span.spec_len() as int), ph.1)) {
                ExpectRes::Closed { consumed: n, .. } => {
                    if t.kind != Tokens::Newline {
                        lemma_prefix_cons(toks, (n + 1) as int);
                        assert(forall|j: int|
                            0 <= j < n + 1 ==> closes(#[trigger] toks.take(j)) <= opens(
                                toks.take(j),
                            )) by {
                            assert forall|j: int| 0 <= j < n + 1 implies closes(
                                #[trigger] toks.take(j),
                            ) <= opens(toks.take(j)) by {
                                if j >= 1 {
                                    lemma_prefix_cons(toks, j);
                                }
                            }
                        }
                    }
                },
                _ => {},
            }
        }
    }
}

/// A token that is no bracket changes no bracket count.
pub proof fn lemma_never_neg_cons(toks: Seq<Token>)
    requires
        toks.len() > 0,
        toks[0].kind != Tokens::OpenSquare,
        toks[0].kind != Tokens::CloseSquare,
    ensures
        never_neg(toks) <==> never_neg(toks.skip(1)),
        opens(toks) == opens(toks.skip(1)),
        closes(toks) == closes(toks.skip(1)),
{
    assert(toks.take(0) =~= Seq::<Token>::empty());
    if never_neg(toks.skip(1)) {
        assert forall|k: int| 0 <= k <= toks.len() implies closes(#[trigger] toks.take(k))
            <= opens(toks.take(k)) by {
            if k >= 1 {
                lemma_prefix_cons(toks, k);
            }
        }
    }
    if never_neg(toks) {
        assert forall|k: int| 0 <= k <= toks.skip(1).len() implies closes(
            #[trigger] toks.skip(1).take(k),
        ) <= opens(toks.skip(1).take(k)) by {
            lemma_prefix_cons(toks, k + 1);
            assert(closes(toks.take(k + 1)) <= opens(toks.take(k + 1)));
        }
    }
}

/// Dropping a bracket-balanced block from the front changes neither the
/// remaining counts nor whether any prefix over-closes.
pub proof fn lemma_never_neg_block(toks: Seq<Token>, b: int)
    requires
        0 <= b <= toks.len(),
        closes(toks.take(b)) == opens(toks.take(b)),
        forall|j: int| 0 <= j <= b ==> closes(#[trigger] toks.take(j)) <= opens(toks.take(j)),
    ensures
        never_neg(toks) <==> never_neg(toks.skip(b)),
        opens(toks) == opens(toks.take(b)) + opens(toks.skip(b)),
        closes(toks) == closes(toks.take(b)) + closes(toks.skip(b)),
{
    assert(toks.take(toks.len() as int) =~= toks);
    assert(toks.skip(b).take(toks.len() - b) =~= toks.skip(b));
    lemma_prefix_split(toks, b, toks.len() as int);
    if never_neg(toks.skip(b)) {
        assert forall|k: int| 0 <= k <= toks.len() implies closes(#[trigger] toks.take(k))
            <= opens(toks.take(k)) by {
            if k > b {
                lemma_prefix_split(toks, b, k);
                assert(closes(toks.skip(b).take(k - b)) <= opens(toks.skip(b).take(k - b)));
            }
        }
    }
    if never_neg(toks) {
        assert forall|k: int| 0 <= k <= toks.skip(b).len() implies closes(
            #[trigger] toks.skip(b).take(k),
        ) <= opens(toks.skip(b).take(k)) by {
            lemma_prefix_split(toks, b, b + k);
            assert(closes(toks.take(b + k)) <= opens(toks.take(b + k)));
        }
    }
}

/// An opening bracket together with its closed region balances exactly,
/// and none of its prefixes over-closes.
pub proof fn lemma_open_region(toks: Seq<Token>, pos: (u32, u32))
    requires
        toks.len() > 0,
        toks[0].kind == Tokens::OpenSquare,
    ensures
        match spec_expect(toks.skip(1), pos, (0, 0)) {
            ExpectRes::Closed { consumed: n, .. } => 1 + n <= toks.len() && closes(
                toks.take(1 + n as int),
            ) == opens(toks.take(1 + n as int)) && forall|j: int|
                0 <= j <= 1 + n ==> closes(#[trigger] toks.take(j)) <= opens(toks.take(j)),
            ExpectRes::Unclosed { .. } => true,
        },
{
    lemma_expect_brackets(toks.skip(1), pos, (0, 0));
    lemma_spec_expect_consumed(toks.skip(1), pos, (0, 0));
    assert(toks.take(0) =~= Seq::<Token>::empty());
    match spec_expect(toks.skip(1), pos, (0, 0)) {
        ExpectRes::Closed { consumed: n, .. } => {
            lemma_prefix_cons(toks, 1 + n as int);
            assert forall|j: int| 0 <= j <= 1 + n implies closes(#[trigger] toks.take(j))
                <= opens(toks.take(j)) by {
                if j >= 1 {
                    lemma_prefix_cons(toks, j);
                }
            }
        },
        _ => {},
    }
}

/// Wrapping addition ignores a prior truncation of the addend.
pub proof fn lemma_wadd_trunc(a: u32, l: int)
    requires
        l >= 0,
    ensures
        wadd(a, l % 0x1_0000_0000) == wadd(a, l),
{
    let m = 0x1_0000_0000int;
    vstd::arithmetic::div_mod::lemma_add_mod_noop(a as int, l, m);
    vstd::arithmetic::div_mod::lemma_small_mod(a as nat, m as nat);
    vstd::arithmetic::div_mod::lemma_mod_twice(l, m);
    vstd::arithmetic::div_mod::lemma_add_mod_noop(a as int, l % m, m);
}

/// Two wrapping additions fold into one.
pub proof fn lemma_wadd_wadd(a: u32, b: int, c: int)
    requires
        b >= 0,
        c >= 0,
    ensures
        wadd(wadd(a, b), c) == wadd(a, b + c),
{
    let m = 0x1_0000_0000int;
    vstd::arithmetic::div_mod::lemma_add_mod_noop(a + b, c, m);
    vstd::arithmetic::div_mod::lemma_small_mod(wadd(a, b) as nat, m as nat);
    vstd::arithmetic::div_mod::lemma_mod_twice(c, m);
    vstd::arithmetic::div_mod::lemma_add_mod_noop((a + b) % m, c % m, m);
}

/// The cursor over a token vector; `expect` consumes tokens from `*i` on.
pub struct Cursor;

impl Cursor {
    /// Parses one loop region, consuming tokens from `*i` (the first token
    /// after the region's opening bracket) through its matching closing
    /// bracket, recursing on nested opening brackets; returns the `Loop`
    /// node, or an unmatched-opening-bracket error when the cursor is
    /// exhausted first.  On success `*pos` has the region's column and line
    /// deltas folded in; on failure `*pos` is the position the error
    /// reports.
    #[verifier::rlimit(100)]
    pub fn expect(
        tokens: &Vec<Token>,
        i: &mut usize,
        expected_output: Outputs,
        pos: &mut (u32, u32),
    ) -> (r: Result<Expr, StructuralError>)
        requires
            *old(i) <= tokens@.len(),
            crate::lexer::wf_spans(tokens@),
        ensures
            *final(i) <= tokens@.len(),
            match spec_expect(tokens@.skip(*old(i) as int), *old(pos), (0, 0)) {
                ExpectRes::Closed { children, consumed, pos: p2 } => r matches Ok(e)
                    && crate::ast::expr_deep(e) == ExprS::Loop(children) && *final(i) == *old(i)
                    + consumed && *final(pos) == p2,
                ExpectRes::Unclosed { col, line } => r matches Err(se) && se.kind
                    == StructuralKind::UnmatchedOpen && se.text@ == seq![91u8] && se.col == col
                    && se.line == line && *final(i) == tokens@.len() && *final(pos) == (col, line),
            },
        decreases tokens@.len() - *old(i),
    {
        match expected_output {
            Outputs::Loop => {
                let ghost i0 = *i as int;
                let ghost pos0 = *pos;
                let ghost toks0 = tokens@.skip(i0);
                let mut output: Vec<Expr> = Vec::new();
                let mut phantom: (u32, u32) = (0, 0);
                proof {
                    match spec_expect(toks0, pos0, (0, 0)) {
                        ExpectRes::Closed { children, .. } => {
                            assert(crate::ast::exprs_deep(output@) + children =~= children);
                        },
                        _ => {},
                    }
                }
                while *i < tokens.len()
                    invariant
                        i0 <= *i <= tokens@.len(),
                        0 <= i0,
                        i0 == *old(i) as int,
                        pos0 == *old(pos),
                        crate::lexer::wf_spans(tokens@),
                        toks0 == tokens@.skip(i0),
                        match spec_expect(tokens@.skip(*i as int), *pos, phantom) {
                            ExpectRes::Closed { children, consumed, pos: p2 } => spec_expect(
                                toks0,
                                pos0,
                                (0, 0),
                            ) == (ExpectRes::Closed {
                                children: crate::ast::exprs_deep(output@) + children,
                                consumed: (*i - i0) as nat + consumed,
                                pos: p2,
                            }),
                            ExpectRes::Unclosed { col, line } => spec_expect(toks0, pos0, (0, 0))
                                == (ExpectRes::Unclosed { col, line }),
                        },
                    decreases tokens@.len() - *i,
                {
                    let ghost i_b = *i as int;
                    let ghost pos_b = *pos;
                    let ghost ph_b = phantom;
                    let ghost out_b = output@;
                    let t = tokens[*i];
                    *i = *i + 1;
                    let l = t.span.len();
                    let l32 = len32(l);
                    proof {
                        assert(tokens@.skip(i_b)[0] == tokens@[i_b]);
                        assert(tokens@.skip(i_b).skip(1) =~= tokens@.skip(i_b + 1));
                        lemma_wadd_trunc(ph_b.0, l as int);
                    }
                    match t.kind {
                        Tokens::CloseSquare => {
                            let c = wadd_u32(wadd_u32(pos.0, phantom.0), l32);
                            let ln = wadd_u32(pos.1, phantom.1);
                            *pos = (c, ln);
                            proof {
                                lemma_expect_close(tokens@.skip(i_b), pos_b, ph_b);
                                lemma_wadd_trunc(wadd(pos_b.0, ph_b.0 as int), l as int);
                                lemma_wadd_wadd(pos_b.0, ph_b.0 as int, l as int);
                                assert(crate::ast::exprs_deep(out_b) + Seq::<ExprS>::empty()
                                    =~= crate::ast::exprs_deep(out_b));
                            }
                            return Ok(Expr::Loop(output));
                        },
                        Tokens::OpenSquare => {
                            phantom = (wadd_u32(phantom.0, l32), phantom.1);
                            let nested = Self::expect(tokens, i, Outputs::Loop, pos);
                            proof {
                                lemma_expect_open(tokens@.skip(i_b), pos_b, ph_b);
                            }
                            match nested {
                                Err(se) => {
                                    return Err(se);
                                },
                                Ok(e) => {
                                    proof {
                                        lemma_spec_expect_consumed(
                                            tokens@.skip(i_b + 1),
                                            pos_b,
                                            (0, 0),
                                        );
                                        match spec_expect(tokens@.skip(i_b + 1), pos_b, (0, 0)) {
                                            ExpectRes::Closed { children: ch, consumed: n, pos: p2 } => {
                                                assert(tokens@.skip(i_b).skip(1 + n as int)
                                                    =~= tokens@.skip(*i as int));
                                                crate::ast::lemma_exprs_deep_push(out_b, e);
                                                match spec_expect(
                                                    tokens@.skip(*i as int),
                                                    *pos,
                                                    phantom,
                                                ) {
                                                    ExpectRes::Closed { children: ch2, .. } => {
                                                        assert(crate::ast::exprs_deep(out_b) + (seq![
                                                            ExprS::Loop(ch),
                                                        ] + ch2) =~= crate::ast::exprs_deep(
                                                            out_b,
                                                        ).push(crate::ast::expr_deep(e)) + ch2);
                                                    },
                                                    _ => {},
                                                }
                                            },
                                            _ => {},
                                        }
                                    }
                                    output.push(e);
                                },
                            }
                        },
                        Tokens::Newline => {
                            phantom = (phantom.0, wadd_u32(phantom.1, 1));
                            proof {
                                lemma_expect_newline(tokens@.skip(i_b), pos_b, ph_b);
                            }
                        },
                        Tokens::Comment => {
                            phantom = (wadd_u32(phantom.0, l32), phantom.1);
                            proof {
                                lemma_expect_skip(tokens@.skip(i_b), pos_b, ph_b);
                            }
                        },
                        Tokens::Unknown => {
                            phantom = (wadd_u32(phantom.0, l32), phantom.1);
                            proof {
                                lemma_expect_skip(tokens@.skip(i_b), pos_b, ph_b);
                            }
                        },
                        _ => {
                            phantom = (wadd_u32(phantom.0, l32), phantom.1);
                            let e = match t.kind {
                                Tokens::Dot => Expr::Dot,
                                Tokens::Comma => Expr::Comma,
                                Tokens::Plus => Expr::Plus,
                                Tokens::Minus => Expr::Minus,
                                Tokens::ShiftR => Expr::ShiftR,
                                _ => Expr::ShiftL,
                            };
                            proof {
                                lemma_expect_leaf(tokens@.skip(i_b), pos_b, ph_b);
                                crate::ast::lemma_exprs_deep_push(out_b, e);
                                assert(crate::ast::expr_deep(e) == leaf_expr(t.kind));
                                match spec_expect(tokens@.skip(*i as int), *pos, phantom) {
                                    ExpectRes::Closed { children: ch2, .. } => {
                                        assert(crate::ast::exprs_deep(out_b) + (seq![
                                            crate::ast::expr_deep(e),
                                        ] + ch2) =~= crate::ast::exprs_deep(out_b).push(
                                            crate::ast::expr_deep(e),
                                        ) + ch2);
                                    },
                                    _ => {},
                                }
                            }
                            output.push(e);
                        },
                    }
                }
                let mut text: Vec<u8> = Vec::new();
                text.push(91);
                proof {
                    lemma_expect_empty(tokens@.skip(*i as int), *pos, phantom);
                    assert(text@ =~= seq![91u8]);
                }
                Err(StructuralError { kind: StructuralKind::UnmatchedOpen, text, col: pos.0, line: pos.1 })
            },
        }
    }
}

} // verus!
