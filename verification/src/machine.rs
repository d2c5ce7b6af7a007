//! The executor: walks an expression tree against a fixed 30000-byte tape,
//! a cell pointer, an input byte queue consumed by `Comma`, and an output
//! byte sequence written by `Dot`.  Cell arithmetic wraps at 8 bits, and the
//! pointer wraps in the 0..256 range before being used as a tape index.
//! Execution is fuel-bounded: each loop iteration costs one unit of fuel,
//! and a run that exhausts its fuel reports so instead of diverging.

use vstd::prelude::*;

use crate::ast::{expr_deep, exprs_deep, lemma_exprs_deep_index, Expr, ExprS};

verus! {

/// Number of cells on the memory tape.
pub const TAPE_LEN: usize = 30000;

/// The mathematical state of one execution: tape, cell pointer, remaining
/// input queue, and output written so far.
#[verifier::ext_equal]
pub struct StateV {
    pub mem: Seq<u8>,
    pub ptr: nat,
    pub input: Seq<u8>,
    pub output: Seq<u8>,
}

/// A well-formed state: a full tape and a pointer inside its wrapped range.
pub open spec fn st_wf(st: StateV) -> bool {
    st.mem.len() == TAPE_LEN && st.ptr < 256
}

/// A cell incremented with 8-bit wraparound.
pub open spec fn inc8(c: u8) -> u8 {
    (((c as int) + 1) % 256) as u8
}

/// A cell decremented with 8-bit wraparound.
pub open spec fn dec8(c: u8) -> u8 {
    (((c as int) + 255) % 256) as u8
}

/// The pointer shifted right, wrapping within 0..256.
pub open spec fn ptr_right(p: nat) -> nat {
    (((p as int) + 1) % 256) as nat
}

/// The pointer shifted left, wrapping within 0..256.
pub open spec fn ptr_left(p: nat) -> nat {
    (((p as int) + 255) % 256) as nat
}

/// Size of a tree node, counting nested loop bodies.
pub open spec fn expr_size(e: ExprS) -> nat
    decreases e,
{
    match e {
        ExprS::Loop(children) => 1 + exprs_size(children),
        _ => 1,
    }
}

/// Size of a node sequence.
pub open spec fn exprs_size(es: Seq<ExprS>) -> nat
    decreases es,
{
    if es.len() == 0 {
        0
    } else {
        expr_size(es[0]) + exprs_size(es.skip(1))
    }
}

pub proof fn lemma_expr_size_pos(e: ExprS)
    ensures
        expr_size(e) >= 1,
{
}

/// Outcome of evaluating against a given amount of fuel.
pub enum EvalRes {
    /// Execution finished in the given state.
    Done(StateV),
    /// `Comma` met an empty input queue in the given state; execution halts
    /// there.
    Fail(StateV),
    /// The fuel ran out before execution finished.
    Timeout,
}

/// The effect of one tree node on the state.  A loop runs its children
/// while the addressed cell is nonzero, each iteration against a fresh copy
/// of the input queue as it stood when the loop was reached (an iteration's
/// input consumption is not carried forward), and each iteration costs one
/// unit of fuel.
pub open spec fn eval_expr(e: ExprS, st: StateV, fuel: nat) -> EvalRes
    decreases fuel, expr_size(e), 0nat,
{
    match e {
        ExprS::Dot => EvalRes::Done(
            StateV { output: st.output.push(st.mem[st.ptr as int]), ..st },
        ),
        ExprS::Comma => if st.input.len() == 0 {
            EvalRes::Fail(st)
        } else {
            EvalRes::Done(
                StateV {
                    mem: st.mem.update(st.ptr as int, st.input[0]),
                    input: st.input.skip(1),
                    ..st
                },
            )
        },
        ExprS::Plus => EvalRes::Done(
            StateV { mem: st.mem.update(st.ptr as int, inc8(st.mem[st.ptr as int])), ..st },
        ),
        ExprS::Minus => EvalRes::Done(
            StateV { mem: st.mem.update(st.ptr as int, dec8(st.mem[st.ptr as int])), ..st },
        ),
        ExprS::ShiftR => EvalRes::Done(StateV { ptr: ptr_right(st.ptr), ..st }),
        ExprS::ShiftL => EvalRes::Done(StateV { ptr: ptr_left(st.ptr), ..st }),
        ExprS::Comment(_) => EvalRes::Done(st),
        ExprS::Loop(children) => if st.mem[st.ptr as int] == 0 {
            EvalRes::Done(st)
        } else if fuel == 0 {
            EvalRes::Timeout
        } else {
            match eval_seq(children, st, (fuel - 1) as nat) {
                EvalRes::Done(st2) => eval_expr(
                    e,
                    StateV { input: st.input, ..st2 },
                    (fuel - 1) as nat,
                ),
                other => other,
            }
        },
    }
}

#[via_fn]
proof fn eval_seq_decreases(es: Seq<ExprS>, st: StateV, fuel: nat) {
    if es.len() > 0 {
        lemma_expr_size_pos(es[0]);
        assert(exprs_size(es) == expr_size(es[0]) + exprs_size(es.skip(1)));
    }
}

/// The effect of a node sequence on the state, evaluated left to right;
/// a failure or fuel exhaustion in one node stops the rest.
pub open spec fn eval_seq(es: Seq<ExprS>, st: StateV, fuel: nat) -> EvalRes
    decreases fuel, exprs_size(es), 1nat
        via eval_seq_decreases
{
    if es.len() == 0 {
        EvalRes::Done(st)
    } else {
        match eval_expr(es[0], st, fuel) {
            EvalRes::Done(st2) => eval_seq(es.skip(1), st2, fuel),
            other => other,
        }
    }
}

/// An execution context: the memory tape, the cell pointer, the input byte
/// queue consumed by `Comma`, and the output bytes written by `Dot`.
#[derive(Debug, PartialEq)]
pub struct Machine {
    pub memory: Vec<u8>,
    pub pointer: usize,
    pub input: Vec<u8>,
    pub output: Vec<u8>,
}

impl View for Machine {
    type V = StateV;

    open spec fn view(&self) -> StateV {
        StateV { mem: self.memory@, ptr: self.pointer as nat, input: self.input@, output: self.output@ }
    }
}

/// How execution ended.
#[derive(Clone, Copy, Debug, PartialEq, Eq, Structural)]
pub enum RunStatus {
    /// The whole tree was executed.
    Done,
    /// A `Comma` met an empty input queue; execution halted there.
    InputExhausted,
    /// The fuel ran out first.
    OutOfFuel,
}

/// Copies a byte vector.
pub fn copy_bytes(v: &Vec<u8>) -> (r: Vec<u8>)
    ensures
        r@ == v@,
{
    let mut r: Vec<u8> = Vec::new();
    let mut j: usize = 0;
    while j < v.len()
        invariant
            0 <= j <= v.len(),
            r@ == v@.take(j as int),
        decreases v.len() - j,
    {
        r.push(v[j]);
        proof {
            assert(v@.take(j + 1) =~= v@.take(j as int).push(v@[j as int]));
        }
        j = j + 1;
    }
    proof {
        assert(v@.take(v@.len() as int) =~= v@);
    }
    r
}

impl Machine {
    /// A machine is well formed when its tape is full-length and its
    /// pointer lies in the wrapped 0..256 range.
    pub open spec fn wf(&self) -> bool {
        st_wf(self@)
    }

    /// A fresh machine: a zeroed tape, the pointer at cell 0, the given
    /// input queue, and no output.
    pub fn new(input: Vec<u8>) -> (m: Machine)
        ensures
            m.wf(),
            m@.mem.len() == TAPE_LEN,
            forall|i: int| 0 <= i < TAPE_LEN ==> m@.mem[i] == 0,
            m@.ptr == 0,
            m@.input == input@,
            m@.output == Seq::<u8>::empty(),
    {
        let mut memory: Vec<u8> = Vec::new();
        let mut j: usize = 0;
        while j < TAPE_LEN
            invariant
                0 <= j <= TAPE_LEN,
                memory@.len() == j,
                forall|i: int| 0 <= i < j ==> memory@[i] == 0,
            decreases TAPE_LEN - j,
        {
            memory.push(0);
            j = j + 1;
        }
        let m = Machine { memory, pointer: 0, input, output: Vec::new() };
        proof {
            assert(m@.output =~= Seq::<u8>::empty());
        }
        m
    }
}

/// Executes one tree node against the machine, with the given fuel.
#[verifier::rlimit(100)]
fn run_expr(e: &Expr, m: &mut Machine, fuel: u64) -> (st: RunStatus)
    requires
        old(m).wf(),
    ensures
        final(m).wf(),
        match eval_expr(expr_deep(*e), old(m)@, fuel as nat) {
            EvalRes::Done(s) => st == RunStatus::Done && final(m)@ == s,
            EvalRes::Fail(s) => st == RunStatus::InputExhausted && final(m)@ == s,
            EvalRes::Timeout => st == RunStatus::OutOfFuel,
        },
    decreases fuel, expr_size(expr_deep(*e)), 0nat,
{
    match e {
        Expr::Dot => {
            let b = m.memory[m.pointer];
            m.output.push(b);
            RunStatus::Done
        },
        Expr::Comma => {
            if m.input.len() == 0 {
                RunStatus::InputExhausted
            } else {
                let ghost input0 = m.input@;
                let b = m.input.remove(0);
                m.memory.set(m.pointer, b);
                proof {
                    assert(input0.remove(0) =~= input0.skip(1));
                }
                RunStatus::Done
            }
        },
        Expr::Plus => {
            let c = m.memory[m.pointer];
            let c2 = if c == 255 {
                0
            } else {
                c + 1
            };
            m.memory.set(m.pointer, c2);
            proof {
                assert(c2 == inc8(c));
            }
            RunStatus::Done
        },
        Expr::Minus => {
            let c = m.memory[m.pointer];
            let c2 = if c == 0 {
                255
            } else {
                c - 1
            };
            m.memory.set(m.pointer, c2);
            proof {
                assert(c2 == dec8(c));
            }
            RunStatus::Done
        },
        Expr::ShiftR => {
            m.pointer = if m.pointer == 255 {
                0
            } else {
                m.pointer + 1
            };
            RunStatus::Done
        },
        Expr::ShiftL => {
            m.pointer = if m.pointer == 0 {
                255
            } else {
                m.pointer - 1
            };
            RunStatus::Done
        },
        Expr::Comment(_) => RunStatus::Done,
        Expr::Loop(children) => {
            let ghost e_v = expr_deep(*e);
            let ghost st0 = m@;
            let saved = copy_bytes(&m.input);
            let mut f = fuel;
            while m.memory[m.pointer] != 0
                invariant
                    m.wf(),
                    f <= fuel,
                    st0 == old(m)@,
                    saved@ == m@.input,
                    e_v == ExprS::Loop(exprs_deep(children@)),
                    e_v == expr_deep(*e),
                    eval_expr(e_v, st0, fuel as nat) == eval_expr(e_v, m@, f as nat),
                decreases f,
            {
                if f == 0 {
                    return RunStatus::OutOfFuel;
                }
                f = f - 1;
                let ghost st_top = m@;
                let status = run_exprs(children, m, f);
                match status {
                    RunStatus::Done => {
                        m.input = copy_bytes(&saved);
                        proof {
                            assert(m@ == (StateV { input: st_top.input, ..m@ }));
                        }
                    },
                    RunStatus::InputExhausted => {
                        return RunStatus::InputExhausted;
                    },
                    RunStatus::OutOfFuel => {
                        return RunStatus::OutOfFuel;
                    },
                }
            }
            RunStatus::Done
        },
    }
}

/// Executes a node sequence left to right against the machine, with the
/// given fuel.
#[verifier::rlimit(100)]
fn run_exprs(exprs: &Vec<Expr>, m: &mut Machine, fuel: u64) -> (st: RunStatus)
    requires
        old(m).wf(),
    ensures
        final(m).wf(),
        match eval_seq(exprs_deep(exprs@), old(m)@, fuel as nat) {
            EvalRes::Done(s) => st == RunStatus::Done && final(m)@ == s,
            EvalRes::Fail(s) => st == RunStatus::InputExhausted && final(m)@ == s,
            EvalRes::Timeout => st == RunStatus::OutOfFuel,
        },
    decreases fuel, exprs_size(exprs_deep(exprs@)), 1nat,
{
    let ghost es = exprs_deep(exprs@);
    let ghost st0 = m@;
    proof {
        lemma_exprs_deep_index(exprs@);
        assert(es.skip(0) == es);
    }
    let mut idx: usize = 0;
    while idx < exprs.len()
        invariant
            0 <= idx <= exprs@.len(),
            m.wf(),
            st0 == old(m)@,
            es == exprs_deep(exprs@),
            es.len() == exprs@.len(),
            forall|i: int| 0 <= i < exprs@.len() ==> es[i] == expr_deep(#[trigger] exprs@[i]),
            eval_seq(es, st0, fuel as nat) == eval_seq(es.skip(idx as int), m@, fuel as nat),
        decreases exprs@.len() - idx,
    {
        proof {
            lemma_exprs_deep_index(exprs@);
            assert(es.skip(idx as int)[0] == es[idx as int]);
            lemma_expr_size_pos(es[idx as int]);
            lemma_exprs_size_index(es, idx as int);
        }
        let status = run_expr(&exprs[idx], m, fuel);
        proof {
            assert(es.skip(idx as int).skip(1) =~= es.skip(idx + 1));
        }
        match status {
            RunStatus::Done => {},
            RunStatus::InputExhausted => {
                return RunStatus::InputExhausted;
            },
            RunStatus::OutOfFuel => {
                return RunStatus::OutOfFuel;
            },
        }
        idx = idx + 1;
    }
    proof {
        assert(es.skip(idx as int) =~= Seq::<ExprS>::empty());
    }
    RunStatus::Done
}

impl crate::ast::Ast {
    /// Walks this tree's expression sequence against the machine.  The
    /// outcome and the machine's final state are exactly those of
    /// `eval_seq` on the tree's shape with the given fuel: `Done` when the
    /// whole tree ran, `InputExhausted` where `Comma` met an empty queue,
    /// and `OutOfFuel` when the fuel ran out first (callers that want the
    /// unbounded behavior retry with more fuel).
    pub fn run(&self, m: &mut Machine, fuel: u64) -> (st: RunStatus)
        requires
            old(m).wf(),
        ensures
            final(m).wf(),
            match eval_seq(exprs_deep(self.inner@), old(m)@, fuel as nat) {
                EvalRes::Done(s) => st == RunStatus::Done && final(m)@ == s,
                EvalRes::Fail(s) => st == RunStatus::InputExhausted && final(m)@ == s,
                EvalRes::Timeout => st == RunStatus::OutOfFuel,
            },
    {
        run_exprs(&self.inner, m, fuel)
    }
}

/// The sequence of `n` copies of one node.
pub open spec fn reps(e: ExprS, n: nat) -> Seq<ExprS>
    decreases n,
{
    if n == 0 {
        Seq::empty()
    } else {
        seq![e] + reps(e, (n - 1) as nat)
    }
}

/// Folding a reduction into a modular sum changes nothing.
proof fn lemma_mod_add256(a: int, b: int)
    requires
        a >= 0,
        b >= 0,
    ensures
        ((a % 256) + b) % 256 == (a + b) % 256,
{
    vstd::arithmetic::div_mod::lemma_add_mod_noop(a, b, 256);
    vstd::arithmetic::div_mod::lemma_mod_twice(a, 256);
    vstd::arithmetic::div_mod::lemma_mod_twice(b, 256);
    vstd::arithmetic::div_mod::lemma_add_mod_noop(a % 256, b, 256);
}

/// Applying `+` `n` times adds `n` to the addressed cell modulo 256.
proof fn lemma_plus_reps(st: StateV, n: nat, fuel: nat)
    requires
        st_wf(st),
    ensures
        eval_seq(reps(ExprS::Plus, n), st, fuel) == EvalRes::Done(
            StateV {
                mem: st.mem.update(
                    st.ptr as int,
                    (((st.mem[st.ptr as int] as int) + n) % 256) as u8,
                ),
                ..st
            },
        ),
    decreases n,
{
    let p = st.ptr as int;
    let c = st.mem[p];
    if n == 0 {
        assert(st.mem.update(p, (((c as int) + 0) % 256) as u8) =~= st.mem);
        assert((StateV { mem: st.mem.update(p, (((c as int) + 0) % 256) as u8), ..st }) =~= st);
    } else {
        let st1 = StateV { mem: st.mem.update(p, inc8(c)), ..st };
        assert(st_wf(st1));
        lemma_plus_reps(st1, (n - 1) as nat, fuel);
        let s = reps(ExprS::Plus, n);
        assert(s == seq![ExprS::Plus] + reps(ExprS::Plus, (n - 1) as nat));
        assert(s.len() > 0);
        assert(s[0] == ExprS::Plus);
        assert(eval_expr(ExprS::Plus, st, fuel) == EvalRes::Done(st1));
        assert(reps(ExprS::Plus, n).skip(1) =~= reps(ExprS::Plus, (n - 1) as nat));
        assert(eval_seq(s, st, fuel) == eval_seq(reps(ExprS::Plus, (n - 1) as nat), st1, fuel));
        lemma_mod_add256((c as int) + 1, n - 1);
        assert(st1.mem[p] == inc8(c));
        assert(st1.mem.update(p, (((inc8(c) as int) + (n - 1)) % 256) as u8) =~= st.mem.update(
            p,
            (((c as int) + n) % 256) as u8,
        ));
        assert((StateV { mem: st1.mem.update(p, (((inc8(c) as int) + (n - 1)) % 256) as u8), ..st1 })
            =~= (StateV { mem: st.mem.update(p, (((c as int) + n) % 256) as u8), ..st }));
    }
}

/// Cell arithmetic is modulo 256: applying `+` 256 times returns the
/// addressed cell (and the whole state) to its original value, and `-` on
/// a cell holding 0 yields 255.
pub proof fn lemma_cell_wraparound(st: StateV, fuel: nat)
    requires
        st_wf(st),
    ensures
        eval_seq(reps(ExprS::Plus, 256), st, fuel) == EvalRes::Done(st),
        st.mem[st.ptr as int] == 0 ==> eval_expr(ExprS::Minus, st, fuel) == EvalRes::Done(
            StateV { mem: st.mem.update(st.ptr as int, 255), ..st },
        ),
    decreases fuel,
{
    let p = st.ptr as int;
    let c = st.mem[p];
    lemma_plus_reps(st, 256, fuel);
    assert((((c as int) + 256) % 256) == c as int);
    assert(st.mem.update(p, c) =~= st.mem);
    assert((StateV { mem: st.mem.update(p, (((c as int) + 256) % 256) as u8), ..st }) =~= st);
}

/// One evaluated node followed by the rest of the sequence.
proof fn lemma_eval_seq_cons(es: Seq<ExprS>, st: StateV, st2: StateV, fuel: nat)
    requires
        es.len() > 0,
        eval_expr(es[0], st, fuel) == EvalRes::Done(st2),
    ensures
        eval_seq(es, st, fuel) == eval_seq(es.skip(1), st2, fuel),
{
}

/// Round trip: executing `+` then `-` leaves the state unchanged, and so
/// does executing `>` then `<` (the pointer wraps within the same 0..256
/// range in both directions).
#[verifier::rlimit(100)]
pub proof fn lemma_round_trip(st: StateV, fuel: nat)
    requires
        st_wf(st),
    ensures
        eval_seq(seq![ExprS::Plus, ExprS::Minus], st, fuel) == EvalRes::Done(st),
        eval_seq(seq![ExprS::ShiftR, ExprS::ShiftL], st, fuel) == EvalRes::Done(st),
{
    let p = st.ptr as int;
    let c = st.mem[p];
    let st1 = StateV { mem: st.mem.update(p, inc8(c)), ..st };
    let s = seq![ExprS::Plus, ExprS::Minus];
    assert(s[0] == ExprS::Plus);
    assert(eval_expr(ExprS::Plus, st, fuel) == EvalRes::Done(st1));
    assert(s.skip(1) =~= seq![ExprS::Minus]);
    assert(seq![ExprS::Minus].skip(1) =~= Seq::<ExprS>::empty());
    let st1m = StateV { mem: st1.mem.update(p, dec8(st1.mem[p])), ..st1 };
    assert(st1.ptr == st.ptr);
    assert(st1.mem[p] == inc8(c));
    assert(eval_expr(ExprS::Minus, st1, fuel) == EvalRes::Done(st1m));
    lemma_eval_seq_cons(s, st, st1, fuel);
    assert(seq![ExprS::Minus][0] == ExprS::Minus);
    lemma_eval_seq_cons(seq![ExprS::Minus], st1, st1m, fuel);
    assert(eval_seq(s, st, fuel) == eval_seq(Seq::<ExprS>::empty(), st1m, fuel));
    lemma_mod_add256((c as int) + 1, 255);
    assert(dec8(inc8(c)) == c) by {
        assert((((c as int) + 256) % 256) == c as int);
    }
    assert(st1.mem.update(p, dec8(inc8(c))) =~= st.mem);
    assert(st1m =~= st);
    assert(eval_seq(s, st, fuel) == EvalRes::Done(st));
    let s2 = seq![ExprS::ShiftR, ExprS::ShiftL];
    assert(s2[0] == ExprS::ShiftR);
    assert(s2.skip(1) =~= seq![ExprS::ShiftL]);
    assert(seq![ExprS::ShiftL].skip(1) =~= Seq::<ExprS>::empty());
    lemma_mod_add256((st.ptr as int) + 1, 255);
    assert(ptr_left(ptr_right(st.ptr)) == st.ptr) by {
        assert((((st.ptr as int) + 256) % 256) == st.ptr as int);
    }
    let st2 = StateV { ptr: ptr_right(st.ptr), ..st };
    assert(eval_expr(ExprS::ShiftR, st, fuel) == EvalRes::Done(st2));
    let st3 = StateV { ptr: ptr_left(st2.ptr), ..st2 };
    assert(eval_expr(ExprS::ShiftL, st2, fuel) == EvalRes::Done(st3));
    lemma_eval_seq_cons(s2, st, st2, fuel);
    assert(seq![ExprS::ShiftL][0] == ExprS::ShiftL);
    lemma_eval_seq_cons(seq![ExprS::ShiftL], st2, st3, fuel);
    assert(eval_seq(s2, st, fuel) == eval_seq(Seq::<ExprS>::empty(), st3, fuel));
    assert(st3 =~= st);
    assert(eval_seq(s2, st, fuel) == EvalRes::Done(st));
}

/// Each node's size is bounded by its sequence's size.
pub proof fn lemma_exprs_size_index(es: Seq<ExprS>, i: int)
    requires
        0 <= i < es.len(),
    ensures
        expr_size(es[i]) <= exprs_size(es),
    decreases es,
{
    if i > 0 {
        lemma_exprs_size_index(es.skip(1), i - 1);
        assert(es.skip(1)[i - 1] == es[i]);
    }
}

} // verus!
