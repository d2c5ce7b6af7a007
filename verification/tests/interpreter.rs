use bf::ast::{Ast, Expr};
use bf::cursor::StructuralKind;
use bf::lexer::{default_rules, Lexer, Span, Tokens};
use bf::machine::{Machine, RunStatus};

fn lex(src: &str) -> Vec<bf::lexer::Token> {
    let bytes = src.as_bytes().to_vec();
    Lexer::build(default_rules()).tokenize(&bytes)
}

fn parse(src: &str) -> Result<Ast, bf::cursor::StructuralError> {
    let bytes = src.as_bytes().to_vec();
    let tokens = Lexer::build(default_rules()).tokenize(&bytes);
    let mut ast = Ast::new();
    ast.build(tokens, &bytes).map(|_| ast)
}

fn run(src: &str, input: Vec<u8>, fuel: u64) -> (Machine, RunStatus) {
    let ast = parse(src).expect("source should be well bracketed");
    let mut m = Machine::new(input);
    let st = ast.run(&mut m, fuel);
    (m, st)
}

fn kinds(src: &str) -> Vec<Tokens> {
    lex(src).iter().map(|t| t.kind).collect()
}

#[test]
fn span_basics() {
    let s = Span::new(2, 5);
    assert_eq!(s.len(), 3);
    assert_eq!(s.as_range(), 2..5);
}

#[test]
fn tokenize_instructions() {
    assert_eq!(
        kinds(".,[]+-><"),
        vec![
            Tokens::Dot,
            Tokens::Comma,
            Tokens::OpenSquare,
            Tokens::CloseSquare,
            Tokens::Plus,
            Tokens::Minus,
            Tokens::ShiftR,
            Tokens::ShiftL,
        ]
    );
}

#[test]
fn tokenize_comment_and_newline() {
    let toks = lex("ab \n+");
    assert_eq!(toks.len(), 3);
    assert_eq!(toks[0].kind, Tokens::Comment);
    assert_eq!((toks[0].span.start, toks[0].span.end), (0, 3));
    assert_eq!(toks[1].kind, Tokens::Newline);
    assert_eq!((toks[1].span.start, toks[1].span.end), (3, 4));
    assert_eq!(toks[2].kind, Tokens::Plus);
    assert_eq!((toks[2].span.start, toks[2].span.end), (4, 5));
}

#[test]
fn tokenize_crlf_runs_as_one_newline() {
    let toks = lex("\r\n\n");
    assert_eq!(toks.len(), 1);
    assert_eq!(toks[0].kind, Tokens::Newline);
    assert_eq!((toks[0].span.start, toks[0].span.end), (0, 3));
}

#[test]
fn tokenize_unknown_run() {
    let toks = lex("+!@+");
    assert_eq!(toks.len(), 3);
    assert_eq!(toks[0].kind, Tokens::Plus);
    assert_eq!(toks[1].kind, Tokens::Unknown);
    assert_eq!((toks[1].span.start, toks[1].span.end), (1, 3));
    assert_eq!(toks[2].kind, Tokens::Plus);
    assert_eq!((toks[2].span.start, toks[2].span.end), (3, 4));
}

#[test]
fn tokenize_spans_cover_input() {
    for src in ["", "+", "a b\r\nc[,.]!?-<>", "\rx", "!!!", "++[--]  \n\n"] {
        let toks = lex(src);
        let mut at = 0;
        for t in &toks {
            assert_eq!(t.span.start, at, "gap or overlap in {:?}", src);
            assert!(t.span.end > t.span.start);
            at = t.span.end;
        }
        assert_eq!(at, src.len(), "spans do not cover {:?}", src);
    }
}

#[test]
fn lexer_cursor_carries_across_calls() {
    let mut lexer = Lexer::build(default_rules());
    let a = lexer.tokenize(&b"+".to_vec());
    let b = lexer.tokenize(&b"-".to_vec());
    assert_eq!((a[0].span.start, a[0].span.end), (0, 1));
    assert_eq!((b[0].span.start, b[0].span.end), (1, 2));
}

#[test]
fn build_nests_loops_as_brackets() {
    let ast = parse("+[>[-]<].").expect("well bracketed");
    assert_eq!(
        ast.inner,
        vec![
            Expr::Plus,
            Expr::Loop(vec![
                Expr::ShiftR,
                Expr::Loop(vec![Expr::Minus]),
                Expr::ShiftL,
            ]),
            Expr::Dot,
        ]
    );
}

#[test]
fn build_keeps_top_level_comments_and_drops_loop_comments() {
    let ast = parse("a[b+]").expect("well bracketed");
    assert_eq!(
        ast.inner,
        vec![Expr::Comment(b"a".to_vec()), Expr::Loop(vec![Expr::Plus])]
    );
}

#[test]
fn build_keeps_newlines_as_comment_leaves() {
    let ast = parse("+\n-").expect("well bracketed");
    assert_eq!(
        ast.inner,
        vec![Expr::Plus, Expr::Comment(b"\n".to_vec()), Expr::Minus]
    );
    assert_eq!(ast.pos, (2, 2));
}

#[test]
fn build_rejects_extra_close() {
    let err = parse("]").expect_err("extra close must be rejected");
    assert_eq!(err.kind, StructuralKind::UnmatchedClose);
    assert_eq!(err.text, b"]".to_vec());
    assert_eq!((err.col, err.line), (1, 1));
}

#[test]
fn build_rejects_extra_close_on_later_line() {
    let err = parse("\n]").expect_err("extra close must be rejected");
    assert_eq!(err.kind, StructuralKind::UnmatchedClose);
    assert_eq!((err.col, err.line), (1, 2));
}

#[test]
fn build_rejects_unclosed_open() {
    let err = parse("[+").expect_err("unclosed open must be rejected");
    assert_eq!(err.kind, StructuralKind::UnmatchedOpen);
    assert_eq!(err.text, b"[".to_vec());
    assert_eq!((err.col, err.line), (1, 1));
}

#[test]
fn reject_close_happens_before_any_execution() {
    let bytes = b"]".to_vec();
    let tokens = Lexer::build(default_rules()).tokenize(&bytes);
    let mut ast = Ast::new();
    assert!(ast.build(tokens, &bytes).is_err());
    let m = Machine::new(Vec::new());
    assert!(m.output.is_empty());
}

#[test]
fn plus_two_then_dot_outputs_two() {
    let (m, st) = run("++.", Vec::new(), 10);
    assert_eq!(st, RunStatus::Done);
    assert_eq!(m.output, vec![2]);
}

#[test]
fn comma_then_dot_echoes_and_drains_queue() {
    let (m, st) = run(",.", vec![65], 10);
    assert_eq!(st, RunStatus::Done);
    assert_eq!(m.output, vec![65]);
    assert!(m.input.is_empty());
}

#[test]
fn clear_loop_terminates_and_zeroes_cell() {
    let ast = parse("[-]").expect("well bracketed");
    let mut m = Machine::new(Vec::new());
    m.memory[0] = 3;
    let st = ast.run(&mut m, 10);
    assert_eq!(st, RunStatus::Done);
    assert_eq!(m.memory[0], 0);
    assert!(m.output.is_empty());
}

#[test]
fn cell_arithmetic_wraps_modulo_256() {
    let src: String = std::iter::repeat('+').take(256).collect::<String>() + ".";
    let (m, st) = run(&src, Vec::new(), 10);
    assert_eq!(st, RunStatus::Done);
    assert_eq!(m.output, vec![0]);

    let (m2, st2) = run("-.", Vec::new(), 10);
    assert_eq!(st2, RunStatus::Done);
    assert_eq!(m2.output, vec![255]);
}

#[test]
fn plus_minus_and_shift_round_trips() {
    let (m, st) = run("+-.", Vec::new(), 10);
    assert_eq!(st, RunStatus::Done);
    assert_eq!(m.output, vec![0]);

    let (m2, st2) = run("><", Vec::new(), 10);
    assert_eq!(st2, RunStatus::Done);
    assert_eq!(m2.pointer, 0);
}

#[test]
fn pointer_wraps_within_256_cells() {
    let (m, st) = run("<+.", Vec::new(), 10);
    assert_eq!(st, RunStatus::Done);
    assert_eq!(m.pointer, 255);
    assert_eq!(m.memory[255], 1);
    assert_eq!(m.output, vec![1]);
}

#[test]
fn comma_on_empty_queue_halts_with_input_exhausted() {
    let (m, st) = run(".,.", Vec::new(), 10);
    assert_eq!(st, RunStatus::InputExhausted);
    assert_eq!(m.output, vec![0]);
}

#[test]
fn loop_iterations_fork_the_input_queue() {
    let (m, st) = run("++[,->]<.", vec![7, 9], 10);
    assert_eq!(st, RunStatus::Done);
    assert_eq!(m.input, vec![7, 9]);
    assert_eq!(m.output, vec![6]);
    assert_eq!(m.memory[1], 0);
}

#[test]
fn nonterminating_loop_runs_out_of_fuel() {
    let (_, st) = run("+[]", Vec::new(), 25);
    assert_eq!(st, RunStatus::OutOfFuel);
}

#[test]
fn fresh_machine_is_zeroed() {
    let m = Machine::new(vec![1, 2]);
    assert_eq!(m.memory.len(), 30000);
    assert!(m.memory.iter().all(|&b| b == 0));
    assert_eq!(m.pointer, 0);
    assert_eq!(m.input, vec![1, 2]);
    assert!(m.output.is_empty());
}
