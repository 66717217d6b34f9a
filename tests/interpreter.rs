use brainf::compiler::{compile, CompileError, Instruction};
use brainf::engine::{input_byte, Event, Machine};
use brainf::scanner::{is_command, Tokenizer};
use brainf::tape::{Tape, TAPE_LEN};

/// Runs `prog` on a fresh machine, feeding it the lines in `input`, for at
/// most `limit` steps; returns what it wrote and the event it stopped on.
fn run(prog: &Vec<Instruction>, input: &[&str], limit: usize) -> (Vec<u8>, Event) {
    let mut m = Machine::new();
    let mut out = Vec::new();
    let mut lines = input.iter();
    for _ in 0..limit {
        match m.step(prog) {
            Event::Continue => {}
            Event::Output(b) => out.push(b),
            Event::NeedInput => {
                let line = lines.next().expect("input exhausted");
                let b = input_byte(line).expect("empty input line");
                if let Event::Overrun = m.supply_input(prog, b) {
                    return (out, Event::Overrun);
                }
            }
            e => return (out, e),
        }
    }
    panic!("step limit reached");
}

fn compile_str(s: &str) -> Result<Vec<Instruction>, CompileError> {
    compile(s.to_string())
}

#[test]
fn hello_world_prints_greeting() {
    let src = "++++++++[>++++[>++>+++>+++>+<<<<-]>+>+>->>+[<]<-]>>.>---.+++++++..+++.";
    let prog = compile_str(src).unwrap();
    let (out, e) = run(&prog, &[], 100_000);
    assert_eq!(e, Event::Halted);
    assert_eq!(String::from_utf8(out).unwrap(), "Hello");
}

#[test]
fn hello_world_full_program() {
    let src = "++++++++[>++++[>++>+++>+++>+<<<<-]>+>+>->>+[<]<-]>>.>---.+++++++..+++.>>.<-.<.+++.------.--------.>>+.";
    let prog = compile_str(src).unwrap();
    let (out, e) = run(&prog, &[], 100_000);
    assert_eq!(e, Event::Halted);
    assert_eq!(String::from_utf8(out).unwrap(), "Hello World!");
}

#[test]
fn echo_reads_one_byte() {
    let prog = compile_str(",.").unwrap();
    assert_eq!(prog, vec![Instruction::Input, Instruction::Output]);
    let (out, e) = run(&prog, &["A\n"], 100);
    assert_eq!(e, Event::Halted);
    assert_eq!(out, vec![b'A']);
}

#[test]
fn unmatched_close_is_rejected() {
    assert_eq!(compile_str("]"), Err(CompileError::UnmatchedClose));
    assert_eq!(compile_str("+[-]]."), Err(CompileError::UnmatchedClose));
}

#[test]
fn unmatched_open_is_not_detected() {
    let prog = compile_str("+[").unwrap();
    assert_eq!(prog, vec![Instruction::Arithmetic(1), Instruction::LoopOpen(0)]);
}

#[test]
fn left_shift_clamps_at_zero() {
    let prog = compile_str("<").unwrap();
    let mut m = Machine::new();
    assert_eq!(m.step(&prog), Event::Continue);
    assert_eq!(m.tape().position(), 0);
    let mut t = Tape::new();
    t.rs(3);
    t.ls(10);
    assert_eq!(t.position(), 0);
}

#[test]
fn shifting_past_the_tape_aborts_on_access() {
    let src = ">".repeat(TAPE_LEN) + "+";
    let prog = compile_str(&src).unwrap();
    assert_eq!(prog, vec![Instruction::Shift(TAPE_LEN as isize), Instruction::Arithmetic(1)]);
    let (_, e) = run(&prog, &[], 10);
    assert_eq!(e, Event::Overrun);
    let src = ">".repeat(TAPE_LEN - 1) + "+.";
    let prog = compile_str(&src).unwrap();
    let (out, e) = run(&prog, &[], 10);
    assert_eq!(e, Event::Halted);
    assert_eq!(out, vec![1]);
}

#[test]
fn prose_between_symbols_is_ignored() {
    let plain = "+[->+<]>.";
    let prose = "add one + then [loop: - move > add + back <] go > and print .\n";
    assert_eq!(compile_str(prose), compile_str(plain));
    assert_eq!(compile_str("hello\n+x"), Ok(vec![Instruction::Arithmetic(1)]));
}

#[test]
fn runs_merge_into_net_counts() {
    assert_eq!(compile_str("+++-+"), Ok(vec![Instruction::Arithmetic(3)]));
    assert_eq!(compile_str("<<><<"), Ok(vec![Instruction::Shift(-3)]));
    assert_eq!(compile_str("+-"), Ok(vec![Instruction::Arithmetic(0)]));
    assert_eq!(
        compile_str("++.++"),
        Ok(vec![Instruction::Arithmetic(2), Instruction::Output, Instruction::Arithmetic(2)])
    );
    assert_eq!(
        compile_str("+>-<"),
        Ok(vec![
            Instruction::Arithmetic(1),
            Instruction::Shift(1),
            Instruction::Arithmetic(-1),
            Instruction::Shift(-1),
        ])
    );
    assert_eq!(compile_str("++\n+"), Ok(vec![Instruction::Arithmetic(3)]));
}

#[test]
fn brackets_point_at_each_other() {
    let prog = compile_str("+[>[-]<-]").unwrap();
    assert_eq!(
        prog,
        vec![
            Instruction::Arithmetic(1),
            Instruction::LoopOpen(8),
            Instruction::Shift(1),
            Instruction::LoopOpen(5),
            Instruction::Arithmetic(-1),
            Instruction::LoopClose(3),
            Instruction::Shift(-1),
            Instruction::Arithmetic(-1),
            Instruction::LoopClose(1),
        ]
    );
}

#[test]
fn skipped_loop_lands_past_its_close() {
    let prog = compile_str("[+]+").unwrap();
    let mut m = Machine::new();
    assert_eq!(m.step(&prog), Event::Continue);
    assert_eq!(m.ip(), 3);
}

#[test]
fn clear_loop_on_zero_cell_is_a_no_op() {
    let with_loop = compile_str("[-]++.").unwrap();
    let without = compile_str("++.").unwrap();
    let (a, ea) = run(&with_loop, &[], 100);
    let (b, eb) = run(&without, &[], 100);
    assert_eq!(a, b);
    assert_eq!(ea, eb);
    assert_eq!(a, vec![2]);
}

#[test]
fn cell_arithmetic_wraps() {
    let prog = compile_str("-.+.").unwrap();
    let (out, _) = run(&prog, &[], 100);
    assert_eq!(out, vec![255, 0]);
    let mut big = "+".repeat(300);
    big.push('.');
    let (out, _) = run(&compile_str(&big).unwrap(), &[], 100);
    assert_eq!(out, vec![44]);
    let mut neg = "-".repeat(513);
    neg.push('.');
    let (out, _) = run(&compile_str(&neg).unwrap(), &[], 100);
    assert_eq!(out, vec![255]);
}

#[test]
fn tape_operations() {
    let mut t = Tape::new();
    assert_eq!(t.get(), 0);
    t.sub(1);
    assert_eq!(t.get(), 255);
    t.add(1);
    assert_eq!(t.get(), 0);
    t.add(250);
    t.add(10);
    assert_eq!(t.get(), 4);
    t.write(77);
    assert_eq!(t.get(), 77);
    t.rs(2);
    assert_eq!(t.position(), 2);
    assert_eq!(t.get(), 0);
    t.ls(2);
    assert_eq!(t.get(), 77);
    t.rs(TAPE_LEN);
    assert!(!t.is_in_bounds());
}

#[test]
fn tokenizer_walks_symbols_only() {
    let mut t = Tokenizer::new("ab+ c\n[x".to_string());
    assert_eq!(t.get(), Some('+'));
    assert_eq!(t.next(), Some('['));
    assert_eq!(t.next(), None);
    assert_eq!(t.next(), None);
    let t = Tokenizer::new("no symbols".to_string());
    assert_eq!(t.get(), None);
    let t = Tokenizer::new(String::new());
    assert_eq!(t.get(), None);
    assert!(is_command('.'));
    assert!(!is_command('a'));
}

#[test]
fn input_line_to_byte() {
    assert_eq!(input_byte("A\n"), Some(65));
    assert_eq!(input_byte("\n"), Some(10));
    assert_eq!(input_byte(""), None);
    assert_eq!(input_byte("é"), Some(0xe9));
}

#[test]
fn empty_program_halts_at_once() {
    let prog = compile_str("").unwrap();
    assert!(prog.is_empty());
    let mut m = Machine::new();
    assert_eq!(m.step(&prog), Event::Halted);
}
