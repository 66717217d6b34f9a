use vstd::prelude::*;
use crate::scanner::{commands, is_cmd, next_cmd, lemma_commands_advance, lemma_commands_skip, lemma_next_cmd_bounds, Tokenizer};

verus! {

/// The mathematical form of an instruction.
pub enum Op {
    Arith(int),
    Shift(int),
    Open(int),
    Close(int),
    Input,
    Output,
}

/// One compiled instruction.
#[derive(Clone, Copy, Debug, PartialEq, Eq, Structural)]
pub enum Instruction {
    /// Net change to the current cell.
    Arithmetic(isize),
    /// Net cursor move, positive to the right.
    Shift(isize),
    /// Jump to the target when the current cell is zero.
    LoopOpen(usize),
    /// Jump to the target when the current cell is not zero.
    LoopClose(usize),
    /// Read one byte into the current cell.
    Input,
    /// Write the current cell.
    Output,
}

impl View for Instruction {
    type V = Op;

    open spec fn view(&self) -> Op {
        match *self {
            Instruction::Arithmetic(n) => Op::Arith(n as int),
            Instruction::Shift(n) => Op::Shift(n as int),
            Instruction::LoopOpen(t) => Op::Open(t as int),
            Instruction::LoopClose(t) => Op::Close(t as int),
            Instruction::Input => Op::Input,
            Instruction::Output => Op::Output,
        }
    }
}

/// The mathematical form of a program.
pub open spec fn ops(p: Seq<Instruction>) -> Seq<Op> {
    p.map_values(|i: Instruction| i@)
}

/// Why a source text does not compile.
#[derive(Clone, Copy, Debug, PartialEq, Eq, Structural)]
pub enum CompileError {
    /// A `]` with no open `[` before it.
    UnmatchedClose,
}

/// The program so far and the positions of the loop openings still unmatched.
pub type Partial = (Seq<Op>, Seq<int>);

/// Adds a unit `d` of a countable instruction: merged into the last
/// instruction where that is of the same class, appended otherwise.
pub open spec fn merge(prog: Seq<Op>, arith: bool, d: int) -> Seq<Op> {
    if prog.len() > 0 && arith && prog.last() is Arith {
        prog.update(prog.len() - 1, Op::Arith(prog.last()->Arith_0 + d))
    } else if prog.len() > 0 && !arith && prog.last() is Shift {
        prog.update(prog.len() - 1, Op::Shift(prog.last()->Shift_0 + d))
    } else if arith {
        prog.push(Op::Arith(d))
    } else {
        prog.push(Op::Shift(d))
    }
}

/// The effect of one instruction symbol on a partial compilation; `None` once
/// a `]` found no open `[`.
pub open spec fn compile_step(st: Option<Partial>, c: char) -> Option<Partial> {
    match st {
        None => None,
        Some((prog, stack)) => {
            if c == '+' {
                Some((merge(prog, true, 1), stack))
            } else if c == '-' {
                Some((merge(prog, true, -1), stack))
            } else if c == '>' {
                Some((merge(prog, false, 1), stack))
            } else if c == '<' {
                Some((merge(prog, false, -1), stack))
            } else if c == '.' {
                Some((prog.push(Op::Output), stack))
            } else if c == ',' {
                Some((prog.push(Op::Input), stack))
            } else if c == '[' {
                Some((prog.push(Op::Open(0)), stack.push(prog.len() as int)))
            } else if c == ']' {
                if stack.len() == 0 {
                    None
                } else {
                    let p = stack.last();
                    Some(
                        (
                            prog.push(Op::Close(p)).update(p, Op::Open(prog.len() as int)),
                            stack.drop_last(),
                        ),
                    )
                }
            } else {
                Some((prog, stack))
            }
        },
    }
}

/// The partial compilation after the symbols `cmds`, read from the left.
pub open spec fn compile_cmds(cmds: Seq<char>) -> Option<Partial>
    decreases cmds.len(),
{
    if cmds.len() == 0 {
        Some((Seq::empty(), Seq::empty()))
    } else {
        compile_step(compile_cmds(cmds.drop_last()), cmds.last())
    }
}

/// The program that source text `s` compiles to, or `None` where a `]` is
/// unmatched. A `[` left unmatched keeps target 0.
pub open spec fn compiled(s: Seq<char>) -> Option<Seq<Op>> {
    match compile_cmds(commands(s)) {
        Some((prog, _)) => Some(prog),
        None => None,
    }
}

/// A stack of positions as integers.
pub open spec fn positions(v: Seq<usize>) -> Seq<int> {
    v.map_values(|x: usize| x as int)
}

/// The two symbols of a countable class: the one that counts up, then down.
pub open spec fn class_of(arith: bool) -> (char, char) {
    if arith {
        ('+', '-')
    } else {
        ('>', '<')
    }
}

/// Whether the instruction is of the countable class `arith` names.
pub open spec fn same_class(i: Instruction, arith: bool) -> bool {
    if arith {
        i is Arithmetic
    } else {
        i is Shift
    }
}

/// The countable instruction of class `arith` with delta `d`.
pub open spec fn counted(arith: bool, d: int) -> Op {
    if arith {
        Op::Arith(d)
    } else {
        Op::Shift(d)
    }
}

/// Whether `c` belongs to the countable class `arith` names.
pub open spec fn in_class(c: char, arith: bool) -> bool {
    c == class_of(arith).0 || c == class_of(arith).1
}

/// Symbols read so far by a scanner.
pub open spec fn consumed(t: Tokenizer) -> Seq<char> {
    commands(t.text().subrange(0, t.pos()))
}

/// Reads a run of symbols of one countable class, starting at the scanner's
/// current symbol (worth `value`), and appends one instruction with the net
/// count of the run.
fn helper(
    tokenizer: &mut Tokenizer,
    tokens: &mut Vec<Instruction>,
    arith: bool,
    value: isize,
    Ghost(stack): Ghost<Seq<int>>,
)
    requires
        old(tokenizer).wf(),
        old(tokenizer).text().len() <= isize::MAX,
        old(tokenizer).current() is Some,
        in_class(old(tokenizer).current()->Some_0, arith),
        value == (if old(tokenizer).current()->Some_0 == class_of(arith).0 { 1int } else { -1int }),
        !(old(tokens)@.len() > 0 && same_class(old(tokens)@.last(), arith)),
        compile_cmds(consumed(*old(tokenizer))) == Some((ops(old(tokens)@), stack)),
    ensures
        final(tokenizer).wf(),
        final(tokenizer).text() == old(tokenizer).text(),
        final(tokenizer).pos() > old(tokenizer).pos(),
        final(tokens)@.len() == old(tokens)@.len() + 1,
        final(tokens)@.subrange(0, old(tokens)@.len() as int) == old(tokens)@,
        same_class(final(tokens)@.last(), arith),
        !(final(tokenizer).current() is Some && in_class(final(tokenizer).current()->Some_0, arith)),
        compile_cmds(consumed(*final(tokenizer))) == Some((ops(final(tokens)@), stack)),
{
    let ghost s = tokenizer.text();
    let ghost start = tokenizer.pos();
    let (a, b) = if arith { ('+', '-') } else { ('>', '<') };
    proof {
        lemma_commands_advance(s, start);
        lemma_next_cmd_bounds(s, start + 1);
        let prev = consumed(*tokenizer);
        assert(prev.push(s[start]).drop_last() =~= prev);
        assert(ops(tokens@).push(counted(arith, value as int)) =~= merge(ops(tokens@), arith, value as int));
    }
    let mut d: isize = value;
    let mut cur = tokenizer.next();
    loop
        invariant
            tokenizer.wf(),
            tokenizer.text() == s,
            s.len() <= isize::MAX,
            tokenizer.pos() > start,
            tokens@ == old(tokens)@,
            a == class_of(arith).0,
            b == class_of(arith).1,
            cur == tokenizer.current(),
            -tokenizer.pos() <= d <= tokenizer.pos(),
            compile_cmds(consumed(*tokenizer)) == Some(
                (ops(tokens@).push(counted(arith, d as int)), stack),
            ),
        ensures
            tokenizer.wf(),
            tokenizer.text() == s,
            tokenizer.pos() > start,
            tokens@ == old(tokens)@,
            !(tokenizer.current() is Some && in_class(tokenizer.current()->Some_0, arith)),
            compile_cmds(consumed(*tokenizer)) == Some(
                (ops(tokens@).push(counted(arith, d as int)), stack),
            ),
        decreases s.len() - tokenizer.pos(),
    {
        match cur {
            None => {
                break;
            },
            Some(c) => {
                if c != a && c != b {
                    break;
                }
                let ghost p = tokenizer.pos();
                let ghost before = consumed(*tokenizer);
                let ghost d0 = d as int;
                if c == a {
                    d = d + 1;
                } else {
                    d = d - 1;
                }
                proof {
                    lemma_commands_advance(s, p);
                    lemma_next_cmd_bounds(s, p + 1);
                    assert(before.push(c).drop_last() =~= before);
                    assert(merge(ops(tokens@).push(counted(arith, d0)), arith, d as int - d0)
                        =~= ops(tokens@).push(counted(arith, d as int)));
                }
                cur = tokenizer.next();
            },
        }
    }
    let t = if arith { Instruction::Arithmetic(d) } else { Instruction::Shift(d) };
    let ghost t0 = tokens@;
    tokens.push(t);
    proof {
        assert(ops(tokens@) =~= ops(t0).push(counted(arith, d as int)));
        assert(tokens@.subrange(0, t0.len() as int) =~= t0);
    }
}

/// Once a prefix of the symbols fails to compile, so does the whole.
pub proof fn lemma_failure_persists(cmds: Seq<char>, k: int)
    requires
        0 <= k <= cmds.len(),
        compile_cmds(cmds.subrange(0, k)) is None,
    ensures
        compile_cmds(cmds) is None,
    decreases cmds.len(),
{
    if k < cmds.len() {
        assert(cmds.drop_last().subrange(0, k) =~= cmds.subrange(0, k));
        lemma_failure_persists(cmds.drop_last(), k);
    } else {
        assert(cmds.subrange(0, k) =~= cmds);
    }
}

/// A `]` at position `p` that finds the stack empty makes the text fail.
proof fn lemma_unmatched_close_fails(s: Seq<char>, p: int)
    requires
        0 <= p < s.len(),
        s[p] == ']',
        compile_cmds(commands(s.subrange(0, p))) matches Some((_, st)) && st.len() == 0,
    ensures
        compiled(s) is None,
{
    let j = next_cmd(s, p + 1);
    lemma_commands_advance(s, p);
    lemma_next_cmd_bounds(s, p + 1);
    let pre = commands(s.subrange(0, j));
    assert(pre.drop_last() =~= commands(s.subrange(0, p)));
    assert(s =~= s.subrange(0, j) + s.subrange(j, s.len() as int));
    Seq::filter_distributes_over_add(s.subrange(0, j), s.subrange(j, s.len() as int), crate::scanner::cmd_pred());
    assert(commands(s).subrange(0, pre.len() as int) =~= pre);
    lemma_failure_persists(commands(s), pre.len() as int);
}

/// Compiles `source`: drops every character outside the instruction symbols,
/// merges runs of `+`/`-` and of `>`/`<` into counted instructions, and points
/// each `[` at its matching `]` and each `]` back at its `[`. Fails on a `]`
/// with no open `[`.
pub fn compile(source: String) -> (r: Result<Vec<Instruction>, CompileError>)
    requires
        source@.len() <= isize::MAX,
    ensures
        match compiled(source@) {
            Some(prog) => r is Ok && ops(r->Ok_0@) == prog,
            None => r == Err::<Vec<Instruction>, CompileError>(CompileError::UnmatchedClose),
        },
{
    let ghost s = source@;
    let mut tokenizer = Tokenizer::new(source);
    let mut tokens: Vec<Instruction> = Vec::new();
    let mut stack: Vec<usize> = Vec::new();
    proof {
        lemma_commands_skip(s, 0);
        assert(s.subrange(0, 0) =~= Seq::<char>::empty());
        reveal(Seq::filter);
        assert(ops(tokens@) =~= Seq::<Op>::empty());
        assert(positions(stack@) =~= Seq::<int>::empty());
    }
    loop
        invariant
            tokenizer.wf(),
            tokenizer.text() == s,
            s == source@,
            s.len() <= isize::MAX,
            compile_cmds(consumed(tokenizer)) == Some((ops(tokens@), positions(stack@))),
            forall|k: int| 0 <= k < stack@.len() ==> #[trigger] stack@[k] < tokens@.len(),
            tokenizer.current() is Some && in_class(tokenizer.current()->Some_0, true)
                ==> !(tokens@.len() > 0 && same_class(tokens@.last(), true)),
            tokenizer.current() is Some && in_class(tokenizer.current()->Some_0, false)
                ==> !(tokens@.len() > 0 && same_class(tokens@.last(), false)),
        ensures
            tokenizer.pos() == s.len(),
            compile_cmds(consumed(tokenizer)) == Some((ops(tokens@), positions(stack@))),
        decreases s.len() - tokenizer.pos(),
    {
        let ghost p = tokenizer.pos();
        let ghost before = consumed(tokenizer);
        let ghost t0 = tokens@;
        let ghost st0 = stack@;
        match tokenizer.get() {
            None => {
                break;
            },
            Some(c) => {
                proof {
                    lemma_commands_advance(s, p);
                    lemma_next_cmd_bounds(s, p + 1);
                    assert(before.push(c).drop_last() =~= before);
                }
                if c == '+' {
                    helper(&mut tokenizer, &mut tokens, true, 1, Ghost(positions(stack@)));
                } else if c == '-' {
                    helper(&mut tokenizer, &mut tokens, true, -1, Ghost(positions(stack@)));
                } else if c == '>' {
                    helper(&mut tokenizer, &mut tokens, false, 1, Ghost(positions(stack@)));
                } else if c == '<' {
                    helper(&mut tokenizer, &mut tokens, false, -1, Ghost(positions(stack@)));
                } else if c == '.' {
                    tokens.push(Instruction::Output);
                    tokenizer.next();
                    assert(ops(tokens@) =~= ops(t0).push(Op::Output));
                } else if c == ',' {
                    tokens.push(Instruction::Input);
                    tokenizer.next();
                    assert(ops(tokens@) =~= ops(t0).push(Op::Input));
                } else if c == '[' {
                    let len = tokens.len();
                    tokens.push(Instruction::LoopOpen(0));
                    stack.push(len);
                    tokenizer.next();
                    assert(ops(tokens@) =~= ops(t0).push(Op::Open(0)));
                    assert(positions(stack@) =~= positions(st0).push(len as int));
                } else {
                    if stack.len() == 0 {
                        proof {
                            lemma_unmatched_close_fails(s, p);
                        }
                        return Err(CompileError::UnmatchedClose);
                    }
                    let i = stack.pop().unwrap();
                    let after = tokens.len();
                    tokens.push(Instruction::LoopClose(i));
                    tokens.set(i, Instruction::LoopOpen(after));
                    tokenizer.next();
                    assert(ops(tokens@) =~= ops(t0).push(Op::Close(i as int)).update(
                        i as int,
                        Op::Open(after as int),
                    ));
                    assert(positions(stack@) =~= positions(st0).drop_last());
                }
                proof {
                    assert forall|k: int| 0 <= k < stack@.len() implies #[trigger] stack@[k]
                        < tokens@.len() by {
                        if k < st0.len() {
                            assert(stack@[k] == st0[k]);
                        }
                    }
                }
            },
        }
    }
    assert(tokenizer.text().subrange(0, tokenizer.pos()) =~= s);
    Ok(tokens)
}

} // verus!
