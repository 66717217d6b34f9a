use vstd::prelude::*;
use crate::compiler::{Op, Partial, compile_cmds, compile_step, compiled, counted, class_of, in_class, merge};
use crate::engine::resume_at;
use crate::engine::{Config, Event, cell, cursor_ok, step_spec};
use crate::scanner::{cmd_pred, commands, is_cmd};

verus! {

/// Characters outside the instruction symbols are ignored: inserting any text
/// free of instruction symbols between two pieces of a source text leaves
/// what it compiles to unchanged.
pub proof fn lemma_prose_ignored(a: Seq<char>, prose: Seq<char>, b: Seq<char>)
    requires
        forall|k: int| 0 <= k < prose.len() ==> !is_cmd(#[trigger] prose[k]),
    ensures
        compiled(a + prose + b) == compiled(a + b),
{
    Seq::filter_distributes_over_add(a + prose, b, cmd_pred());
    Seq::filter_distributes_over_add(a, prose, cmd_pred());
    Seq::filter_distributes_over_add(a, b, cmd_pred());
    assert(prose.all(|x: char| !cmd_pred()(x)));
    prose.lemma_all_neg_filter_empty(cmd_pred());
    assert(commands(a) + commands(prose) =~= commands(a));
}

/// How many times `c` occurs in `s`.
pub open spec fn occurrences(s: Seq<char>, c: char) -> int
    decreases s.len(),
{
    if s.len() == 0 {
        0
    } else {
        occurrences(s.drop_last(), c) + if s.last() == c { 1int } else { 0int }
    }
}

/// Run-merging is lossless: a non-empty text made only of `+` and `-` (or
/// only of `>` and `<`) compiles to one counted instruction whose delta is
/// the number of increasing symbols minus the number of decreasing ones.
pub proof fn lemma_run_merging(s: Seq<char>, arith: bool)
    requires
        s.len() > 0,
        forall|k: int| 0 <= k < s.len() ==> in_class(#[trigger] s[k], arith),
    ensures
        compiled(s) == Some(
            seq![counted(arith, occurrences(s, class_of(arith).0) - occurrences(s, class_of(arith).1))],
        ),
    decreases s.len(),
{
    lemma_all_commands(s, arith);
    lemma_run_compiles(s, arith);
}

proof fn lemma_all_commands(s: Seq<char>, arith: bool)
    requires
        forall|k: int| 0 <= k < s.len() ==> in_class(#[trigger] s[k], arith),
    ensures
        commands(s) == s,
    decreases s.len(),
{
    if s.len() > 0 {
        let t = s.drop_last();
        assert forall|k: int| 0 <= k < t.len() implies in_class(#[trigger] t[k], arith) by {
            assert(t[k] == s[k]);
        }
        lemma_all_commands(t, arith);
        t.lemma_filter_push(s.last(), cmd_pred());
        assert(t.push(s.last()) =~= s);
    } else {
        reveal(Seq::filter);
    }
}

proof fn lemma_run_compiles(s: Seq<char>, arith: bool)
    requires
        s.len() > 0,
        forall|k: int| 0 <= k < s.len() ==> in_class(#[trigger] s[k], arith),
    ensures
        compile_cmds(s) == Some(
            (
                seq![counted(arith, occurrences(s, class_of(arith).0) - occurrences(s, class_of(arith).1))],
                Seq::<int>::empty(),
            ),
        ),
    decreases s.len(),
{
    let t = s.drop_last();
    assert(in_class(s[s.len() - 1], arith));
    if t.len() > 0 {
        assert forall|k: int| 0 <= k < t.len() implies in_class(#[trigger] t[k], arith) by {
            assert(t[k] == s[k]);
        }
        lemma_run_compiles(t, arith);
        let d = occurrences(t, class_of(arith).0) - occurrences(t, class_of(arith).1);
        assert(seq![counted(arith, d)].last() == counted(arith, d));
        assert(seq![counted(arith, d)].update(0, counted(arith, occurrences(s, class_of(arith).0) - occurrences(s, class_of(arith).1)))
            =~= seq![counted(arith, occurrences(s, class_of(arith).0) - occurrences(s, class_of(arith).1))]);
    } else {
        assert(Seq::<Op>::empty().push(counted(arith, occurrences(s, class_of(arith).0) - occurrences(s, class_of(arith).1)))
            =~= seq![counted(arith, occurrences(s, class_of(arith).0) - occurrences(s, class_of(arith).1))]);
    }
}

/// Cell arithmetic wraps at 256: adding 1 to a cell holding 255 gives 0, and
/// subtracting 1 from a cell holding 0 gives 255.
pub proof fn lemma_wraparound(prog: Seq<Op>, c: Config)
    requires
        0 <= c.ip < prog.len(),
        cursor_ok(c),
        c.cells.len() == crate::tape::TAPE_LEN,
    ensures
        prog[c.ip] == Op::Arith(1) && cell(c) == 255 ==> cell(step_spec(prog, c).0) == 0,
        prog[c.ip] == Op::Arith(-1) && cell(c) == 0 ==> cell(step_spec(prog, c).0) == 255,
{
}

/// The bracket structure of a partial compilation: each pending opening is
/// still `Open(0)`, pending positions increase, every other opening points at
/// its closing after it, and every closing points back at its opening.
pub open spec fn brackets_paired(prog: Seq<Op>, stack: Seq<int>) -> bool {
    &&& forall|k: int|
        0 <= k < stack.len() ==> 0 <= #[trigger] stack[k] < prog.len() && prog[stack[k]] == Op::Open(0)
    &&& forall|k: int, l: int| 0 <= k < l < stack.len() ==> #[trigger] stack[k] < #[trigger] stack[l]
    &&& forall|p: int|
        0 <= p < prog.len() && #[trigger] prog[p] is Open && !stack.contains(p) ==> {
            &&& p < prog[p]->Open_0 < prog.len()
            &&& prog[prog[p]->Open_0] == Op::Close(p)
        }
    &&& forall|c: int|
        0 <= c < prog.len() && #[trigger] prog[c] is Close ==> {
            &&& 0 <= prog[c]->Close_0 < c
            &&& prog[prog[c]->Close_0] == Op::Open(c)
        }
}

proof fn lemma_step_pairs(st: Partial, ch: char)
    requires
        brackets_paired(st.0, st.1),
        compile_step(Some(st), ch) is Some,
    ensures
        brackets_paired(compile_step(Some(st), ch)->Some_0.0, compile_step(Some(st), ch)->Some_0.1),
{
    let (prog, stack) = st;
    let (np, ns) = compile_step(Some(st), ch)->Some_0;
    let n = prog.len() as int;
    if ch == '+' || ch == '-' || ch == '>' || ch == '<' {
        assert(ns == stack);
        assert forall|p: int| 0 <= p < np.len() && !(#[trigger] np[p] is Arith) && !(np[p] is Shift)
            implies p < n && np[p] == prog[p] by {}
        assert forall|k: int| 0 <= k < ns.len() implies 0 <= #[trigger] ns[k] < np.len() && np[ns[k]] == Op::Open(0) by {
            assert(prog[stack[k]] == Op::Open(0));
        }
        assert forall|p: int| 0 <= p < np.len() && #[trigger] np[p] is Open && !ns.contains(p) implies
            p < np[p]->Open_0 < np.len() && np[np[p]->Open_0] == Op::Close(p) by {
            assert(prog[p] is Open);
            assert(prog[prog[p]->Open_0] == Op::Close(p));
        }
        assert forall|c: int| 0 <= c < np.len() && #[trigger] np[c] is Close implies
            0 <= np[c]->Close_0 < c && np[np[c]->Close_0] == Op::Open(c) by {
            assert(prog[c] is Close);
            assert(prog[prog[c]->Close_0] == Op::Open(c));
        }
    } else if ch == '.' || ch == ',' {
        assert forall|k: int| 0 <= k < ns.len() implies 0 <= #[trigger] ns[k] < np.len() && np[ns[k]] == Op::Open(0) by {
            assert(prog[stack[k]] == Op::Open(0));
        }
        assert forall|p: int| 0 <= p < np.len() && #[trigger] np[p] is Open && !ns.contains(p) implies
            p < np[p]->Open_0 < np.len() && np[np[p]->Open_0] == Op::Close(p) by {
            assert(prog[p] is Open);
            assert(prog[prog[p]->Open_0] == Op::Close(p));
        }
        assert forall|c: int| 0 <= c < np.len() && #[trigger] np[c] is Close implies
            0 <= np[c]->Close_0 < c && np[np[c]->Close_0] == Op::Open(c) by {
            assert(prog[c] is Close);
            assert(prog[prog[c]->Close_0] == Op::Open(c));
        }
    } else if ch == '[' {
        assert forall|k: int| 0 <= k < ns.len() implies 0 <= #[trigger] ns[k] < np.len() && np[ns[k]] == Op::Open(0) by {
            if k < stack.len() {
                assert(prog[stack[k]] == Op::Open(0));
            }
        }
        assert forall|k: int, l: int| 0 <= k < l < ns.len() implies #[trigger] ns[k] < #[trigger] ns[l] by {
            assert(0 <= stack[k] < n);
        }
        assert forall|p: int| 0 <= p < np.len() && #[trigger] np[p] is Open && !ns.contains(p) implies
            p < np[p]->Open_0 < np.len() && np[np[p]->Open_0] == Op::Close(p) by {
            if p == n {
                assert(ns[ns.len() - 1] == p);
            }
            assert(prog[p] is Open);
            assert forall|k: int| 0 <= k < stack.len() implies stack[k] != p by {
                assert(ns[k] == stack[k]);
            }
            assert(prog[prog[p]->Open_0] == Op::Close(p));
        }
        assert forall|c: int| 0 <= c < np.len() && #[trigger] np[c] is Close implies
            0 <= np[c]->Close_0 < c && np[np[c]->Close_0] == Op::Open(c) by {
            assert(prog[c] is Close);
            assert(prog[prog[c]->Close_0] == Op::Open(c));
        }
    } else if ch == ']' {
        let top = stack.last();
        let m = stack.len() - 1;
        assert(stack[m] == top);
        assert(prog[top] == Op::Open(0));
        assert forall|k: int| 0 <= k < ns.len() implies 0 <= #[trigger] ns[k] < np.len() && np[ns[k]] == Op::Open(0) by {
            assert(ns[k] == stack[k]);
            assert(stack[k] < stack[m]);
            assert(prog[stack[k]] == Op::Open(0));
        }
        assert forall|k: int, l: int| 0 <= k < l < ns.len() implies #[trigger] ns[k] < #[trigger] ns[l] by {
            assert(ns[k] == stack[k]);
            assert(ns[l] == stack[l]);
        }
        assert(!ns.contains(top)) by {
            assert forall|k: int| 0 <= k < ns.len() implies ns[k] != top by {
                assert(ns[k] == stack[k]);
                assert(stack[k] < stack[m]);
            }
        }
        assert forall|p: int| 0 <= p < np.len() && #[trigger] np[p] is Open && !ns.contains(p) implies
            p < np[p]->Open_0 < np.len() && np[np[p]->Open_0] == Op::Close(p) by {
            if p != top {
                assert(p < n);
                assert(prog[p] is Open);
                assert(!stack.contains(p)) by {
                    if stack.contains(p) {
                        let k = choose|k: int| 0 <= k < stack.len() && stack[k] == p;
                        assert(k != m);
                        assert(ns[k] == stack[k]);
                    }
                }
                let t = prog[p]->Open_0;
                assert(prog[t] == Op::Close(p));
                assert(t != top);
            }
        }
        assert forall|c: int| 0 <= c < np.len() && #[trigger] np[c] is Close implies
            0 <= np[c]->Close_0 < c && np[np[c]->Close_0] == Op::Open(c) by {
            if c != n {
                assert(c != top);
                assert(prog[c] is Close);
                let q = prog[c]->Close_0;
                assert(prog[q] == Op::Open(c));
                assert(q != top);
            }
        }
    } else {
    }
}

/// Every partial compilation keeps its brackets paired.
pub proof fn lemma_compile_pairs(cmds: Seq<char>)
    requires
        compile_cmds(cmds) is Some,
    ensures
        brackets_paired(compile_cmds(cmds)->Some_0.0, compile_cmds(cmds)->Some_0.1),
    decreases cmds.len(),
{
    if cmds.len() > 0 {
        assert(compile_cmds(cmds.drop_last()) is Some);
        lemma_compile_pairs(cmds.drop_last());
        lemma_step_pairs(compile_cmds(cmds.drop_last())->Some_0, cmds.last());
    }
}

/// Bracket resolution round-trip: in a text whose brackets all match, the
/// opening at `p` targets its closing at `t > p`, which targets `p` back; a
/// jump taken at the opening lands one past the closing, and one taken at the
/// closing lands on the first instruction of the body.
pub proof fn lemma_bracket_round_trip(s: Seq<char>, p: int, c: Config)
    requires
        compile_cmds(commands(s)) matches Some((prog, stack)) && stack.len() == 0,
        0 <= p < compiled(s)->Some_0.len(),
        compiled(s)->Some_0[p] is Open,
        c.ip == p,
        cursor_ok(c),
        c.cells.len() == crate::tape::TAPE_LEN,
    ensures
        ({
            let prog = compiled(s)->Some_0;
            let t = prog[p]->Open_0;
            &&& p < t < prog.len()
            &&& prog[t] == Op::Close(p)
            &&& cell(c) == 0 ==> step_spec(prog, c).0.ip == t + 1
            &&& cell(c) != 0 ==> step_spec(prog, Config { ip: t, ..c }).0.ip == p + 1
        }),
{
    lemma_compile_pairs(commands(s));
    let prog = compiled(s)->Some_0;
    assert(prog[p] is Open);
}

/// `o` with its jump target moved by `d`; a target of 0 is a pending opening
/// and stays as it is.
pub open spec fn reloc(o: Op, d: int) -> Op {
    match o {
        Op::Open(t) => if t == 0 {
            Op::Open(0)
        } else {
            Op::Open(t + d)
        },
        Op::Close(t) => Op::Close(t + d),
        _ => o,
    }
}

/// `prog` placed `d` instructions further on.
pub open spec fn relocate(prog: Seq<Op>, d: int) -> Seq<Op> {
    prog.map_values(|o: Op| reloc(o, d))
}

/// What `[-]` compiles to.
pub open spec fn clear_loop() -> Seq<Op> {
    seq![Op::Open(2), Op::Arith(-1), Op::Close(0)]
}

/// A partial compilation placed after `[-]`.
pub open spec fn after_clear_loop(st: Option<Partial>) -> Option<Partial> {
    match st {
        None => None,
        Some((prog, stack)) => Some((clear_loop() + relocate(prog, 3), stack.map_values(|k: int| k + 3))),
    }
}

proof fn lemma_relocated_step(st: Option<Partial>, ch: char)
    requires
        st matches Some((prog, stack)) ==> brackets_paired(prog, stack),
    ensures
        compile_step(after_clear_loop(st), ch) == after_clear_loop(compile_step(st, ch)),
{
    match st {
        None => {},
        Some((prog, stack)) => {
            let big = clear_loop() + relocate(prog, 3);
            let bs = stack.map_values(|k: int| k + 3);
            let n = prog.len() as int;
            assert(big.len() == n + 3);
            if ch == '+' || ch == '-' || ch == '>' || ch == '<' {
                let arith = ch == '+' || ch == '-';
                let d: int = if ch == '+' || ch == '>' { 1 } else { -1 };
                if n > 0 {
                    assert(big.last() == reloc(prog.last(), 3));
                }
                assert(merge(big, arith, d) =~= clear_loop() + relocate(merge(prog, arith, d), 3));
            } else if ch == '.' {
                assert(big.push(Op::Output) =~= clear_loop() + relocate(prog.push(Op::Output), 3));
            } else if ch == ',' {
                assert(big.push(Op::Input) =~= clear_loop() + relocate(prog.push(Op::Input), 3));
            } else if ch == '[' {
                assert(big.push(Op::Open(0)) =~= clear_loop() + relocate(prog.push(Op::Open(0)), 3));
                assert(bs.push(n + 3) =~= stack.push(n).map_values(|k: int| k + 3));
            } else if ch == ']' {
                if stack.len() > 0 {
                    let p = stack.last();
                    assert(bs.last() == p + 3);
                    assert(0 <= stack[stack.len() - 1] < n);
                    assert(big.push(Op::Close(p + 3)).update(p + 3, Op::Open(n + 3))
                        =~= clear_loop() + relocate(prog.push(Op::Close(p)).update(p, Op::Open(n)), 3));
                    assert(bs.drop_last() =~= stack.drop_last().map_values(|k: int| k + 3));
                }
            }
        },
    }
}

proof fn lemma_relocated_compile(b: Seq<char>)
    ensures
        compile_cmds(seq!['[', '-', ']'] + b) == after_clear_loop(compile_cmds(b)),
    decreases b.len(),
{
    let pre = seq!['[', '-', ']'];
    if b.len() == 0 {
        assert(pre + b =~= pre);
        let e = Seq::<char>::empty();
        assert(seq!['['].drop_last() =~= e);
        assert(seq!['[', '-'].drop_last() =~= seq!['[']);
        assert(pre.drop_last() =~= seq!['[', '-']);
        assert(compile_cmds(e) == Some((Seq::<Op>::empty(), Seq::<int>::empty())));
        assert(compile_cmds(seq!['[']) == Some((seq![Op::Open(0)], seq![0int]))) by {
            assert(Seq::<Op>::empty().push(Op::Open(0)) =~= seq![Op::Open(0)]);
            assert(Seq::<int>::empty().push(0) =~= seq![0int]);
        }
        assert(compile_cmds(seq!['[', '-']) == Some((seq![Op::Open(0), Op::Arith(-1)], seq![0int]))) by {
            assert(seq![Op::Open(0)].push(Op::Arith(-1)) =~= seq![Op::Open(0), Op::Arith(-1)]);
        }
        assert(seq![Op::Open(0), Op::Arith(-1)].push(Op::Close(0)).update(0, Op::Open(2))
            =~= clear_loop() + relocate(Seq::<Op>::empty(), 3));
        assert(seq![0int].drop_last() =~= Seq::<int>::empty().map_values(|k: int| k + 3));
    } else {
        assert((pre + b).drop_last() =~= pre + b.drop_last());
        assert((pre + b).last() == b.last());
        lemma_relocated_compile(b.drop_last());
        if compile_cmds(b.drop_last()) is Some {
            lemma_compile_pairs(b.drop_last());
        }
        lemma_relocated_step(compile_cmds(b.drop_last()), b.last());
    }
}

/// Every jump target is usable: openings point past position 0, closings at a
/// position.
pub open spec fn targets_settled(prog: Seq<Op>) -> bool {
    &&& forall|p: int| 0 <= p < prog.len() && #[trigger] prog[p] is Open ==> prog[p]->Open_0 >= 1
    &&& forall|p: int| 0 <= p < prog.len() && #[trigger] prog[p] is Close ==> prog[p]->Close_0 >= 0
}

/// `c` with its instruction pointer moved by `d`.
pub open spec fn moved(c: Config, d: int) -> Config {
    Config { ip: c.ip + d, ..c }
}

proof fn lemma_relocated_exec_step(prog: Seq<Op>, c: Config)
    requires
        targets_settled(prog),
        c.ip >= 0,
    ensures
        step_spec(clear_loop() + relocate(prog, 3), moved(c, 3)).1 == step_spec(prog, c).1,
        step_spec(clear_loop() + relocate(prog, 3), moved(c, 3)).0 == moved(step_spec(prog, c).0, 3),
        step_spec(prog, c).0.ip >= 0,
{
    let big = clear_loop() + relocate(prog, 3);
    if c.ip < prog.len() {
        assert(big[c.ip + 3] == reloc(prog[c.ip], 3));
        assert(prog[c.ip] is Open ==> prog[c.ip]->Open_0 >= 1);
        assert(prog[c.ip] is Close ==> prog[c.ip]->Close_0 >= 0);
    }
}

/// Runs up to `n` steps, going on through plain and output steps only: the
/// state reached, the bytes written, and the last event.
pub open spec fn run_spec(prog: Seq<Op>, c: Config, n: nat) -> (Config, Seq<u8>, Event)
    decreases n,
{
    if n == 0 {
        (c, Seq::empty(), Event::Continue)
    } else {
        let (c1, e) = step_spec(prog, c);
        match e {
            Event::Continue => run_spec(prog, c1, (n - 1) as nat),
            Event::Output(b) => {
                let (c2, out, e2) = run_spec(prog, c1, (n - 1) as nat);
                (c2, seq![b] + out, e2)
            },
            _ => (c1, Seq::empty(), e),
        }
    }
}

proof fn lemma_relocated_run(prog: Seq<Op>, c: Config, n: nat)
    requires
        targets_settled(prog),
        c.ip >= 0,
    ensures
        run_spec(clear_loop() + relocate(prog, 3), moved(c, 3), n) == ({
            let (c2, out, e) = run_spec(prog, c, n);
            (moved(c2, 3), out, e)
        }),
    decreases n,
{
    if n > 0 {
        lemma_relocated_exec_step(prog, c);
        lemma_relocated_run(prog, step_spec(prog, c).0, (n - 1) as nat);
    }
}

/// A clearing loop on a zero cell is a no-op: where `b`'s brackets all match,
/// `[-]` followed by `b` compiles to the loop followed by `b`'s program, its
/// first step from a zero cell jumps straight past the loop leaving tape and
/// cursor as they were, and from there every run does what `b`'s program does
/// on its own: the same states, the same bytes written, the same last event.
pub proof fn lemma_clear_loop_noop(b: Seq<char>, c: Config, n: nat)
    requires
        compile_cmds(commands(b)) matches Some((prog, stack)) && stack.len() == 0,
        c.ip == 0,
        cursor_ok(c),
        c.cells.len() == crate::tape::TAPE_LEN,
        cell(c) == 0,
    ensures
        ({
            let prog = compiled(b)->Some_0;
            let full = compiled(seq!['[', '-', ']'] + b)->Some_0;
            &&& compiled(seq!['[', '-', ']'] + b) == Some(clear_loop() + relocate(prog, 3))
            &&& step_spec(full, c) == (moved(c, 3), Event::Continue)
            &&& run_spec(full, moved(c, 3), n) == ({
                let (c2, out, e) = run_spec(prog, c, n);
                (moved(c2, 3), out, e)
            })
        }),
{
    let pre = seq!['[', '-', ']'];
    Seq::filter_distributes_over_add(pre, b, cmd_pred());
    lemma_all_cmds_literal();
    lemma_relocated_compile(commands(b));
    lemma_compile_pairs(commands(b));
    let prog = compiled(b)->Some_0;
    assert forall|p: int| 0 <= p < prog.len() && #[trigger] prog[p] is Open implies prog[p]->Open_0 >= 1 by {
        assert(!Seq::<int>::empty().contains(p));
    }
    lemma_relocated_run(prog, c, n);
    let full = clear_loop() + relocate(prog, 3);
    assert(full[0] == Op::Open(2));
}

proof fn lemma_all_cmds_literal()
    ensures
        commands(seq!['[', '-', ']']) == seq!['[', '-', ']'],
{
    let e = Seq::<char>::empty();
    reveal(Seq::filter);
    e.lemma_filter_push('[', cmd_pred());
    seq!['['].lemma_filter_push('-', cmd_pred());
    seq!['[', '-'].lemma_filter_push(']', cmd_pred());
    assert(e.push('[') =~= seq!['[']);
    assert(seq!['['].push('-') =~= seq!['[', '-']);
    assert(seq!['[', '-'].push(']') =~= seq!['[', '-', ']']);
}

} // verus!
