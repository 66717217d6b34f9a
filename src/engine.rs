use vstd::prelude::*;
use vstd::arithmetic::div_mod::{lemma_add_mod_noop_right, lemma_sub_mod_noop_right};
use crate::compiler::{Instruction, Op, ops};
use crate::tape::{Tape, TAPE_LEN, wrap_byte};

verus! {

/// What one step of the machine asks of its surroundings.
#[derive(Clone, Copy, Debug, PartialEq, Eq, Structural)]
pub enum Event {
    /// An instruction ran; step again.
    Continue,
    /// An instruction ran and wrote this byte.
    Output(u8),
    /// The current instruction reads a byte: supply it.
    NeedInput,
    /// The instruction pointer is past the program: the run is over.
    Halted,
    /// A cell was reached through a cursor past the tape: the run aborts.
    Overrun,
}

/// The mathematical state of a machine: the tape cells, the cursor and the
/// instruction pointer.
pub struct Config {
    pub cells: Seq<u8>,
    pub cursor: int,
    pub ip: int,
}

/// Whether the cursor addresses a cell.
pub open spec fn cursor_ok(c: Config) -> bool {
    0 <= c.cursor < TAPE_LEN
}

/// The cell under the cursor.
pub open spec fn cell(c: Config) -> u8 {
    c.cells[c.cursor]
}

/// Where a taken jump to `t` resumes, after the step's own advance: one past
/// `t`, or the end where `t` lies past the program.
pub open spec fn resume_at(t: int, len: int) -> int {
    if t < len {
        t + 1
    } else {
        len
    }
}

/// The cursor after a shift by `n`: clamped at zero on the left, and held at
/// the largest index on the right, which is past the tape either way.
pub open spec fn shifted(cursor: int, n: int) -> int {
    if cursor + n < 0 {
        0
    } else if cursor + n > usize::MAX {
        usize::MAX as int
    } else {
        cursor + n
    }
}

/// One step of `prog` from `c`: the next state and the event.
pub open spec fn step_spec(prog: Seq<Op>, c: Config) -> (Config, Event) {
    if !(0 <= c.ip < prog.len()) {
        (c, Event::Halted)
    } else {
        let next = Config { ip: c.ip + 1, ..c };
        match prog[c.ip] {
            Op::Open(t) => if !cursor_ok(c) {
                (c, Event::Overrun)
            } else if cell(c) == 0 {
                (Config { ip: resume_at(t, prog.len() as int), ..c }, Event::Continue)
            } else {
                (next, Event::Continue)
            },
            Op::Close(t) => if !cursor_ok(c) {
                (c, Event::Overrun)
            } else if cell(c) != 0 {
                (Config { ip: resume_at(t, prog.len() as int), ..c }, Event::Continue)
            } else {
                (next, Event::Continue)
            },
            Op::Output => if !cursor_ok(c) {
                (c, Event::Overrun)
            } else {
                (next, Event::Output(cell(c)))
            },
            Op::Input => (c, Event::NeedInput),
            Op::Shift(n) => (Config { cursor: shifted(c.cursor, n), ..next }, Event::Continue),
            Op::Arith(n) => if !cursor_ok(c) {
                (c, Event::Overrun)
            } else {
                (
                    Config { cells: c.cells.update(c.cursor, wrap_byte(cell(c) as int, n)), ..next },
                    Event::Continue,
                )
            },
        }
    }
}

/// The effect of supplying byte `b` to the Input instruction at `c.ip`.
pub open spec fn input_spec(c: Config, b: u8) -> (Config, Event) {
    if !cursor_ok(c) {
        (c, Event::Overrun)
    } else {
        (Config { cells: c.cells.update(c.cursor, b), cursor: c.cursor, ip: c.ip + 1 }, Event::Continue)
    }
}

/// The byte an input line stands for: its first character cut to eight
/// bits, or `None` for a line with no character.
pub open spec fn line_byte(line: Seq<char>) -> Option<u8> {
    if line.len() == 0 {
        None
    } else {
        Some(((line[0] as u32) % 256) as u8)
    }
}

/// The byte to store for an Input instruction, read from `line`.
pub fn input_byte(line: &str) -> (r: Option<u8>)
    ensures
        r == line_byte(line@),
{
    if line.unicode_len() == 0 {
        None
    } else {
        let c = line.get_char(0);
        Some(((c as u32) % 256) as u8)
    }
}

/// A tape and an instruction pointer running one program.
pub struct Machine {
    tape: Tape,
    ip: usize,
}

impl Machine {
    pub closed spec fn config(&self) -> Config {
        Config { cells: self.tape.cells(), cursor: self.tape.cursor(), ip: self.ip as int }
    }

    pub closed spec fn wf(&self) -> bool {
        self.tape.wf()
    }

    /// A machine at the first instruction, on a zero tape.
    pub fn new() -> (r: Machine)
        ensures
            r.wf(),
            r.config().ip == 0,
            r.config().cursor == 0,
            r.config().cells == Seq::new(TAPE_LEN as nat, |k: int| 0u8),
    {
        let tape = Tape::new();
        assert(tape.cells() =~= Seq::new(TAPE_LEN as nat, |k: int| 0u8));
        Machine { tape, ip: 0 }
    }

    /// The instruction pointer.
    pub fn ip(&self) -> (r: usize)
        ensures
            r as int == self.config().ip,
    {
        self.ip
    }

    /// The tape.
    pub fn tape(&self) -> (r: &Tape)
        ensures
            r.cells() == self.config().cells,
            r.cursor() == self.config().cursor,
            self.wf() ==> r.wf(),
    {
        &self.tape
    }

    fn jump(&mut self, t: usize, len: usize)
        ensures
            final(self).tape == old(self).tape,
            final(self).ip == resume_at(t as int, len as int),
    {
        if t < len {
            self.ip = t + 1;
        } else {
            self.ip = len;
        }
    }

    /// Runs the instruction at the instruction pointer, except an Input,
    /// which waits for `supply_input`.
    pub fn step(&mut self, prog: &Vec<Instruction>) -> (e: Event)
        requires
            old(self).wf(),
        ensures
            final(self).wf(),
            (final(self).config(), e) == step_spec(ops(prog@), old(self).config()),
    {
        let len = prog.len();
        if self.ip >= len {
            return Event::Halted;
        }
        let ins = prog[self.ip];
        assert(ops(prog@)[self.ip as int] == ins@);
        let ok = self.tape.is_in_bounds();
        match ins {
            Instruction::LoopOpen(t) => {
                if !ok {
                    return Event::Overrun;
                }
                if self.tape.get() == 0 {
                    self.jump(t, len);
                } else {
                    self.ip = self.ip + 1;
                }
                Event::Continue
            },
            Instruction::LoopClose(t) => {
                if !ok {
                    return Event::Overrun;
                }
                if self.tape.get() != 0 {
                    self.jump(t, len);
                } else {
                    self.ip = self.ip + 1;
                }
                Event::Continue
            },
            Instruction::Output => {
                if !ok {
                    return Event::Overrun;
                }
                let v = self.tape.get();
                self.ip = self.ip + 1;
                Event::Output(v)
            },
            Instruction::Input => Event::NeedInput,
            Instruction::Shift(n) => {
                let at = self.tape.position();
                if n < 0 {
                    let m: usize = ((-(n + 1)) as usize) + 1;
                    self.tape.ls(m);
                } else {
                    let m: usize = n as usize;
                    let room: usize = usize::MAX - at;
                    if m <= room {
                        self.tape.rs(m);
                    } else {
                        self.tape.rs(room);
                    }
                }
                self.ip = self.ip + 1;
                Event::Continue
            },
            Instruction::Arithmetic(n) => {
                if !ok {
                    return Event::Overrun;
                }
                let ghost v = self.tape.current() as int;
                if n >= 0 {
                    let a: u8 = ((n as usize) % 256) as u8;
                    self.tape.add(a);
                    proof {
                        lemma_add_mod_noop_right(v, n as int, 256);
                    }
                } else {
                    let m: usize = ((-(n + 1)) as usize) + 1;
                    let b: u8 = (m % 256) as u8;
                    self.tape.sub(b);
                    proof {
                        lemma_sub_mod_noop_right(v, m as int, 256);
                        assert(v - m == v + n);
                    }
                }
                self.ip = self.ip + 1;
                Event::Continue
            },
        }
    }

    /// Stores `b`, the byte read for the Input instruction at the instruction
    /// pointer, and moves past it.
    pub fn supply_input(&mut self, prog: &Vec<Instruction>, b: u8) -> (e: Event)
        requires
            old(self).wf(),
            0 <= old(self).config().ip < prog@.len(),
        ensures
            final(self).wf(),
            (final(self).config(), e) == input_spec(old(self).config(), b),
    {
        if !self.tape.is_in_bounds() {
            return Event::Overrun;
        }
        let len = prog.len();
        assert(self.ip < len);
        self.tape.write(b);
        self.ip = self.ip + 1;
        Event::Continue
    }
}

} // verus!
