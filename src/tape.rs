use vstd::prelude::*;

verus! {

/// Number of cells on the tape.
pub const TAPE_LEN: usize = 30000;

/// A fixed row of byte cells with a cursor. The cursor is never moved below
/// zero, but may be moved past the last cell; cells can then not be reached.
pub struct Tape {
    cells: Vec<u8>,
    pointer: usize,
}

/// The byte that `v + delta` wraps to.
pub open spec fn wrap_byte(v: int, delta: int) -> u8 {
    ((v + delta) % 256) as u8
}

impl Tape {
    /// The cell contents.
    pub closed spec fn cells(&self) -> Seq<u8> {
        self.cells@
    }

    /// The cursor position.
    pub closed spec fn cursor(&self) -> int {
        self.pointer as int
    }

    pub open spec fn wf(&self) -> bool {
        self.cells().len() == TAPE_LEN
    }

    /// Whether the cursor addresses a cell.
    pub open spec fn in_bounds(&self) -> bool {
        0 <= self.cursor() < TAPE_LEN
    }

    /// The cell under the cursor.
    pub open spec fn current(&self) -> u8 {
        self.cells()[self.cursor()]
    }

    /// A tape of zero cells with the cursor on the first.
    pub fn new() -> (r: Tape)
        ensures
            r.wf(),
            r.cursor() == 0,
            forall|k: int| 0 <= k < TAPE_LEN ==> #[trigger] r.cells()[k] == 0,
    {
        Tape { cells: vec![0u8; TAPE_LEN], pointer: 0 }
    }

    /// The cursor as an index.
    pub fn position(&self) -> (r: usize)
        ensures
            r as int == self.cursor(),
    {
        self.pointer
    }

    /// Whether the cursor addresses a cell.
    pub fn is_in_bounds(&self) -> (r: bool)
        requires
            self.wf(),
        ensures
            r == self.in_bounds(),
    {
        self.pointer < self.cells.len()
    }

    /// The value of the cell under the cursor.
    pub fn get(&self) -> (r: u8)
        requires
            self.wf(),
            self.in_bounds(),
        ensures
            r == self.current(),
    {
        self.cells[self.pointer]
    }

    /// Moves the cursor left by `amount`, stopping at the first cell.
    pub fn ls(&mut self, amount: usize)
        ensures
            final(self).cells() == old(self).cells(),
            final(self).cursor() == if old(self).cursor() < amount {
                0
            } else {
                old(self).cursor() - amount
            },
    {
        if self.pointer < amount {
            self.pointer = 0;
        } else {
            self.pointer = self.pointer - amount;
        }
    }

    /// Moves the cursor right by `amount`, with no bound but the tape's end.
    pub fn rs(&mut self, amount: usize)
        requires
            old(self).cursor() + amount <= usize::MAX,
        ensures
            final(self).cells() == old(self).cells(),
            final(self).cursor() == old(self).cursor() + amount,
    {
        self.pointer = self.pointer + amount;
    }

    /// Adds `amount` to the cell under the cursor, wrapping at 256.
    pub fn add(&mut self, amount: u8)
        requires
            old(self).wf(),
            old(self).in_bounds(),
        ensures
            final(self).cursor() == old(self).cursor(),
            final(self).cells() == old(self).cells().update(
                old(self).cursor(),
                wrap_byte(old(self).current() as int, amount as int),
            ),
    {
        let p = self.pointer;
        let v = self.cells[p];
        self.cells.set(p, v.wrapping_add(amount));
    }

    /// Subtracts `amount` from the cell under the cursor, wrapping at 256.
    pub fn sub(&mut self, amount: u8)
        requires
            old(self).wf(),
            old(self).in_bounds(),
        ensures
            final(self).cursor() == old(self).cursor(),
            final(self).cells() == old(self).cells().update(
                old(self).cursor(),
                wrap_byte(old(self).current() as int, -(amount as int)),
            ),
    {
        let p = self.pointer;
        let v = self.cells[p];
        self.cells.set(p, v.wrapping_sub(amount));
    }

    /// Stores `num` in the cell under the cursor.
    pub fn write(&mut self, num: u8)
        requires
            old(self).wf(),
            old(self).in_bounds(),
        ensures
            final(self).cursor() == old(self).cursor(),
            final(self).cells() == old(self).cells().update(old(self).cursor(), num),
    {
        let p = self.pointer;
        self.cells.set(p, num);
    }
}

} // verus!
