use vstd::prelude::*;

verus! {

/// Whether `c` is one of the eight instruction symbols.
pub open spec fn is_cmd(c: char) -> bool {
    c == '[' || c == ']' || c == '+' || c == '-' || c == '<' || c == '>' || c == '.' || c == ','
}

/// The instruction symbols of `s`, in order, with every other character dropped.
pub open spec fn commands(s: Seq<char>) -> Seq<char> {
    s.filter(cmd_pred())
}

/// `is_cmd` as a predicate value.
pub open spec fn cmd_pred() -> spec_fn(char) -> bool {
    |c: char| is_cmd(c)
}

/// The first position at or after `k` that holds an instruction symbol, or the
/// length of `s` where none does.
pub open spec fn next_cmd(s: Seq<char>, k: int) -> int
    decreases s.len() - k,
{
    if k >= s.len() {
        s.len() as int
    } else if is_cmd(s[k]) {
        k
    } else {
        next_cmd(s, k + 1)
    }
}

/// Whether `c` is one of the eight instruction symbols.
pub fn is_command(c: char) -> (r: bool)
    ensures
        r == is_cmd(c),
{
    c == '[' || c == ']' || c == '+' || c == '-' || c == '<' || c == '>' || c == '.' || c == ','
}

/// Walks the instruction symbols of a source text, skipping everything else.
pub struct Tokenizer {
    text: Vec<char>,
    i: usize,
}

impl Tokenizer {
    /// The whole source text.
    pub closed spec fn text(&self) -> Seq<char> {
        self.text@
    }

    /// The scan position.
    pub closed spec fn pos(&self) -> int {
        self.i as int
    }

    /// The position is within the text, and on an instruction symbol unless at
    /// the end.
    pub open spec fn wf(&self) -> bool {
        &&& 0 <= self.pos() <= self.text().len()
        &&& self.pos() < self.text().len() ==> is_cmd(self.text()[self.pos()])
    }

    /// The symbol at the scan position, if any.
    pub open spec fn current(&self) -> Option<char> {
        if self.pos() < self.text().len() {
            Some(self.text()[self.pos()])
        } else {
            None
        }
    }

    /// Moves from position `k` to the next instruction symbol at or after it.
    fn skip_from(&mut self, k: usize)
        requires
            k <= old(self).text().len(),
        ensures
            final(self).text() == old(self).text(),
            final(self).pos() == next_cmd(old(self).text(), k as int),
            final(self).wf(),
    {
        let mut j = k;
        while j < self.text.len() && !is_command(self.text[j])
            invariant
                k <= j <= self.text@.len(),
                next_cmd(self.text@, j as int) == next_cmd(self.text@, k as int),
            decreases self.text@.len() - j,
        {
            j = j + 1;
        }
        self.i = j;
        proof {
            lemma_next_cmd_bounds(self.text@, j as int);
        }
    }

    /// A scanner over `str`, placed on its first instruction symbol.
    pub fn new(str: String) -> (r: Tokenizer)
        ensures
            r.wf(),
            r.text() == str@,
            r.pos() == next_cmd(str@, 0),
    {
        let s = str.as_str();
        let n = s.unicode_len();
        let mut text: Vec<char> = Vec::new();
        let mut k: usize = 0;
        while k < n
            invariant
                n == s@.len(),
                k <= n,
                text@ == s@.subrange(0, k as int),
            decreases n - k,
        {
            text.push(s.get_char(k));
            k = k + 1;
            assert(text@ =~= s@.subrange(0, k as int));
        }
        assert(text@ =~= s@);
        let mut t = Tokenizer { text, i: 0 };
        t.skip_from(0);
        t
    }

    /// The instruction symbol at the scan position, or `None` at the end.
    pub fn get(&self) -> (r: Option<char>)
        requires
            self.wf(),
        ensures
            r == self.current(),
    {
        if self.text.len() <= self.i {
            None
        } else {
            Some(self.text[self.i])
        }
    }

    /// Moves past the current instruction symbol to the next one, and returns
    /// it, or `None` at the end.
    pub fn next(&mut self) -> (r: Option<char>)
        requires
            old(self).wf(),
        ensures
            final(self).wf(),
            final(self).text() == old(self).text(),
            final(self).pos() == if old(self).pos() < old(self).text().len() {
                next_cmd(old(self).text(), old(self).pos() + 1)
            } else {
                old(self).pos()
            },
            r == final(self).current(),
    {
        if self.i < self.text.len() {
            let k = self.i + 1;
            self.skip_from(k);
        }
        self.get()
    }
}

/// Skipping to the next instruction symbol drops nothing from the symbols read.
pub proof fn lemma_commands_skip(s: Seq<char>, k: int)
    requires
        0 <= k <= s.len(),
    ensures
        commands(s.subrange(0, next_cmd(s, k))) == commands(s.subrange(0, k)),
    decreases s.len() - k,
{
    if k < s.len() && !is_cmd(s[k]) {
        lemma_commands_skip(s, k + 1);
        s.subrange(0, k).lemma_filter_push(s[k], cmd_pred());
        assert(s.subrange(0, k).push(s[k]) =~= s.subrange(0, k + 1));
    }
}

/// Moving past the symbol at `k` adds exactly that symbol to those read.
pub proof fn lemma_commands_advance(s: Seq<char>, k: int)
    requires
        0 <= k < s.len(),
        is_cmd(s[k]),
    ensures
        commands(s.subrange(0, next_cmd(s, k + 1))) == commands(s.subrange(0, k)).push(s[k]),
{
    lemma_commands_skip(s, k + 1);
    s.subrange(0, k).lemma_filter_push(s[k], cmd_pred());
    assert(s.subrange(0, k).push(s[k]) =~= s.subrange(0, k + 1));
}

/// `next_cmd` stays within the text and lands on a symbol unless at the end.
pub proof fn lemma_next_cmd_bounds(s: Seq<char>, k: int)
    requires
        0 <= k <= s.len(),
    ensures
        k <= next_cmd(s, k) <= s.len(),
        next_cmd(s, k) < s.len() ==> is_cmd(s[next_cmd(s, k)]),
    decreases s.len() - k,
{
    if k < s.len() && !is_cmd(s[k]) {
        lemma_next_cmd_bounds(s, k + 1);
    }
}

} // verus!
