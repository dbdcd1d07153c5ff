//! A text buffer that writes one line at a time at the current indentation.
use vstd::prelude::*;
use crate::text::{string_append, string_push};

verus! {

/// The spaces that start a line at depth `d`: four per level.
pub open spec fn indent_text(d: nat) -> Seq<char> {
    Seq::new(4 * d, |i: int| ' ')
}

/// A line with text `s` at depth `d`.
pub open spec fn line(d: nat, s: Seq<char>) -> Seq<char> {
    indent_text(d) + s + seq!['\n']
}

/// The text written so far and the current depth of indentation.
pub struct IndentPrinter {
    content: String,
    level: usize,
}

impl IndentPrinter {
    /// The text written so far.
    pub closed spec fn text(&self) -> Seq<char> {
        self.content@
    }

    /// The current depth of indentation.
    pub closed spec fn depth(&self) -> nat {
        self.level as nat
    }

    /// An empty buffer at depth 0.
    pub fn new() -> (p: IndentPrinter)
        ensures
            p.text() == Seq::<char>::empty(),
            p.depth() == 0,
    {
        IndentPrinter { content: String::new(), level: 0 }
    }

    /// One level deeper.
    pub fn inc(&mut self)
        requires
            old(self).depth() < usize::MAX,
        ensures
            final(self).depth() == old(self).depth() + 1,
            final(self).text() == old(self).text(),
    {
        self.level = self.level + 1;
    }

    /// One level shallower.
    pub fn dec(&mut self)
        requires
            old(self).depth() > 0,
        ensures
            final(self).depth() == old(self).depth() - 1,
            final(self).text() == old(self).text(),
    {
        self.level = self.level - 1;
    }

    /// Writes `s` as a line of its own at the current depth.
    pub fn write_line(&mut self, s: &str)
        ensures
            final(self).depth() == old(self).depth(),
            final(self).text() == old(self).text() + line(old(self).depth(), s@),
    {
        let ghost t0 = self.content@;
        let n = self.level;
        let mut k: usize = 0;
        while k < n
            invariant
                0 <= k <= n,
                n == self.level,
                self.content@ == t0 + indent_text(k as nat),
            decreases n - k,
        {
            string_append(&mut self.content, "    ");
            proof {
                reveal_strlit("    ");
                assert(t0 + indent_text(k as nat) + "    "@ =~= t0 + indent_text((k + 1) as nat));
            }
            k = k + 1;
        }
        string_append(&mut self.content, s);
        string_push(&mut self.content, '\n');
        proof {
            assert(self.content@ =~= t0 + line(n as nat, s@));
        }
    }

    /// Writes an empty line.
    pub fn newline(&mut self)
        ensures
            final(self).depth() == old(self).depth(),
            final(self).text() == old(self).text() + seq!['\n'],
    {
        string_push(&mut self.content, '\n');
    }

    /// The text written.
    pub fn finish(self) -> (r: String)
        ensures
            r@ == self.text(),
    {
        self.content
    }
}

} // verus!
