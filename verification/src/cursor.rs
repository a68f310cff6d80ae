//! A two-dimensional screen cursor: a line/column pair clamped to inclusive
//! upper bounds supplied at construction.  Moves at a bound are no-ops.

use vstd::prelude::*;

use crate::text::{dec_chars, usize_string};

verus! {

use vstd::string::StringExecFns;

/// The cursor's inspection rendering: current line and column.
pub open spec fn cursor_display(cur: Cursor) -> Seq<char> {
    "cursor[line:"@ + dec_chars(cur.line as int) + ",column:"@ + dec_chars(cur.column as int)
        + "]"@
}

/// Line/column counters with inclusive upper bounds.
pub struct Cursor {
    pub line: usize,
    pub column: usize,
    pub lines: usize,
    pub columns: usize,
}

impl Cursor {
    /// Validity: the position stays inside the inclusive bounds.
    pub open spec fn inv(self) -> bool {
        &&& self.line <= self.lines
        &&& self.column <= self.columns
    }

    /// A cursor at the origin with the given inclusive bounds.
    pub fn new(lines: usize, columns: usize) -> (r: Cursor)
        ensures
            r.inv(),
            r.line == 0,
            r.column == 0,
            r.lines == lines,
            r.columns == columns,
    {
        Cursor { line: 0, column: 0, lines, columns }
    }

    /// Renders the cursor's position for diagnostics and tests.
    pub fn to_string(&self) -> (r: String)
        ensures
            r@ == cursor_display(*self),
    {
        let mut s = String::new();
        s.append("cursor[line:");
        s.append(usize_string(self.line).as_str());
        s.append(",column:");
        s.append(usize_string(self.column).as_str());
        s.append("]");
        proof {
            assert(s@ =~= cursor_display(*self));
        }
        s
    }

    /// Moves one column left; no-op at column 0.
    pub fn left(&mut self)
        requires
            old(self).inv(),
        ensures
            final(self).inv(),
            final(self).column == if old(self).column == 0 { 0int } else { old(self).column - 1 },
            final(self).line == old(self).line,
            final(self).lines == old(self).lines,
            final(self).columns == old(self).columns,
    {
        if self.column == 0 {
            return;
        }
        self.column -= 1;
    }

    /// Moves one column right; no-op at the column bound.
    pub fn right(&mut self)
        requires
            old(self).inv(),
        ensures
            final(self).inv(),
            final(self).column == if old(self).column == old(self).columns {
                old(self).column as int
            } else {
                old(self).column + 1
            },
            final(self).line == old(self).line,
            final(self).lines == old(self).lines,
            final(self).columns == old(self).columns,
    {
        if self.column == self.columns {
            return;
        }
        self.column += 1;
    }

    /// Moves one line up; no-op at line 0.
    pub fn up(&mut self)
        requires
            old(self).inv(),
        ensures
            final(self).inv(),
            final(self).line == if old(self).line == 0 { 0int } else { old(self).line - 1 },
            final(self).column == old(self).column,
            final(self).lines == old(self).lines,
            final(self).columns == old(self).columns,
    {
        if self.line == 0 {
            return;
        }
        self.line -= 1;
    }

    /// Moves one line down; no-op at the line bound.
    pub fn down(&mut self)
        requires
            old(self).inv(),
        ensures
            final(self).inv(),
            final(self).line == if old(self).line == old(self).lines {
                old(self).line as int
            } else {
                old(self).line + 1
            },
            final(self).column == old(self).column,
            final(self).lines == old(self).lines,
            final(self).columns == old(self).columns,
    {
        if self.line == self.lines {
            return;
        }
        self.line += 1;
    }
}

} // verus!
