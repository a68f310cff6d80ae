//! The line-indexed buffer: a flat character store plus an ordered table of
//! line ranges, a cursor offset, and a cached current-line index.

use vstd::prelude::*;

use crate::text::{chars_to_string, dec_chars, usize_string};

verus! {

use vstd::string::StringExecFns;

/// One line's span inside the buffer: inclusive start and end offsets into
/// the flat character store.
#[derive(Clone, Copy, PartialEq, Eq, Structural)]
pub struct LineRange {
    pub start: usize,
    pub end: usize,
}

impl LineRange {
    pub fn new(start: usize, end: usize) -> (r: LineRange)
        ensures
            r.start == start,
            r.end == end,
    {
        LineRange { start, end }
    }
}

/// Builds a `LineRange` from mathematical offsets; spec-level convenience.
pub open spec fn lr(start: int, end: int) -> LineRange {
    LineRange { start: start as usize, end: end as usize }
}

/// The index of the first line in `lines`, at or after index `i`, whose end
/// offset is at least `pos`; `None` when no such line exists.
pub open spec fn first_line_reaching(lines: Seq<LineRange>, pos: int, i: int) -> Option<int>
    decreases lines.len() - i,
{
    if i < 0 || i >= lines.len() {
        None
    } else if lines[i].end >= pos {
        Some(i)
    } else {
        first_line_reaching(lines, pos, i + 1)
    }
}

/// The current-line index after resynchronizing to offset `pos`: the first
/// line whose end reaches `pos`, or the previously cached index when no line
/// reaches that far.
pub open spec fn synced_line(lines: Seq<LineRange>, fallback: int, pos: int) -> int {
    match first_line_reaching(lines, pos, 0) {
        Some(i) => i,
        None => fallback,
    }
}

/// A range shifted one position right; both offsets saturate at the numeric
/// limit rather than wrapping (unreachable for content that fits in memory).
pub open spec fn bumped(r: LineRange) -> LineRange {
    lr(
        if r.start < usize::MAX { r.start + 1 } else { r.start as int },
        if r.end < usize::MAX { r.end + 1 } else { r.end as int },
    )
}

/// The line table after a newline insertion has shifted every line at index
/// `from` or later one position right.
pub open spec fn shifted_lines(lines: Seq<LineRange>, from: int) -> Seq<LineRange> {
    Seq::new(lines.len(), |j: int| if j >= from { bumped(lines[j]) } else { lines[j] })
}

/// The line table after inserting a newline at offset `pos` while line `l` is
/// current: the current line is closed at `pos`, a fresh zero-length line is
/// opened after it when none exists there yet, and all lines after the new
/// current line are shifted right by one.
pub open spec fn nl_inserted_lines(lines: Seq<LineRange>, l: int, pos: int) -> Seq<LineRange> {
    let closed = lines.update(l, lr(lines[l].start as int, pos));
    let grown = if closed.len() <= l + 1 {
        closed.insert(l + 1, lr(pos + 1, pos + 1))
    } else {
        closed
    };
    shifted_lines(grown, l + 2)
}

/// The line table that a left-to-right scan of `c` produces from position
/// `i` on, while the current line started at offset `s`: a newline closes
/// the current line at its own offset and opens the next line just past it;
/// at the end of the text the current line closes at the last character, or
/// stays as a zero-length sentinel just past a trailing newline.
pub open spec fn lines_at(c: Seq<char>, s: int, i: int) -> Seq<LineRange>
    decreases c.len() - i,
{
    if i >= c.len() {
        if s == c.len() {
            seq![lr(s, s)]
        } else {
            seq![lr(s, c.len() - 1)]
        }
    } else if c[i] == '\n' {
        seq![lr(s, i)] + lines_at(c, i + 1, i + 1)
    } else {
        lines_at(c, s, i + 1)
    }
}

/// The full line table of a text: one range per line, terminators included,
/// with a zero-length trailing sentinel after a final newline.
pub open spec fn lines_of(c: Seq<char>) -> Seq<LineRange> {
    lines_at(c, 0, 0)
}

/// A decrement that saturates at zero, guarding the offset arithmetic
/// against underflow.
pub open spec fn dec1(x: int) -> int {
    if x == 0 {
        0
    } else {
        x - 1
    }
}

/// The line table after the character at offset `cur` was deleted while line
/// `l` is current: the current line's end and every later line's offsets
/// shrink by one, except that a zero-length line sitting exactly at the
/// deletion point is left untouched (unless it is the last line), so that a
/// just-created empty line is not absorbed.
pub open spec fn shrunk_lines(lines: Seq<LineRange>, l: int, cur: int) -> Seq<LineRange> {
    Seq::new(
        lines.len(),
        |j: int|
            {
                let r = lines[j];
                if j < l {
                    r
                } else if l != lines.len() - 1 && r.start == r.end && cur == r.start {
                    r
                } else if j == l {
                    lr(r.start as int, dec1(r.end as int))
                } else {
                    lr(dec1(r.start as int), dec1(r.end as int))
                }
            },
    )
}

/// The line table after deleting the newline at offset `cur` while line `l`
/// is current: all lines from `l` on shrink, then the next line merges into
/// the current one — the larger end wins, an end left exactly at the deletion
/// point is pulled back by one (when nonzero), and the next line's entry is
/// dropped.
pub open spec fn nl_removed_lines(lines: Seq<LineRange>, l: int, cur: int) -> Seq<LineRange> {
    let s = shrunk_lines(lines, l, cur);
    if l + 1 < s.len() {
        let merged_end = if s[l].end < s[l + 1].end {
            s[l + 1].end as int
        } else {
            s[l].end as int
        };
        let fixed_end = if merged_end == cur && merged_end != 0 {
            merged_end - 1
        } else {
            merged_end
        };
        s.update(l, lr(s[l].start as int, fixed_end)).remove(l + 1)
    } else {
        s
    }
}

/// The characters one line's range covers.  A range starting at or past the
/// end of the store (the trailing sentinel) covers nothing; an end offset
/// past the last character is clamped to it, and a range whose end lies
/// before its start covers nothing — defensive guards, per the design rule
/// that out-of-range offsets are clamped rather than trusted.
pub open spec fn span_chars(c: Seq<char>, r: LineRange) -> Seq<char> {
    if r.start >= c.len() {
        Seq::<char>::empty()
    } else {
        let e = if r.end < c.len() {
            r.end as int
        } else {
            c.len() - 1
        };
        if e < r.start {
            Seq::<char>::empty()
        } else {
            c.subrange(r.start as int, e + 1)
        }
    }
}

/// One line's span as displayed: a carriage return is inserted immediately
/// before a terminating newline, so every stored line feed renders as CRLF.
pub open spec fn crlf_span(c: Seq<char>, r: LineRange) -> Seq<char> {
    let s = span_chars(c, r);
    if s.len() > 0 && s.last() == '\n' {
        s.drop_last() + seq!['\r', '\n']
    } else {
        s
    }
}

/// The rendering of the first `i` lines, in line order.
pub open spec fn rendered_upto(c: Seq<char>, lines: Seq<LineRange>, i: int) -> Seq<char>
    decreases i,
{
    if i <= 0 {
        Seq::<char>::empty()
    } else {
        rendered_upto(c, lines, i - 1) + crlf_span(c, lines[i - 1])
    }
}

/// The full display rendering: every line's span in order, each stored line
/// feed shown as CRLF.
pub open spec fn rendered(c: Seq<char>, lines: Seq<LineRange>) -> Seq<char> {
    rendered_upto(c, lines, lines.len() as int)
}

/// One range's inspection rendering: `(start, end)`.
pub open spec fn range_chars(r: LineRange) -> Seq<char> {
    "("@ + dec_chars(r.start as int) + ", "@ + dec_chars(r.end as int) + ")"@
}

/// The first `i` ranges rendered in order, separated by commas.
pub open spec fn ranges_chars(lines: Seq<LineRange>, i: int) -> Seq<char>
    decreases i,
{
    if i <= 0 {
        Seq::<char>::empty()
    } else if i == 1 {
        range_chars(lines[0])
    } else {
        ranges_chars(lines, i - 1) + ", "@ + range_chars(lines[i - 1])
    }
}

/// The buffer's inspection rendering: cursor, current line, raw content and
/// the full line-range table.
pub open spec fn buffer_display(b: Buffer) -> Seq<char> {
    "buffer [ cursor: "@ + dec_chars(b.cursor as int) + ", line: "@ + dec_chars(b.line as int)
        + ", content: '"@ + b.content@ + "', lines: '["@ + ranges_chars(
        b.lines@,
        b.lines@.len() as int,
    ) + "]']"@
}

/// No newline occurs in `c` at an offset in `[lo, hi)`.
pub open spec fn no_nl(c: Seq<char>, lo: int, hi: int) -> bool {
    forall|j: int| lo <= j < hi ==> c[j] != '\n'
}

/// Line `i` of the table is a proper interior line: its span lies inside the
/// store, it ends exactly at its own terminating newline, it contains no
/// earlier newline, and the next line starts just past that newline.
pub open spec fn wf_interior(c: Seq<char>, lines: Seq<LineRange>, i: int) -> bool {
    let r = lines[i];
    &&& r.start <= r.end
    &&& r.end < c.len()
    &&& c[r.end as int] == '\n'
    &&& no_nl(c, r.start as int, r.end as int)
    &&& lines[i + 1].start == r.end + 1
}

/// The line table indexes the store exactly: lines tile the content with no
/// gaps and no overlaps, every line but the last ends at its terminating
/// newline, and the last line either covers the tail of the store up to its
/// final character or is a zero-length sentinel sitting just past a trailing
/// newline (whose end offset may lag one behind after a deletion).
pub open spec fn wf_lines(c: Seq<char>, lines: Seq<LineRange>) -> bool {
    let n = c.len() as int;
    let m = lines.len() as int;
    &&& m >= 1
    &&& lines[0].start == 0
    &&& forall|i: int| 0 <= i < m - 1 ==> #[trigger] wf_interior(c, lines, i)
    &&& {
        let last = lines[m - 1];
        if last.start == n {
            last.end == n || (n > 0 && last.end == n - 1)
        } else {
            &&& last.start < n
            &&& last.end + 1 == n
            &&& no_nl(c, last.start as int, n)
        }
    }
}

/// The concatenation of the first `i` line spans, in line order, terminators
/// included.
pub open spec fn spans_upto(c: Seq<char>, lines: Seq<LineRange>, i: int) -> Seq<char>
    decreases i,
{
    if i <= 0 {
        Seq::<char>::empty()
    } else {
        spans_upto(c, lines, i - 1) + span_chars(c, lines[i - 1])
    }
}

/// A text with every line feed normalized to CRLF: a carriage return is
/// inserted immediately before each newline.
pub open spec fn crlf(c: Seq<char>) -> Seq<char>
    decreases c.len(),
{
    if c.len() == 0 {
        Seq::<char>::empty()
    } else if c[0] == '\n' {
        seq!['\r', '\n'] + crlf(c.drop_first())
    } else {
        seq![c[0]] + crlf(c.drop_first())
    }
}

/// The display normalization undone: every carriage return standing
/// immediately before a newline is dropped.
pub open spec fn decrlf(c: Seq<char>) -> Seq<char>
    decreases c.len(),
{
    if c.len() == 0 {
        Seq::<char>::empty()
    } else if c.len() >= 2 && c[0] == '\r' && c[1] == '\n' {
        seq!['\n'] + decrlf(c.subrange(2, c.len() as int))
    } else {
        seq![c[0]] + decrlf(c.drop_first())
    }
}

/// How one deletion changes the buffer.  A buffer whose cursor is at 0 is
/// left untouched.  Otherwise the cursor resynchronizes to `pos` and the
/// character stored at that offset is deleted: a newline triggers the shrink
/// and merge of the line table, an ordinary character only pulls the current
/// line's end back by one (saturating at zero).
pub open spec fn remove_at_post(pre: Buffer, post: Buffer, pos: int) -> bool {
    if pre.cursor == 0 {
        post == pre
    } else {
        let l = synced_line(pre.lines@, pre.line as int, pos);
        &&& post.content@ == pre.content@.remove(pos)
        &&& post.cursor == pos
        &&& post.line == l
        &&& post.lines@ == if pre.content@[pos] == '\n' {
            nl_removed_lines(pre.lines@, l, pos)
        } else {
            pre.lines@.update(l, lr(pre.lines@[l].start as int, dec1(pre.lines@[l].end as int)))
        }
    }
}

/// How one insertion changes the buffer.  The cursor first resynchronizes to
/// `pos`; a newline closes the current line at `pos`, opens a fresh
/// zero-length line after it when none exists there yet, and shifts all later
/// lines right; an ordinary character only extends the current line's end to
/// `pos`.  Either way the character lands at offset `pos` and the cursor moves
/// just past it.
pub open spec fn insert_at_post(pre: Buffer, post: Buffer, pos: int, c: char) -> bool {
    let l = synced_line(pre.lines@, pre.line as int, pos);
    &&& post.content@ == pre.content@.insert(pos, c)
    &&& post.cursor == pos + 1
    &&& if c == '\n' {
        &&& post.lines@ == nl_inserted_lines(pre.lines@, l, pos)
        &&& post.line == l + 1
    } else {
        &&& post.lines@ == pre.lines@.update(l, lr(pre.lines@[l].start as int, pos))
        &&& post.line == l
    }
}

/// The buffer: character store, line table, cursor offset, current line.
pub struct Buffer {
    pub content: Vec<char>,
    pub lines: Vec<LineRange>,
    pub cursor: usize,
    pub line: usize,
}

impl Buffer {
    /// Structural well-formedness: the line table is never empty, the cached
    /// current line is a valid index into it, and the cursor stays inside the
    /// character store.  Every operation requires and preserves this.
    pub open spec fn inv(self) -> bool {
        &&& self.lines@.len() >= 1
        &&& self.line < self.lines@.len()
        &&& self.cursor <= self.content@.len()
    }

    /// The tracking invariant of cursor-driven editing: the cursor sits at
    /// the end of the store, the cached current line is the last line, and
    /// the line table indexes the content exactly.  It holds for a fresh
    /// buffer, is preserved by `insert` and `remove`, and is what makes the
    /// line table tile the content with no gaps and no overlaps.
    pub open spec fn wf(self) -> bool {
        &&& self.inv()
        &&& self.cursor == self.content@.len()
        &&& self.line == self.lines@.len() - 1
        &&& wf_lines(self.content@, self.lines@)
    }

    /// An empty buffer: no characters, one zero-length line, cursor at 0.
    pub fn new() -> (r: Buffer)
        ensures
            r.inv(),
            r.wf(),
            r.content@ == Seq::<char>::empty(),
            r.lines@ == seq![lr(0, 0)],
            r.cursor == 0,
            r.line == 0,
    {
        let mut lines: Vec<LineRange> = Vec::new();
        lines.push(LineRange::new(0, 0));
        proof {
            assert(lines@ =~= seq![lr(0, 0)]);
        }
        Buffer { content: Vec::new(), lines, cursor: 0, line: 0 }
    }

    /// Builds a buffer from a text: one left-to-right scan discovers every
    /// line boundary; the cursor ends just past the last character, on the
    /// last line.
    pub fn from_str(content: &str) -> (r: Buffer)
        ensures
            r.inv(),
            r.wf(),
            r.content@ == content@,
            r.lines@ == lines_of(content@),
            r.cursor == content@.len(),
            r.line == lines_of(content@).len() - 1,
    {
        let n = content.unicode_len();
        let mut chars: Vec<char> = Vec::new();
        let mut i: usize = 0;
        while i < n
            invariant
                i <= n,
                n == content@.len(),
                chars@ == content@.take(i as int),
            decreases n - i,
        {
            chars.push(content.get_char(i));
            proof {
                assert(chars@ =~= content@.take(i + 1));
            }
            i += 1;
        }
        proof {
            assert(chars@ =~= content@);
        }
        let ghost c = content@;

        let mut lines: Vec<LineRange> = Vec::new();
        lines.push(LineRange::new(0, 0));
        let mut last_lb: usize = 0;
        let mut cursor: usize = 0;
        let mut line: usize = 0;
        let mut i: usize = 0;
        while i < n
            invariant
                i <= n,
                n == c.len(),
                chars@ == c,
                last_lb <= i,
                cursor == i,
                lines@.len() == line + 1,
                lines@[line as int].start == last_lb,
                lines@[line as int].end == if i == last_lb {
                    last_lb as int
                } else {
                    i - 1
                },
                lines_of(c) == lines@.take(line as int) + lines_at(c, last_lb as int, i as int),
            decreases n - i,
        {
            let ch = chars[i];
            let ghost pre = lines@;
            if ch == '\n' {
                lines[line] = LineRange { start: last_lb, end: i };
                proof {
                    assert(lines@.take(line as int) =~= pre.take(line as int));
                    assert(lines@.take(line + 1) =~= lines@.take(line as int).push(
                        lr(last_lb as int, i as int),
                    ));
                    assert(pre.take(line as int) + lines_at(c, last_lb as int, i as int)
                        =~= lines@.take(line + 1) + lines_at(c, i + 1, i + 1));
                }
                let _line_count = lines.len();
                line += 1;
                last_lb = i + 1;
                if lines.len() == line {
                    lines.push(LineRange::new(last_lb, last_lb));
                }
                cursor = i + 1;
            } else {
                let s = lines[line].start;
                lines[line] = LineRange { start: s, end: i };
                cursor = i + 1;
                proof {
                    assert(lines@.take(line as int) =~= pre.take(line as int));
                }
            }
            i += 1;
        }
        let line = lines.len() - 1;
        proof {
            assert(lines@ =~= lines@.take(line as int) + seq![lines@[line as int]]);
            assert(seq![lines@[line as int]] =~= lines_at(c, last_lb as int, n as int));
            lemma_lines_at_wf(c, 0, 0);
        }
        Buffer { cursor, content: chars, lines, line }
    }

    /// Moves the cursor to `pos` and recomputes the cached current line as
    /// the first line whose end offset reaches `pos`; when no line reaches
    /// that far the cached value is kept.
    pub fn sync_line_with_cursor(&mut self, pos: usize)
        requires
            old(self).inv(),
            pos <= old(self).content@.len(),
        ensures
            final(self).inv(),
            final(self).cursor == pos,
            final(self).line == synced_line(old(self).lines@, old(self).line as int, pos as int),
            final(self).content == old(self).content,
            final(self).lines == old(self).lines,
    {
        self.cursor = pos;
        let n = self.lines.len();
        let mut i: usize = 0;
        while i < n && self.lines[i].end < pos
            invariant
                i <= n,
                n == self.lines@.len(),
                forall|k: int| 0 <= k < i ==> self.lines@[k].end < pos,
                *self == (Buffer { cursor: pos, ..*old(self) }),
            decreases n - i,
        {
            i += 1;
        }
        proof {
            lemma_first_line_reaching_from(self.lines@, pos as int, i as int);
        }
        if i < n {
            self.line = i;
        }
    }

    /// After a newline insertion, shifts every line after the (new) current
    /// line one position right.
    fn insert_updates(&mut self)
        requires
            old(self).inv(),
        ensures
            final(self).inv(),
            final(self).lines@ == shifted_lines(old(self).lines@, old(self).line + 1),
            final(self).content == old(self).content,
            final(self).cursor == old(self).cursor,
            final(self).line == old(self).line,
    {
        let n = self.lines.len();
        let mut j = self.line + 1;
        while j < n
            invariant
                old(self).line + 1 <= j <= n,
                n == self.lines@.len(),
                self.lines@.len() == old(self).lines@.len(),
                forall|k: int| 0 <= k < j ==> self.lines@[k] == shifted_lines(old(self).lines@, old(self).line + 1)[k],
                forall|k: int| j <= k < self.lines@.len() ==> self.lines@[k] == old(self).lines@[k],
                *self == (Buffer { lines: self.lines, ..*old(self) }),
            decreases self.lines@.len() - j,
        {
            let r = self.lines[j];
            let ns = if r.start < usize::MAX { r.start + 1 } else { r.start };
            let ne = if r.end < usize::MAX { r.end + 1 } else { r.end };
            self.lines[j] = LineRange { start: ns, end: ne };
            j += 1;
        }
        proof {
            assert(final(self).lines@ =~= shifted_lines(old(self).lines@, old(self).line + 1));
        }
    }

    /// Renders the buffer's state for diagnostics and tests: cursor, current
    /// line, raw content, and the line-range table.
    pub fn to_string(&self) -> (r: String)
        ensures
            r@ == buffer_display(*self),
    {
        let mut s = String::new();
        s.append("buffer [ cursor: ");
        s.append(usize_string(self.cursor).as_str());
        s.append(", line: ");
        s.append(usize_string(self.line).as_str());
        s.append(", content: '");
        s.append(chars_to_string(&self.content).as_str());
        s.append("', lines: '[");
        let ghost base = s@;
        let n = self.lines.len();
        let mut i: usize = 0;
        proof {
            assert(s@ =~= base + ranges_chars(self.lines@, 0));
        }
        while i < n
            invariant
                i <= n,
                n == self.lines@.len(),
                s@ == base + ranges_chars(self.lines@, i as int),
            decreases n - i,
        {
            if i > 0 {
                s.append(", ");
            }
            let r = self.lines[i];
            s.append("(");
            s.append(usize_string(r.start).as_str());
            s.append(", ");
            s.append(usize_string(r.end).as_str());
            s.append(")");
            i += 1;
            proof {
                assert(s@ =~= base + ranges_chars(self.lines@, i as int));
            }
        }
        s.append("]']");
        proof {
            assert(s@ =~= buffer_display(*self));
        }
        s
    }

    /// Inserts one character at absolute offset `pos`.
    pub fn insert_at(&mut self, pos: usize, c: char)
        requires
            old(self).inv(),
            pos <= old(self).content@.len(),
        ensures
            final(self).inv(),
            insert_at_post(*old(self), *final(self), pos as int, c),
    {
        self.sync_line_with_cursor(pos);
        if c == '\n' {
            self.content.insert(self.cursor, c);
            let s = self.lines[self.line].start;
            self.lines[self.line] = LineRange { start: s, end: self.cursor };
            let _grown_len = self.content.len();
            self.cursor += 1;
            let _line_count = self.lines.len();
            self.line += 1;
            if self.lines.len() <= self.line {
                self.lines.insert(self.line, LineRange::new(self.cursor, self.cursor));
            }
            self.insert_updates();
        } else {
            self.content.insert(self.cursor, c);
            let s = self.lines[self.line].start;
            self.lines[self.line] = LineRange { start: s, end: self.cursor };
            let _grown_len = self.content.len();
            self.cursor += 1;
        }
    }

    /// After a deletion at the cursor offset, shrinks the current line's end
    /// and every later line's offsets by one, leaving a zero-length line at
    /// the deletion point untouched unless it is the last line.  The
    /// decrements saturate at zero, guarding against underflow.
    fn remove_updates(&mut self)
        requires
            old(self).inv(),
        ensures
            final(self).inv(),
            final(self).lines@ == shrunk_lines(
                old(self).lines@,
                old(self).line as int,
                old(self).cursor as int,
            ),
            final(self).content == old(self).content,
            final(self).cursor == old(self).cursor,
            final(self).line == old(self).line,
    {
        let n = self.lines.len();
        let l = self.line;
        let cur = self.cursor;
        let ghost target = shrunk_lines(old(self).lines@, l as int, cur as int);
        let mut j = l;
        while j < n
            invariant
                l <= j <= n,
                n == self.lines@.len(),
                self.lines@.len() == old(self).lines@.len(),
                l == old(self).line,
                cur == old(self).cursor,
                target == shrunk_lines(old(self).lines@, l as int, cur as int),
                forall|k: int| 0 <= k < j ==> self.lines@[k] == target[k],
                forall|k: int| j <= k < n ==> self.lines@[k] == old(self).lines@[k],
                *self == (Buffer { lines: self.lines, ..*old(self) }),
            decreases n - j,
        {
            let r = self.lines[j];
            if l != n - 1 && r.start == r.end && cur == r.start {
                // a zero-length line exactly at the deletion point stays as it is
            } else if j == l {
                let ne = if r.end == 0 { 0 } else { r.end - 1 };
                self.lines[j] = LineRange { start: r.start, end: ne };
            } else {
                let ns = if r.start == 0 { 0 } else { r.start - 1 };
                let ne = if r.end == 0 { 0 } else { r.end - 1 };
                self.lines[j] = LineRange { start: ns, end: ne };
            }
            j += 1;
        }
        proof {
            assert(final(self).lines@ =~= target);
        }
    }

    /// Deletes the character stored at absolute offset `pos`; a buffer whose
    /// cursor sits at 0 is left unchanged.
    pub fn remove_at(&mut self, pos: usize)
        requires
            old(self).inv(),
            old(self).cursor == 0 || pos < old(self).content@.len(),
        ensures
            final(self).inv(),
            remove_at_post(*old(self), *final(self), pos as int),
    {
        if self.cursor == 0 {
            return ;
        }
        self.sync_line_with_cursor(pos);
        if self.content[self.cursor] == '\n' {
            self.content.remove(self.cursor);
            self.remove_updates();
            let n = self.lines.len();
            if self.line + 1 < n {
                let s = self.lines[self.line].start;
                let mut e = self.lines[self.line].end;
                let e_next = self.lines[self.line + 1].end;
                if e < e_next {
                    e = e_next;
                }
                if e == self.cursor && e != 0 {
                    e -= 1;
                }
                self.lines[self.line] = LineRange { start: s, end: e };
                let next = self.line + 1;
                self.lines.remove(next);
            }
        } else {
            self.content.remove(self.cursor);
            let r = self.lines[self.line];
            if r.end != 0 {
                self.lines[self.line] = LineRange { start: r.start, end: r.end - 1 };
            }
            proof {
                assert(final(self).lines@ =~= old(self).lines@.update(
                    final(self).line as int,
                    lr(
                        old(self).lines@[final(self).line as int].start as int,
                        dec1(old(self).lines@[final(self).line as int].end as int),
                    ),
                ));
            }
        }
    }

    /// Deletes the character immediately before the cursor; no-op when the
    /// cursor sits at 0.
    pub fn remove(&mut self)
        requires
            old(self).inv(),
        ensures
            final(self).inv(),
            old(self).cursor == 0 ==> *final(self) == *old(self),
            old(self).cursor != 0 ==> remove_at_post(
                *old(self),
                *final(self),
                old(self).cursor - 1,
            ),
            old(self).wf() ==> final(self).wf(),
    {
        if self.cursor == 0 {
            return ;
        }
        let pos = self.cursor - 1;
        self.remove_at(pos);
        proof {
            if old(self).wf() {
                lemma_remove_preserves_wf(*old(self), *self);
            }
        }
    }

    /// Produces the full text as a display string: each line's span in line
    /// order, with every stored line feed normalized to CRLF.  A rendering
    /// transform only — the stored content and offsets are untouched.
    pub fn content(&self) -> (r: String)
        ensures
            r@ == rendered(self.content@, self.lines@),
    {
        let ghost c = self.content@;
        if self.content.len() == 0 {
            proof {
                lemma_rendered_of_empty(c, self.lines@, self.lines@.len() as int);
            }
            return String::new();
        }
        let mut out: Vec<char> = Vec::new();
        let n = self.lines.len();
        let mut i: usize = 0;
        while i < n
            invariant
                i <= n,
                n == self.lines@.len(),
                c == self.content@,
                out@ == rendered_upto(c, self.lines@, i as int),
            decreases n - i,
        {
            let r = self.lines[i];
            let ghost base = out@;
            let cl = self.content.len();
            if r.start < cl {
                let e = if r.end < cl {
                    r.end
                } else {
                    cl - 1
                };
                if r.start <= e {
                    let mut j = r.start;
                    while j <= e
                        invariant
                            r.start <= j <= e + 1,
                            e < cl,
                            cl == self.content@.len(),
                            c == self.content@,
                            out@ == base + c.subrange(r.start as int, j as int),
                        decreases e + 1 - j,
                    {
                        out.push(self.content[j]);
                        proof {
                            assert(out@ =~= base + c.subrange(r.start as int, j + 1));
                        }
                        j += 1;
                    }
                    if self.content[e] == '\n' {
                        let at = out.len() - 1;
                        out.insert(at, '\r');
                    }
                    proof {
                        assert(out@ =~= base + crlf_span(c, r));
                    }
                }
            }
            i += 1;
        }
        chars_to_string(&out)
    }

    /// Inserts one character at the cursor.
    pub fn insert(&mut self, c: char)
        requires
            old(self).inv(),
        ensures
            final(self).inv(),
            insert_at_post(*old(self), *final(self), old(self).cursor as int, c),
            old(self).wf() ==> final(self).wf(),
    {
        let pos = self.cursor;
        self.insert_at(pos, c);
        proof {
            if old(self).wf() {
                lemma_insert_preserves_wf(*old(self), *self, c);
            }
        }
    }
}

/// Rendering an empty store shows nothing, whatever the line table holds.
proof fn lemma_rendered_of_empty(c: Seq<char>, lines: Seq<LineRange>, i: int)
    requires
        c.len() == 0,
    ensures
        rendered_upto(c, lines, i) == Seq::<char>::empty(),
    decreases i,
{
    if i > 0 {
        lemma_rendered_of_empty(c, lines, i - 1);
        assert(rendered_upto(c, lines, i) =~= Seq::<char>::empty());
    }
}

/// CRLF normalization distributes over concatenation.
proof fn lemma_crlf_append(a: Seq<char>, b: Seq<char>)
    ensures
        crlf(a + b) == crlf(a) + crlf(b),
    decreases a.len(),
{
    if a.len() == 0 {
        assert(a + b =~= b);
        assert(crlf(a) + crlf(b) =~= crlf(b));
    } else {
        lemma_crlf_append(a.drop_first(), b);
        assert((a + b).drop_first() =~= a.drop_first() + b);
        assert(crlf(a + b) =~= crlf(a) + crlf(b));
    }
}

/// CRLF normalization leaves a newline-free text unchanged.
proof fn lemma_crlf_no_nl(a: Seq<char>)
    requires
        no_nl(a, 0, a.len() as int),
    ensures
        crlf(a) == a,
    decreases a.len(),
{
    if a.len() > 0 {
        lemma_crlf_no_nl(a.drop_first());
        assert(crlf(a) =~= a);
    }
}

/// Undoing the display normalization restores the original text exactly:
/// dropping each carriage return that stands immediately before a newline
/// inverts inserting one before each newline, for every text.
pub proof fn lemma_decrlf_crlf(c: Seq<char>)
    ensures
        decrlf(crlf(c)) == c,
    decreases c.len(),
{
    if c.len() == 0 {
    } else if c[0] == '\n' {
        lemma_decrlf_crlf(c.drop_first());
        let w = crlf(c);
        assert(w == seq!['\r', '\n'] + crlf(c.drop_first()));
        assert(w.subrange(2, w.len() as int) =~= crlf(c.drop_first()));
        assert(decrlf(w) =~= c);
    } else {
        lemma_decrlf_crlf(c.drop_first());
        let w = crlf(c);
        assert(w == seq![c[0]] + crlf(c.drop_first()));
        let t = crlf(c.drop_first());
        if t.len() > 0 {
            // the tail's first displayed character is never a bare newline,
            // so the head is not dropped by the undo step
            if c.drop_first()[0] == '\n' {
                assert(t[0] == '\r');
            } else {
                assert(t[0] == c.drop_first()[0]);
            }
            assert(w[1] != '\n');
        }
        assert(w.drop_first() =~= t);
        assert(decrlf(w) =~= c);
    }
}

/// Interior line ends grow strictly with the line index.
proof fn lemma_wf_end_monotone(c: Seq<char>, lines: Seq<LineRange>, i: int, j: int)
    requires
        wf_lines(c, lines),
        0 <= i <= j < lines.len() - 1,
    ensures
        i < j ==> lines[i].end < lines[j].end,
    decreases j - i,
{
    if i < j {
        lemma_wf_end_monotone(c, lines, i, j - 1);
        assert(wf_interior(c, lines, j - 1));
        assert(wf_interior(c, lines, j));
    }
}

/// Under the exact line index, the first `i` spans are precisely the
/// characters before line `i`'s start.
proof fn lemma_spans_prefix(c: Seq<char>, lines: Seq<LineRange>, i: int)
    requires
        wf_lines(c, lines),
        0 <= i <= lines.len() - 1,
    ensures
        spans_upto(c, lines, i) == c.subrange(0, lines[i].start as int),
    decreases i,
{
    if i == 0 {
        assert(spans_upto(c, lines, 0) =~= c.subrange(0, 0));
    } else {
        lemma_spans_prefix(c, lines, i - 1);
        assert(wf_interior(c, lines, i - 1));
        let r = lines[i - 1];
        assert(span_chars(c, r) == c.subrange(r.start as int, r.end + 1));
        assert(c.subrange(0, r.start as int) + c.subrange(r.start as int, r.end + 1) =~= c.subrange(
            0,
            r.end + 1,
        ));
    }
}

/// The line table tiles the content exactly: the concatenation of all line
/// spans, in order and terminators included, is the full character store.
/// Together with the adjacency built into `wf_lines` this says the table has
/// no gaps and no overlaps.
pub proof fn lemma_lines_tile_content(c: Seq<char>, lines: Seq<LineRange>)
    requires
        wf_lines(c, lines),
    ensures
        spans_upto(c, lines, lines.len() as int) == c,
{
    let m = lines.len() as int;
    lemma_spans_prefix(c, lines, m - 1);
    let last = lines[m - 1];
    if last.start == c.len() {
        assert(span_chars(c, last) =~= Seq::<char>::empty());
        assert(spans_upto(c, lines, m) =~= c);
    } else {
        assert(span_chars(c, last) == c.subrange(last.start as int, c.len() as int));
        assert(spans_upto(c, lines, m) =~= c);
    }
}

/// Under the exact line index, rendering the first `i` lines shows exactly
/// the characters before line `i`'s start, CRLF-normalized.
proof fn lemma_rendered_prefix(c: Seq<char>, lines: Seq<LineRange>, i: int)
    requires
        wf_lines(c, lines),
        0 <= i <= lines.len() - 1,
    ensures
        rendered_upto(c, lines, i) == crlf(c.subrange(0, lines[i].start as int)),
    decreases i,
{
    if i == 0 {
        assert(c.subrange(0, 0) =~= Seq::<char>::empty());
        assert(rendered_upto(c, lines, 0) =~= crlf(c.subrange(0, 0)));
    } else {
        lemma_rendered_prefix(c, lines, i - 1);
        assert(wf_interior(c, lines, i - 1));
        let r = lines[i - 1];
        let s = span_chars(c, r);
        assert(s == c.subrange(r.start as int, r.end + 1));
        let t = c.subrange(r.start as int, r.end as int);
        assert(s.last() == '\n');
        assert(s.drop_last() =~= t);
        assert(s =~= t + seq!['\n']);
        lemma_crlf_no_nl(t);
        lemma_crlf_append(t, seq!['\n']);
        assert(seq!['\n'].drop_first() =~= Seq::<char>::empty());
        assert(crlf(Seq::<char>::empty()) =~= Seq::<char>::empty());
        assert(crlf(seq!['\n']) =~= seq!['\r', '\n']);
        assert(crlf_span(c, r) == crlf(s));
        lemma_crlf_append(c.subrange(0, r.start as int), s);
        assert(c.subrange(0, r.start as int) + s =~= c.subrange(0, r.end + 1));
        assert(rendered_upto(c, lines, i) == crlf(c.subrange(0, lines[i].start as int)));
    }
}

/// The displayed text is the stored text with every line feed shown as
/// CRLF; undoing that normalization restores the stored text exactly.  In
/// particular a buffer built from any text displays it faithfully.
pub proof fn lemma_rendered_round_trip(c: Seq<char>, lines: Seq<LineRange>)
    requires
        wf_lines(c, lines),
    ensures
        rendered(c, lines) == crlf(c),
        decrlf(rendered(c, lines)) == c,
{
    let m = lines.len() as int;
    lemma_rendered_prefix(c, lines, m - 1);
    let last = lines[m - 1];
    if last.start == c.len() {
        assert(span_chars(c, last) =~= Seq::<char>::empty());
        assert(crlf_span(c, last) =~= Seq::<char>::empty());
        assert(c.subrange(0, last.start as int) =~= c);
        assert(rendered(c, lines) =~= crlf(c));
    } else {
        let s = span_chars(c, last);
        assert(s == c.subrange(last.start as int, c.len() as int));
        assert(no_nl(s, 0, s.len() as int));
        lemma_crlf_no_nl(s);
        assert(s.len() > 0 ==> s.last() != '\n');
        assert(crlf_span(c, last) == s);
        lemma_crlf_append(c.subrange(0, last.start as int), s);
        assert(c.subrange(0, last.start as int) + s =~= c);
        assert(rendered(c, lines) =~= crlf(c));
    }
    lemma_decrlf_crlf(c);
}

/// The line table a scan produces is exact: starting a scan at `i` with the
/// current line open since `s` (and no newline between them yet) yields a
/// table whose first line starts at `s`, whose interior lines each end at
/// their own newline, and whose last line reaches the end of the store — a
/// fresh sentinel when the text ends with a newline.
proof fn lemma_lines_at_wf(c: Seq<char>, s: int, i: int)
    ensures
        0 <= s <= i <= c.len() <= usize::MAX && no_nl(c, s, i) ==> ({
            let ls = lines_at(c, s, i);
            &&& ls.len() >= 1
            &&& ls[0].start == s
            &&& forall|k: int| 0 <= k < ls.len() - 1 ==> #[trigger] wf_interior(c, ls, k)
            &&& {
                let last = ls[ls.len() - 1];
                if last.start == c.len() {
                    last.end == c.len()
                } else {
                    &&& last.start < c.len()
                    &&& last.end + 1 == c.len()
                    &&& no_nl(c, last.start as int, c.len() as int)
                }
            }
        }),
    decreases c.len() - i,
{
    if 0 <= s <= i <= c.len() <= usize::MAX && no_nl(c, s, i) {
        let ls = lines_at(c, s, i);
        if i >= c.len() {
        } else if c[i] == '\n' {
            lemma_lines_at_wf(c, i + 1, i + 1);
            let tail = lines_at(c, i + 1, i + 1);
            assert(ls == seq![lr(s, i)] + tail);
            assert forall|k: int| 0 <= k < ls.len() - 1 implies #[trigger] wf_interior(c, ls, k) by {
                if k == 0 {
                    assert(ls[1] == tail[0]);
                } else {
                    assert(wf_interior(c, tail, k - 1));
                    assert(ls[k] == tail[k - 1]);
                    assert(ls[k + 1] == tail[k]);
                }
            }
            assert(ls[ls.len() - 1] == tail[tail.len() - 1]);
        } else {
            lemma_lines_at_wf(c, s, i + 1);
            assert(no_nl(c, s, i + 1));
        }
    }
}

/// Under the tracking invariant, resynchronizing to the end of the store
/// lands on the last line (whether or not a sentinel line reaches it).
proof fn lemma_synced_at_end(c: Seq<char>, lines: Seq<LineRange>)
    requires
        wf_lines(c, lines),
    ensures
        synced_line(lines, lines.len() - 1, c.len() as int) == lines.len() - 1,
{
    let n = c.len() as int;
    let m = lines.len() as int;
    assert forall|k: int| 0 <= k < m - 1 implies lines[k].end < n by {
        assert(wf_interior(c, lines, k));
    }
    lemma_first_line_reaching_from(lines, n, m - 1);
    assert(first_line_reaching(lines, n, m) == None::<int>);
}

/// Under the tracking invariant, resynchronizing to the offset of the last
/// character lands on the last line, or on the line before the trailing
/// sentinel when there is one.
proof fn lemma_synced_at_last_char(c: Seq<char>, lines: Seq<LineRange>)
    requires
        wf_lines(c, lines),
        c.len() >= 1,
    ensures
        ({
            let l = synced_line(lines, lines.len() - 1, c.len() - 1);
            if lines[lines.len() - 1].start == c.len() {
                l == lines.len() - 2
            } else {
                l == lines.len() - 1
            }
        }),
{
    let n = c.len() as int;
    let m = lines.len() as int;
    let last = lines[m - 1];
    if last.start == n {
        assert(m >= 2) by {
            assert(lines[0].start == 0);
        }
        assert(wf_interior(c, lines, m - 2));
        assert(lines[m - 2].end == n - 1);
        assert forall|k: int| 0 <= k < m - 2 implies lines[k].end < n - 1 by {
            lemma_wf_end_monotone(c, lines, k, m - 2);
        }
        lemma_first_line_reaching_from(lines, n - 1, m - 2);
        assert(first_line_reaching(lines, n - 1, m - 2) == Some(m - 2));
    } else {
        assert(last.end == n - 1);
        assert forall|k: int| 0 <= k < m - 1 implies lines[k].end < n - 1 by {
            assert(wf_interior(c, lines, k));
            if k < m - 2 {
                lemma_wf_end_monotone(c, lines, k, m - 2);
                assert(wf_interior(c, lines, m - 2));
            }
        }
        lemma_first_line_reaching_from(lines, n - 1, m - 1);
        assert(first_line_reaching(lines, n - 1, m - 1) == Some(m - 1));
    }
}

/// Inserting at the cursor preserves the tracking invariant: a fresh
/// character extends the last line, a fresh newline closes it and opens a
/// new sentinel, and the table keeps indexing the content exactly.
pub proof fn lemma_insert_preserves_wf(pre: Buffer, post: Buffer, ch: char)
    requires
        pre.wf(),
        insert_at_post(pre, post, pre.cursor as int, ch),
    ensures
        post.wf(),
{
    let c = pre.content@;
    let n = c.len() as int;
    let lines = pre.lines@;
    let m = lines.len() as int;
    lemma_synced_at_end(c, lines);
    let l = synced_line(lines, pre.line as int, n);
    assert(l == m - 1);
    let c2 = post.content@;
    assert(c2 =~= c.push(ch)) by {
        assert(c.subrange(0, n) =~= c);
        assert(c.subrange(n, n) =~= Seq::<char>::empty());
        assert(c.subrange(0, n).push(ch) + c.subrange(n, n) =~= c.push(ch));
    }
    let last = lines[m - 1];
    if ch == '\n' {
        let closed = lines.update(m - 1, lr(last.start as int, n));
        assert(closed.len() == m);
        let grown = closed.insert(m, lr(n + 1, n + 1));
        assert(grown =~= closed.push(lr(n + 1, n + 1))) by {
            assert(closed.subrange(0, m) =~= closed);
            assert(closed.subrange(m, m) =~= Seq::<LineRange>::empty());
            assert(closed.subrange(0, m).push(lr(n + 1, n + 1)) + closed.subrange(m, m)
                =~= closed.push(lr(n + 1, n + 1)));
        }
        assert(post.lines@ =~= grown) by {
            assert(nl_inserted_lines(lines, l, n) =~= shifted_lines(grown, l + 2));
            assert(shifted_lines(grown, l + 2) =~= grown);
        }
        assert forall|i: int| 0 <= i < m implies #[trigger] wf_interior(c2, post.lines@, i) by {
            if i < m - 1 {
                assert(wf_interior(c, lines, i));
            }
        }
        assert(post.wf());
    } else {
        assert(post.lines@ == lines.update(m - 1, lr(last.start as int, n)));
        assert forall|i: int| 0 <= i < m - 1 implies #[trigger] wf_interior(c2, post.lines@, i) by {
            assert(wf_interior(c, lines, i));
        }
        assert(post.wf());
    }
}

/// Deleting before the cursor preserves the tracking invariant: removing an
/// ordinary character pulls the last line's end back, removing the trailing
/// newline merges the sentinel away, and the table keeps indexing the
/// content exactly.
pub proof fn lemma_remove_preserves_wf(pre: Buffer, post: Buffer)
    requires
        pre.wf(),
        pre.cursor >= 1,
        remove_at_post(pre, post, pre.cursor - 1),
    ensures
        post.wf(),
{
    let c = pre.content@;
    let n = c.len() as int;
    let lines = pre.lines@;
    let m = lines.len() as int;
    let pos = n - 1;
    lemma_synced_at_last_char(c, lines);
    let l = synced_line(lines, pre.line as int, pos);
    let last = lines[m - 1];
    let c2 = post.content@;
    assert(c2 =~= c.drop_last()) by {
        assert(c.subrange(0, pos) + c.subrange(pos + 1, n) =~= c.drop_last());
    }
    if last.start == n {
        // a trailing sentinel exists, so the last stored character is the
        // newline that ends the line before it
        assert(m >= 2) by {
            assert(lines[0].start == 0);
        }
        assert(l == m - 2);
        assert(wf_interior(c, lines, m - 2));
        assert(lines[m - 2].end == pos);
        assert(c[pos] == '\n');
        let s = shrunk_lines(lines, l, pos);
        assert(s.len() == m);
        let sl = s[l];
        let sn = s[l + 1];
        assert(post.lines@ == nl_removed_lines(lines, l, pos));
        let merged_end = if sl.end < sn.end {
            sn.end as int
        } else {
            sl.end as int
        };
        let fixed_end = if merged_end == pos && merged_end != 0 {
            merged_end - 1
        } else {
            merged_end
        };
        let post_lines = s.update(l, lr(sl.start as int, fixed_end)).remove(l + 1);
        assert(post.lines@ == post_lines);
        assert(post_lines =~= s.subrange(0, l).push(lr(sl.start as int, fixed_end))) by {
            s.update(l, lr(sl.start as int, fixed_end)).remove_ensures(l + 1);
            assert(post_lines =~= s.update(l, lr(sl.start as int, fixed_end)).subrange(0, l + 1));
        }
        assert(post_lines.len() == m - 1);
        // the merged last line: its start is the old current line's start,
        // its end lands exactly one short of the new store length
        assert forall|i: int| 0 <= i < m - 2 implies #[trigger] wf_interior(c2, post_lines, i) by {
            assert(wf_interior(c, lines, i));
            if i < m - 2 - 1 {
                assert(wf_interior(c, lines, i + 1));
            }
            lemma_wf_end_monotone(c, lines, i, m - 2);
        }
        assert(post.wf());
    } else {
        // no sentinel: the last line covers the final character, which is
        // therefore not a newline
        assert(l == m - 1);
        assert(last.end == pos);
        assert(c[pos] != '\n');
        assert(post.lines@ == lines.update(l, lr(last.start as int, dec1(last.end as int))));
        assert forall|i: int| 0 <= i < m - 1 implies #[trigger] wf_interior(c2, post.lines@, i) by {
            assert(wf_interior(c, lines, i));
            if i < m - 2 {
                assert(wf_interior(c, lines, i + 1));
            } else {
                assert(lines[m - 1].start == lines[i].end + 1);
            }
        }
        assert(post.wf());
    }
}

/// Stepping past misses does not change which line is found first: if every
/// line before `i` ends short of `pos`, the search from 0 and the search
/// from `i` agree.
proof fn lemma_first_line_reaching_from(lines: Seq<LineRange>, pos: int, i: int)
    requires
        0 <= i <= lines.len(),
        forall|k: int| 0 <= k < i ==> lines[k].end < pos,
    ensures
        first_line_reaching(lines, pos, 0) == first_line_reaching(lines, pos, i),
    decreases i,
{
    if i > 0 {
        lemma_first_line_reaching_from(lines, pos, i - 1);
        assert(lines[i - 1].end < pos);
    }
}

} // verus!
