//! The shape of unified-diff text, stated over the parsed form: what a
//! well-formed value is, what a grammatical one is (one whose text the
//! parser reads back), and where its parts stand in a text.

use vstd::prelude::*;
use crate::text::{starts_with, diff_marker, decimal, is_digit, digits_value};
use crate::diff::{Diff, Delta, Hunk, hunks_text, deltas_text};

verus! {

/// The second prefix of a hunk header: `@@`.
pub open spec fn hunk_marker() -> Seq<char> {
    seq!['@', '@']
}

/// The old-file marker line's prefix: `--- `.
pub open spec fn old_marker() -> Seq<char> {
    seq!['-', '-', '-', ' ']
}

/// The new-file marker line's prefix: `+++ `.
pub open spec fn new_marker() -> Seq<char> {
    seq!['+', '+', '+', ' ']
}

/// The two marker lines that close a file header naming `old` and `new`.
pub open spec fn marker_lines(old: Seq<char>, new: Seq<char>) -> Seq<char> {
    old_marker() + old + seq!['\n'] + new_marker() + new + seq!['\n']
}

pub open spec fn ends_with(s: Seq<char>, p: Seq<char>) -> bool {
    p.len() <= s.len() && s.subrange(s.len() - p.len(), s.len() as int) == p
}

/// A line of `s` starts at `i` and begins with `p`.
pub open spec fn opens_at(s: Seq<char>, i: int, p: Seq<char>) -> bool {
    0 <= i < s.len() && (i == 0 || s[i - 1] == '\n') && starts_with(s.skip(i), p)
}

/// No line of `s` that starts at or after `from` opens a hunk or a delta.
pub open spec fn opens_nothing(s: Seq<char>, from: int) -> bool {
    forall|i: int|
        from <= i ==> !#[trigger] opens_at(s, i, hunk_marker()) && !opens_at(s, i, diff_marker())
}

impl Hunk {
    /// Its header line holds no line break of its own, and no line of its
    /// body opens a hunk or a delta.
    pub open spec fn well_formed(&self) -> bool {
        &&& !self.header_suffix@.contains('\n')
        &&& opens_nothing(self.content@, 0)
    }
}

impl Delta {
    /// The header opens with `diff --git ` and no later line of it opens a
    /// hunk or a delta; every hunk carries this delta's
    /// header and paths; and the paths are those of the header's closing
    /// marker lines, or, for a header without them, empty and without hunks.
    pub open spec fn well_formed(&self) -> bool {
        &&& starts_with(self.file_header@, diff_marker())
        &&& opens_nothing(self.file_header@, 1)
        &&& forall|i: int|
            0 <= i < self.hunks@.len() ==> {
                &&& (#[trigger] self.hunks@[i]).well_formed()
                &&& self.hunks@[i].file_header@ == self.file_header@
                &&& self.hunks@[i].old_file@ == self.old_file@
                &&& self.hunks@[i].new_file@ == self.new_file@
            }
        &&& {
            ||| ends_with(self.file_header@, marker_lines(self.old_file@, self.new_file@))
            ||| (self.old_file@.len() == 0 && self.new_file@.len() == 0 && self.hunks@.len() == 0)
        }
    }
}

impl Diff {
    /// Every delta is well formed, and the commit line holds no line break.
    pub open spec fn well_formed(&self) -> bool {
        &&& forall|i: int| 0 <= i < self.deltas@.len() ==> (#[trigger] self.deltas@[i]).well_formed()
        &&& match self.commit {
            Some(c) => !c@.contains('\n'),
            None => true,
        }
    }

    /// The commit line as it stood in the input, line break included.
    pub open spec fn commit_text(&self) -> Seq<char> {
        match self.commit {
            Some(c) => c@.push('\n'),
            None => Seq::empty(),
        }
    }
}

/// The number `v`, written in decimal, stands in `t` from `i` to `k`, and no
/// digit follows it.
pub open spec fn number_at(t: Seq<char>, i: int, v: nat, k: int) -> bool {
    &&& 0 <= i < k <= t.len()
    &&& t.subrange(i, k) == decimal(v)
    &&& (k == t.len() || !is_digit(t[k]))
}

/// The header line of `h`, line break included, stands in `t` at `q`.
pub open spec fn header_line_at(t: Seq<char>, q: int, h: Hunk) -> bool {
    let line = h.full_header().push('\n');
    &&& 0 <= q
    &&& q + line.len() <= t.len()
    &&& t.subrange(q, q + line.len()) == line
    &&& !h.header_suffix@.contains('\n')
}

/// Where the pieces of a hunk header line end, counted from its start:
/// `@@ -`, the old start, `,`, the old count, ` +`, the new start, `,`,
/// the new count, ` @@`.
pub open spec fn header_marks(h: Hunk) -> Seq<int> {
    let x2: int = 4 + decimal(h.old_start as nat).len() as int;
    let x4: int = x2 + 1 + decimal(h.old_lines as nat).len() as int;
    let x6: int = x4 + 2 + decimal(h.new_start as nat).len() as int;
    let x8: int = x6 + 1 + decimal(h.new_lines as nat).len() as int;
    seq![4int, x2, x2 + 1, x4, x4 + 2, x6, x6 + 1, x8, x8 + 3]
}

/// The text ends at `e`, or a line that opens a hunk or a delta starts there.
pub open spec fn boundary_at(t: Seq<char>, e: int) -> bool {
    e == t.len() || starts_with(t.skip(e), diff_marker()) || starts_with(t.skip(e), hunk_marker())
}

/// `s` is empty or ends with a line break.
pub open spec fn closed(s: Seq<char>) -> bool {
    s.len() == 0 || s.last() == '\n'
}

/// The text of the well-formed hunk `h` stands in `t` at `q`, and it ends
/// where the text does or where a line break is followed by the next hunk
/// or delta.
pub open spec fn hunk_at(t: Seq<char>, q: int, h: Hunk) -> bool {
    let e = q + h.text().len();
    &&& 0 <= q
    &&& e <= t.len()
    &&& t.subrange(q, e) == h.text()
    &&& h.well_formed()
    &&& (closed(h.content@) || e == t.len())
    &&& boundary_at(t, e)
}

/// No line of `s` begins with `--- `.
pub open spec fn no_old_marker_line(s: Seq<char>) -> bool {
    forall|i: int| !#[trigger] opens_at(s, i, old_marker())
}

/// The header `h`, with paths free of line breaks, closes with the marker
/// lines of `old` and `new`, after a line break, and no line before them
/// begins with `--- `.
pub open spec fn marker_shape(h: Seq<char>, old: Seq<char>, new: Seq<char>) -> bool {
    let m = marker_lines(old, new);
    &&& ends_with(h, m)
    &&& !old.contains('\n')
    &&& !new.contains('\n')
    &&& h.len() > m.len()
    &&& h[h.len() - m.len() - 1] == '\n'
    &&& no_old_marker_line(h.subrange(0, h.len() - m.len()))
}

impl Delta {
    /// The header closes with the marker lines of the delta's paths.
    pub open spec fn has_marker_lines(&self) -> bool {
        marker_shape(self.file_header@, self.old_file@, self.new_file@)
    }

    /// The header either has marker lines, or holds no line that begins
    /// with `--- ` and ends with a line break, with empty paths and no
    /// hunks; every hunk body ends with a line break.
    pub open spec fn grammatical(&self) -> bool {
        &&& self.well_formed()
        &&& forall|i: int| 0 <= i < self.hunks@.len() ==> closed((#[trigger] self.hunks@[i]).content@)
        &&& {
            ||| self.has_marker_lines()
            ||| (self.old_file@.len() == 0 && self.new_file@.len() == 0 && self.hunks@.len() == 0
                && closed(self.file_header@) && no_old_marker_line(self.file_header@))
        }
    }

    /// Every field of the two deltas holds the same value.
    pub open spec fn same_as(&self, o: &Delta) -> bool {
        &&& self.file_header@ == o.file_header@
        &&& self.old_file@ == o.old_file@
        &&& self.new_file@ == o.new_file@
        &&& self.hunks@.len() == o.hunks@.len()
        &&& forall|i: int| 0 <= i < self.hunks@.len() ==> (#[trigger] self.hunks@[i]).same_as(&o.hunks@[i])
    }
}

/// The text of the grammatical delta `d` stands in `t` at `start`, and the
/// text ends there or the next delta follows.
pub open spec fn delta_at(t: Seq<char>, start: int, d: Delta) -> bool {
    let e = start + d.text().len();
    &&& 0 <= start
    &&& e <= t.len()
    &&& t.subrange(start, e) == d.text()
    &&& d.grammatical()
    &&& (e == t.len() || starts_with(t.skip(e), diff_marker()))
}

/// How long the lines of a delta's header before its marker lines are:
/// the whole header where it has none.
pub open spec fn lead_len(d: Delta) -> int {
    if d.has_marker_lines() {
        d.file_header@.len() - marker_lines(d.old_file@, d.new_file@).len()
    } else {
        d.file_header@.len() as int
    }
}

/// Where the `k`-th hunk of a delta that stands in `t` at `start` begins.
pub open spec fn hunk_offset(d: Delta, start: int, k: int) -> int {
    start + d.file_header@.len() + hunks_text(d.hunks@.subrange(0, k)).len()
}

impl Diff {
    /// Every delta is grammatical, and the commit line holds no line break
    /// and does not open a delta.
    pub open spec fn grammatical(&self) -> bool {
        &&& forall|i: int| 0 <= i < self.deltas@.len() ==> (#[trigger] self.deltas@[i]).grammatical()
        &&& match self.commit {
            Some(c) => !c@.contains('\n') && !starts_with(c@, diff_marker()),
            None => true,
        }
    }
}

/// Where the `k`-th delta of `d` begins, in a text whose body starts at `body`.
pub open spec fn delta_offset(d: Diff, body: int, k: int) -> int {
    body + deltas_text(d.deltas@.subrange(0, k)).len()
}

impl Delta {
    /// The header ends with a line break and either closes with marker
    /// lines or holds no `--- ` line and no hunk; every hunk body but the
    /// last ends with a line break, so each hunk starts a line.
    pub open spec fn aligned(&self) -> bool {
        &&& closed(self.file_header@)
        &&& (self.has_marker_lines() || (no_old_marker_line(self.file_header@) && self.hunks@.len() == 0))
        &&& forall|j: int| 0 <= j < self.hunks@.len() - 1 ==> closed((#[trigger] self.hunks@[j]).content@)
    }

    /// The delta's text ends with a line break.
    pub open spec fn closed_at_end(&self) -> bool {
        self.hunks@.len() == 0 || closed(self.hunks@.last().content@)
    }
}

impl Diff {
    /// The two diffs have the same commit line and, delta by delta, the
    /// same fields.
    pub open spec fn same_as(&self, o: &Diff) -> bool {
        &&& (self.commit is Some <==> o.commit is Some)
        &&& (self.commit is Some ==> self.commit->0@ == o.commit->0@)
        &&& self.deltas@.len() == o.deltas@.len()
        &&& forall|i: int| 0 <= i < self.deltas@.len() ==> (#[trigger] self.deltas@[i]).same_as(&o.deltas@[i])
    }

    /// Every delta is aligned, and every delta but the last ends with a
    /// line break, so each delta starts a line.
    pub open spec fn aligned(&self) -> bool {
        forall|i: int|
            0 <= i < self.deltas@.len() ==> (#[trigger] self.deltas@[i]).aligned() && (i < self.deltas@.len() - 1
                ==> self.deltas@[i].closed_at_end())
    }
}

/// A run of digits starts at `i` with a nonzero digit, and reaches a value
/// that does not fit in a `u32`.
pub open spec fn oversized_at(t: Seq<char>, i: int) -> bool {
    exists|k: int|
        0 <= i < k <= t.len() && t[i] != '0' && (forall|j: int| i <= j < k ==> is_digit(#[trigger] t[j]))
            && digits_value(#[trigger] t.subrange(i, k)) > u32::MAX
}

/// Somewhere in `t` stands such a run.
pub open spec fn oversized_number_in(t: Seq<char>) -> bool {
    exists|i: int| oversized_at(t, i)
}

} // verus!
