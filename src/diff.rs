//! The parsed form of a unified diff and the text it renders to.

use vstd::prelude::*;
use vstd::string::*;
use crate::text::{decimal, push_decimal};

verus! {

/// A whole diff: an optional leading commit line and the file deltas in input order.
#[derive(Debug, Clone)]
pub struct Diff {
    pub commit: Option<String>,
    pub deltas: Vec<Delta>,
}

/// The change to one file: its verbatim header block, the two paths named
/// by its `---` and `+++` lines, and its hunks in input order.
#[derive(Debug, Clone, PartialEq, Eq, Hash)]
pub struct Delta {
    pub file_header: String,
    pub old_file: String,
    pub new_file: String,
    pub hunks: Vec<Hunk>,
}

/// One changed region, carrying a copy of its file's header so that it can
/// be rendered as a patch of its own.
#[derive(Debug, Clone, PartialEq, Eq, Hash)]
pub struct Hunk {
    pub file_header: String,
    pub old_file: String,
    pub new_file: String,
    pub old_start: u32,
    pub old_lines: u32,
    pub new_start: u32,
    pub new_lines: u32,
    /// The text after the closing `@@` on the range line, without its line break.
    pub header_suffix: String,
    /// The body lines, verbatim.
    pub content: String,
}

/// `@@ -a,b +c,d @@` for the given numbers.
pub open spec fn range_line(a: nat, b: nat, c: nat, d: nat) -> Seq<char> {
    seq!['@', '@', ' ', '-'] + decimal(a) + seq![','] + decimal(b) + seq![' ', '+'] + decimal(c)
        + seq![','] + decimal(d) + seq![' ', '@', '@']
}

impl Hunk {
    /// The bare range header.
    pub open spec fn range_header(&self) -> Seq<char> {
        range_line(
            self.old_start as nat,
            self.old_lines as nat,
            self.new_start as nat,
            self.new_lines as nat,
        )
    }

    /// The range header followed by the text that trailed it.
    pub open spec fn full_header(&self) -> Seq<char> {
        self.range_header() + self.header_suffix@
    }

    /// The hunk as it stands in a diff: its header line, then its body.
    pub open spec fn text(&self) -> Seq<char> {
        self.full_header() + seq!['\n'] + self.content@
    }

    /// The hunk as a patch of its own: the file header, then the hunk.
    pub open spec fn patch_text(&self) -> Seq<char> {
        self.file_header@ + self.text()
    }
}

impl Hunk {
    /// Every field of the two hunks holds the same value.
    pub open spec fn same_as(&self, o: &Hunk) -> bool {
        &&& self.file_header@ == o.file_header@
        &&& self.old_file@ == o.old_file@
        &&& self.new_file@ == o.new_file@
        &&& self.old_start == o.old_start
        &&& self.old_lines == o.old_lines
        &&& self.new_start == o.new_start
        &&& self.new_lines == o.new_lines
        &&& self.header_suffix@ == o.header_suffix@
        &&& self.content@ == o.content@
    }
}

/// The hunks' texts, one after another.
pub open spec fn hunks_text(hs: Seq<Hunk>) -> Seq<char>
    decreases hs.len(),
{
    if hs.len() == 0 {
        Seq::empty()
    } else {
        hunks_text(hs.drop_last()) + hs.last().text()
    }
}

impl Delta {
    /// The delta as it stands in a diff: its header, then its hunks.
    pub open spec fn text(&self) -> Seq<char> {
        self.file_header@ + hunks_text(self.hunks@)
    }
}

/// The deltas' texts, one after another.
pub open spec fn deltas_text(ds: Seq<Delta>) -> Seq<char>
    decreases ds.len(),
{
    if ds.len() == 0 {
        Seq::empty()
    } else {
        deltas_text(ds.drop_last()) + ds.last().text()
    }
}

impl Diff {
    /// The diff body: every delta's text in order, the commit line left out.
    pub open spec fn text(&self) -> Seq<char> {
        deltas_text(self.deltas@)
    }
}

fn push_range_header(out: &mut String, h: &Hunk)
    ensures
        final(out)@ == old(out)@ + h.range_header(),
{
    proof {
        reveal_strlit("@@ -");
        reveal_strlit(",");
        reveal_strlit(" +");
        reveal_strlit(" @@");
    }
    let ghost start = out@;
    out.append("@@ -");
    push_decimal(out, h.old_start);
    out.append(",");
    push_decimal(out, h.old_lines);
    out.append(" +");
    push_decimal(out, h.new_start);
    out.append(",");
    push_decimal(out, h.new_lines);
    out.append(" @@");
    assert(out@ =~= start + h.range_header());
}

fn push_hunk(out: &mut String, h: &Hunk)
    ensures
        final(out)@ == old(out)@ + h.text(),
{
    proof {
        reveal_strlit("\n");
    }
    let ghost start = out@;
    push_range_header(out, h);
    out.append(h.header_suffix.as_str());
    out.append("\n");
    out.append(h.content.as_str());
    assert(out@ =~= start + h.text());
}

fn push_delta(out: &mut String, d: &Delta)
    ensures
        final(out)@ == old(out)@ + d.text(),
{
    let ghost start = out@;
    out.append(d.file_header.as_str());
    let mut i: usize = 0;
    while i < d.hunks.len()
        invariant
            i <= d.hunks@.len(),
            out@ == start + d.file_header@ + hunks_text(d.hunks@.subrange(0, i as int)),
        decreases d.hunks@.len() - i,
    {
        push_hunk(out, &d.hunks[i]);
        proof {
            let hs = d.hunks@.subrange(0, i + 1);
            assert(hs.drop_last() =~= d.hunks@.subrange(0, i as int));
        }
        i = i + 1;
    }
    assert(d.hunks@.subrange(0, i as int) =~= d.hunks@);
}

impl Hunk {
    /// The bare range header `@@ -a,b +c,d @@`.
    pub fn display_header(&self) -> (r: String)
        ensures
            r@ == self.range_header(),
    {
        let mut out = String::new();
        push_range_header(&mut out, self);
        assert(out@ =~= self.range_header());
        out
    }

    /// The range header followed by the text that trailed it on its line.
    pub fn header(&self) -> (r: String)
        ensures
            r@ == self.full_header(),
    {
        let mut out = String::new();
        push_range_header(&mut out, self);
        out.append(self.header_suffix.as_str());
        assert(out@ =~= self.full_header());
        out
    }

    /// The hunk as a standalone patch: file header, header line, body.
    pub fn format_patch(&self) -> (r: String)
        ensures
            r@ == self.patch_text(),
    {
        let mut out = String::new();
        out.append(self.file_header.as_str());
        push_hunk(&mut out, self);
        assert(out@ =~= self.patch_text());
        out
    }

    /// The hunk as it stands in a diff: header line, then body.
    pub fn to_string(&self) -> (r: String)
        ensures
            r@ == self.text(),
    {
        let mut out = String::new();
        push_hunk(&mut out, self);
        assert(out@ =~= self.text());
        out
    }
}

impl Delta {
    /// The delta as it stands in a diff: file header, then every hunk.
    pub fn to_string(&self) -> (r: String)
        ensures
            r@ == self.text(),
    {
        let mut out = String::new();
        push_delta(&mut out, self);
        assert(out@ =~= self.text());
        out
    }
}

impl Diff {
    /// The diff body: every delta in order, the commit line left out.
    pub fn to_string(&self) -> (r: String)
        ensures
            r@ == self.text(),
    {
        let mut out = String::new();
        let mut i: usize = 0;
        while i < self.deltas.len()
            invariant
                i <= self.deltas@.len(),
                out@ == deltas_text(self.deltas@.subrange(0, i as int)),
            decreases self.deltas@.len() - i,
        {
            push_delta(&mut out, &self.deltas[i]);
            proof {
                let ds = self.deltas@.subrange(0, i + 1);
                assert(ds.drop_last() =~= self.deltas@.subrange(0, i as int));
            }
            i = i + 1;
        }
        assert(self.deltas@.subrange(0, i as int) =~= self.deltas@);
        out
    }
}

} // verus!
