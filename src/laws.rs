//! Laws that relate parsing and rendering.

use vstd::prelude::*;
use crate::text::{starts_with, diff_marker};
use crate::diff::{Diff, Delta, Hunk, hunks_text, deltas_text};
use crate::grammar::closed;
use crate::parser::lemma_commit_line;

verus! {

/// A hunk of a well-formed delta renders, as a patch of its own, to the
/// delta's file header, the hunk's header line with its trailing text, a
/// line break, and the hunk's body.
pub proof fn lemma_hunk_patch_of_delta(d: Delta, i: int)
    requires
        d.well_formed(),
        0 <= i < d.hunks@.len(),
    ensures
        d.hunks@[i].patch_text() == d.file_header@ + d.hunks@[i].full_header() + seq!['\n'] + d.hunks@[i].content@,
{
    let h = d.hunks@[i];
    assert(h.file_header@ == d.file_header@);
    assert(h.patch_text() =~= d.file_header@ + h.full_header() + seq!['\n'] + h.content@);
}

/// A hunk of a grammatical delta, rendered as a patch of its own, is the
/// text of a grammatical diff with no commit line and one delta, which
/// keeps the file header and paths and holds that hunk alone; so parsing
/// that patch succeeds.
pub proof fn lemma_hunk_patch_reparses(d: Delta, i: int, single: Diff)
    requires
        d.grammatical(),
        0 <= i < d.hunks@.len(),
        single.commit is None,
        single.deltas@.len() == 1,
        single.deltas@[0].file_header@ == d.file_header@,
        single.deltas@[0].old_file@ == d.old_file@,
        single.deltas@[0].new_file@ == d.new_file@,
        single.deltas@[0].hunks@ == seq![d.hunks@[i]],
    ensures
        single.grammatical(),
        single.commit_text() + single.text() == d.hunks@[i].patch_text(),
{
    let one = single.deltas@[0];
    let h = d.hunks@[i];
    assert(h.well_formed() && h.file_header@ == d.file_header@);
    assert(closed(h.content@));
    assert(one.hunks@[0] == h);
    assert(one.well_formed());
    assert(d.has_marker_lines());
    assert(one.has_marker_lines());
    assert(one.grammatical());
    assert(single.grammatical());
    assert(one.hunks@.drop_last() =~= Seq::<Hunk>::empty());
    assert(hunks_text(Seq::<Hunk>::empty()) =~= Seq::<char>::empty());
    assert(hunks_text(one.hunks@) =~= h.text());
    assert(single.deltas@.drop_last() =~= Seq::<Delta>::empty());
    assert(deltas_text(Seq::<Delta>::empty()) =~= Seq::<char>::empty());
    assert(single.text() =~= one.text());
    assert(single.commit_text() + single.text() =~= h.patch_text());
}

/// Round trip: the text of a grammatical diff without a commit line opens
/// no commit line, so a parse result that reproduces it, as `Diff::parse`
/// ensures, has no commit and renders back to exactly that text.
pub proof fn lemma_round_trip(d: Diff, r: Diff)
    requires
        d.grammatical(),
        d.commit is None,
        r.commit_text() + r.text() == d.text(),
        r.commit is Some <==> (d.text().len() > 0 && !starts_with(d.text(), diff_marker())),
    ensures
        r.commit is None,
        r.text() == d.text(),
{
    assert(d.commit_text() + d.text() =~= d.text());
    lemma_commit_line(d.text(), d);
    assert(r.commit_text() + r.text() =~= r.text());
}

} // verus!
