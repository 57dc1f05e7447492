//! Numbers shown to the user and the stored positions they stand for.
//!
//! Listings number the visible entries from 1: all of them with `show_all`,
//! otherwise those not marked complete. Editing and completing take such a
//! number and act on the entry it was shown for.

use vstd::prelude::*;
use crate::entry::{complete_tag, is_complete, is_done, Entry, EntryView};
use crate::store::entry_views;
use crate::text::views;

verus! {

/// The stored positions of the visible entries of `s`, in order.
pub open spec fn visible_positions(s: Seq<EntryView>, show_all: bool) -> Seq<usize>
    decreases s.len(),
{
    if s.len() == 0 {
        Seq::empty()
    } else if show_all || !is_done(s.last()) {
        visible_positions(s.drop_last(), show_all).push((s.len() - 1) as usize)
    } else {
        visible_positions(s.drop_last(), show_all)
    }
}

/// A number that names no visible entry: it is 0 or beyond the count of
/// visible entries.
#[derive(Clone, Copy, PartialEq, Eq, Structural, Debug)]
pub struct IndexOutOfRange {
    /// The number that was asked for.
    pub index: usize,
    /// How many entries are visible.
    pub visible: usize,
}

/// The outcome of looking up the number `index` among the visible entries of
/// `s`.
pub open spec fn resolved(s: Seq<EntryView>, show_all: bool, index: usize) -> Result<
    usize,
    IndexOutOfRange,
> {
    let v = visible_positions(s, show_all);
    if 1 <= index <= v.len() {
        Ok(v[index - 1])
    } else {
        Err(IndexOutOfRange { index, visible: v.len() as usize })
    }
}

/// The positions, within the full collection, of the entries that are shown:
/// every entry with `show_all`, otherwise those not tagged `complete`.
pub fn visible_indices(entries: &Vec<Entry>, show_all: bool) -> (r: Vec<usize>)
    ensures
        r@ == visible_positions(entry_views(entries@), show_all),
{
    let mut r: Vec<usize> = Vec::new();
    let mut i: usize = 0;
    while i < entries.len()
        invariant
            i <= entries@.len(),
            r@ == visible_positions(entry_views(entries@.subrange(0, i as int)), show_all),
        decreases entries@.len() - i,
    {
        let ghost s = entry_views(entries@.subrange(0, i + 1));
        assert(s.drop_last() =~= entry_views(entries@.subrange(0, i as int)));
        assert(s.last() == entries@[i as int]@);
        if show_all || !is_complete(&entries[i]) {
            r.push(i);
        }
        i = i + 1;
    }
    assert(entries@.subrange(0, i as int) =~= entries@);
    r
}

proof fn lemma_visible_bounds(s: Seq<EntryView>, show_all: bool)
    ensures
        visible_positions(s, show_all).len() <= s.len(),
        forall|k: int|
            0 <= k < visible_positions(s, show_all).len() ==> #[trigger] visible_positions(
                s,
                show_all,
            )[k] < s.len(),
    decreases s.len(),
{
    if s.len() > 0 {
        lemma_visible_bounds(s.drop_last(), show_all);
    }
}

/// The stored position of the entry shown as number `index` (from 1).
pub fn resolve_index(entries: &Vec<Entry>, show_all: bool, index: usize) -> (r: Result<
    usize,
    IndexOutOfRange,
>)
    ensures
        r == resolved(entry_views(entries@), show_all, index),
        r matches Ok(p) ==> p < entries@.len(),
{
    let vis = visible_indices(entries, show_all);
    proof {
        lemma_visible_bounds(entry_views(entries@), show_all);
    }
    if index == 0 || index > vis.len() {
        Err(IndexOutOfRange { index, visible: vis.len() })
    } else {
        Ok(vis[index - 1])
    }
}

/// Replaces the entry shown as number `index` by `replacement`. Out of range,
/// nothing changes.
pub fn edit_entry(entries: &mut Vec<Entry>, show_all: bool, index: usize, replacement: Entry) -> (r:
    Result<(), IndexOutOfRange>)
    ensures
        match resolved(entry_views(old(entries)@), show_all, index) {
            Ok(p) => r is Ok && final(entries)@ == old(entries)@.update(p as int, replacement),
            Err(e) => r == Err::<(), IndexOutOfRange>(e) && final(entries)@ == old(entries)@,
        },
{
    match resolve_index(entries, show_all, index) {
        Ok(p) => {
            entries.remove(p);
            entries.insert(p, replacement);
            assert(entries@ =~= old(entries)@.update(p as int, replacement));
            Ok(())
        },
        Err(e) => Err(e),
    }
}

/// The entry with the `complete` tag: unchanged if it has it already, in any
/// case; otherwise with `complete` added at the end of its tags.
pub open spec fn completed(e: EntryView) -> EntryView {
    if is_done(e) {
        e
    } else {
        EntryView { tags: e.tags.push(complete_tag()), ..e }
    }
}

/// Adds the `complete` tag to `e` unless it already has it.
pub fn mark_complete(e: &mut Entry)
    ensures
        final(e)@ == completed(old(e)@),
        final(e).raw_line == old(e).raw_line,
{
    if !is_complete(e) {
        let t = String::from_str("complete");
        proof {
            reveal_strlit("complete");
        }
        assert(t@ =~= complete_tag());
        e.tags.push(t);
        assert(views(e.tags@) =~= views(old(e).tags@).push(complete_tag()));
    }
}

/// Marks the entry shown as number `index` as complete. Out of range,
/// nothing changes.
pub fn complete_entry(entries: &mut Vec<Entry>, show_all: bool, index: usize) -> (r: Result<
    (),
    IndexOutOfRange,
>)
    ensures
        final(entries)@.len() == old(entries)@.len(),
        match resolved(entry_views(old(entries)@), show_all, index) {
            Ok(p) => {
                &&& r is Ok
                &&& final(entries)@[p as int]@ == completed(old(entries)@[p as int]@)
                &&& final(entries)@[p as int].raw_line == old(entries)@[p as int].raw_line
                &&& forall|k: int|
                    0 <= k < old(entries)@.len() && k != p ==> #[trigger] final(entries)@[k]
                        == old(entries)@[k]
            },
            Err(e) => r == Err::<(), IndexOutOfRange>(e) && final(entries)@ == old(entries)@,
        },
{
    match resolve_index(entries, show_all, index) {
        Ok(p) => {
            let mut e = entries.remove(p);
            mark_complete(&mut e);
            entries.insert(p, e);
            Ok(())
        },
        Err(e) => Err(e),
    }
}

/// Completing an entry a second time changes nothing: the `complete` tag is
/// never added twice.
pub proof fn lemma_complete_idempotent(e: EntryView)
    ensures
        is_done(completed(e)),
        completed(completed(e)) == completed(e),
{
    if !is_done(e) {
        let t = completed(e).tags;
        assert(t[t.len() - 1] == complete_tag());
        assert(crate::text::eq_ignoring_case(t[t.len() - 1], complete_tag()));
    }
}

} // verus!
