//! A task record and its tags.

use vstd::prelude::*;
use crate::date::Date;
use crate::text::{eq_ignore_ascii_case, eq_ignoring_case, views};

verus! {

/// One task: a day, what is to be done, and its tags.
#[derive(Clone, Debug)]
pub struct Entry {
    pub date: Date,
    pub desc: String,
    pub tags: Vec<String>,
    /// The text the entry was read from.
    pub raw_line: String,
}

/// What an entry means: its day, description and tags as character sequences.
pub struct EntryView {
    pub date: Date,
    pub desc: Seq<char>,
    pub tags: Seq<Seq<char>>,
}

impl View for Entry {
    type V = EntryView;

    open spec fn view(&self) -> EntryView {
        EntryView { date: self.date, desc: self.desc@, tags: views(self.tags@) }
    }
}

/// The tag that marks an entry as done.
pub open spec fn complete_tag() -> Seq<char> {
    seq!['c', 'o', 'm', 'p', 'l', 'e', 't', 'e']
}

/// One of `tags` equals `q` up to the case of ASCII letters.
pub open spec fn has_tag(tags: Seq<Seq<char>>, q: Seq<char>) -> bool {
    exists|j: int| 0 <= j < tags.len() && #[trigger] eq_ignoring_case(tags[j], q)
}

/// The entry carries the `complete` tag, in any case.
pub open spec fn is_done(e: EntryView) -> bool {
    has_tag(e.tags, complete_tag())
}

/// Whether one of `tags` equals `q`, ignoring the case of ASCII letters.
pub fn tags_contain(tags: &Vec<String>, q: &str) -> (r: bool)
    ensures
        r == has_tag(views(tags@), q@),
{
    let mut i: usize = 0;
    while i < tags.len()
        invariant
            i <= tags@.len(),
            forall|j: int| 0 <= j < i ==> !#[trigger] eq_ignoring_case(views(tags@)[j], q@),
        decreases tags@.len() - i,
    {
        if eq_ignore_ascii_case(tags[i].as_str(), q) {
            assert(eq_ignoring_case(views(tags@)[i as int], q@));
            return true;
        }
        i = i + 1;
    }
    false
}

/// The literal `complete`, as a string slice.
pub fn complete_literal() -> (r: &'static str)
    ensures
        r@ == complete_tag(),
{
    let r = "complete";
    proof {
        reveal_strlit("complete");
    }
    assert(r@ =~= complete_tag());
    r
}

/// Whether the entry carries the `complete` tag, in any case.
pub fn is_complete(e: &Entry) -> (r: bool)
    ensures
        r == is_done(e@),
{
    tags_contain(&e.tags, complete_literal())
}

} // verus!
