//! Filters over the collection: a date range and a set of tags.

use vstd::prelude::*;
use crate::date::{date_le, date_of, parse_date, Date};
use crate::entry::{has_tag, tags_contain, Entry};
use crate::text::{eq_ignoring_case, views};

verus! {

broadcast use vstd::seq_lib::group_seq_lib_default;

/// `d` lies within the bounds that are given, both included.
pub open spec fn in_date_range(d: Date, from: Option<Date>, to: Option<Date>) -> bool {
    &&& (from matches Some(f) ==> date_le(f, d))
    &&& (to matches Some(t) ==> date_le(d, t))
}

pub open spec fn date_pred(from: Option<Date>, to: Option<Date>) -> spec_fn(Entry) -> bool {
    |e: Entry| in_date_range(e.date, from, to)
}

/// Whether `tags` pass the query: no query tags pass everything; otherwise
/// one query tag (`any`) or every query tag must be among `tags`, compared
/// without ASCII case.
pub open spec fn tags_match(tags: Seq<Seq<char>>, query: Seq<Seq<char>>, any: bool) -> bool {
    ||| query.len() == 0
    ||| any && exists|i: int| 0 <= i < query.len() && #[trigger] has_tag(tags, query[i])
    ||| !any && forall|i: int| 0 <= i < query.len() ==> #[trigger] has_tag(tags, query[i])
}

pub open spec fn tag_pred(query: Seq<Seq<char>>, any: bool) -> spec_fn(Entry) -> bool {
    |e: Entry| tags_match(e@.tags, query, any)
}

/// The entries dated within the bounds that are given, both included, in
/// their order.
pub fn filter_by_date_range(
    entries: Vec<Entry>,
    start_date: Option<Date>,
    end_date: Option<Date>,
) -> (r: Vec<Entry>)
    ensures
        r@ == entries@.filter(date_pred(start_date, end_date)),
{
    let ghost orig = entries@;
    let ghost pred = date_pred(start_date, end_date);
    let mut rest = entries;
    let mut out: Vec<Entry> = Vec::new();
    let ghost mut k: int = 0;
    while rest.len() > 0
        invariant
            0 <= k <= orig.len(),
            rest@ == orig.subrange(k, orig.len() as int),
            out@ == orig.subrange(0, k).filter(pred),
            pred == date_pred(start_date, end_date),
        decreases rest@.len(),
    {
        let e = rest.remove(0);
        let keep = match (start_date, end_date) {
            (Some(f), Some(t)) => f.is_on_or_before(&e.date) && e.date.is_on_or_before(&t),
            (Some(f), None) => f.is_on_or_before(&e.date),
            (None, Some(t)) => e.date.is_on_or_before(&t),
            (None, None) => true,
        };
        proof {
            assert(orig.subrange(0, k + 1) =~= orig.subrange(0, k).push(e));
            orig.subrange(0, k).lemma_filter_push(e, pred);
            assert(keep == pred(e));
            k = k + 1;
        }
        if keep {
            out.push(e);
        }
    }
    assert(orig.subrange(0, k) =~= orig);
    out
}

/// Whether the entry's tags pass the query tags.
pub fn entry_matches_tags(e: &Entry, tags: &[String], match_any: bool) -> (r: bool)
    ensures
        r == tags_match(e@.tags, views(tags@), match_any),
{
    let ghost q = views(tags@);
    if tags.len() == 0 {
        return true;
    }
    let mut i: usize = 0;
    while i < tags.len()
        invariant
            i <= tags@.len(),
            q == views(tags@),
            match_any ==> forall|j: int| 0 <= j < i ==> !#[trigger] has_tag(e@.tags, q[j]),
            !match_any ==> forall|j: int| 0 <= j < i ==> #[trigger] has_tag(e@.tags, q[j]),
        decreases tags@.len() - i,
    {
        let found = tags_contain(&e.tags, tags[i].as_str());
        if found && match_any {
            assert(has_tag(e@.tags, q[i as int]));
            return true;
        }
        if !found && !match_any {
            assert(!has_tag(e@.tags, q[i as int]));
            return false;
        }
        i = i + 1;
    }
    !match_any
}

/// The entries whose tags pass the query, in their order. With no query tags
/// every entry passes; with `match_any` one query tag suffices, otherwise all
/// are needed. Tags compare without ASCII case.
pub fn filter_by_tags(entries: Vec<Entry>, tags: &[String], match_any: bool) -> (r: Vec<Entry>)
    ensures
        r@ == entries@.filter(tag_pred(views(tags@), match_any)),
{
    let ghost orig = entries@;
    let ghost pred = tag_pred(views(tags@), match_any);
    let mut rest = entries;
    let mut out: Vec<Entry> = Vec::new();
    let ghost mut k: int = 0;
    while rest.len() > 0
        invariant
            0 <= k <= orig.len(),
            rest@ == orig.subrange(k, orig.len() as int),
            out@ == orig.subrange(0, k).filter(pred),
            pred == tag_pred(views(tags@), match_any),
        decreases rest@.len(),
    {
        let e = rest.remove(0);
        let keep = entry_matches_tags(&e, tags, match_any);
        proof {
            assert(orig.subrange(0, k + 1) =~= orig.subrange(0, k).push(e));
            orig.subrange(0, k).lemma_filter_push(e, pred);
            k = k + 1;
        }
        if keep {
            out.push(e);
        }
    }
    assert(orig.subrange(0, k) =~= orig);
    out
}

/// An entry dated on either bound of a range is kept by the range filter.
pub proof fn lemma_range_bounds_included(entries: Seq<Entry>, from: Date, to: Date, i: int)
    requires
        0 <= i < entries.len(),
        date_le(from, to),
        entries[i].date == from || entries[i].date == to,
    ensures
        entries.filter(date_pred(Some(from), Some(to))).contains(entries[i]),
{
    assert(date_pred(Some(from), Some(to))(entries[i]));
}

/// A query that names neither a date nor a tag.
#[derive(Clone, Copy, PartialEq, Eq, Structural, Debug)]
pub struct NoCriteria;

pub open spec fn opt_date(s: Option<String>) -> Option<Date> {
    match s {
        Some(t) => date_of(t@),
        None => None,
    }
}

/// The bounds a query asks for: an exact date stands for both bounds;
/// otherwise the bounds given. A bound that is not a date bounds nothing.
pub open spec fn query_bounds(from: Option<String>, to: Option<String>, date: Option<String>) -> (
    Option<Date>,
    Option<Date>,
) {
    if date is Some {
        (opt_date(date), opt_date(date))
    } else {
        (opt_date(from), opt_date(to))
    }
}

fn read_bound(s: &Option<String>) -> (r: Option<Date>)
    ensures
        r == opt_date(*s),
{
    match s {
        Some(t) => parse_date(t.as_str()),
        None => None,
    }
}

/// Runs a query: the entries within the date bounds whose tags pass, in
/// their order. A query needs at least one of `from`, `to`, `date` or a tag.
pub fn query_entries(
    entries: Vec<Entry>,
    from: &Option<String>,
    to: &Option<String>,
    date: &Option<String>,
    tags: &[String],
    any: bool,
) -> (r: Result<Vec<Entry>, NoCriteria>)
    ensures
        r is Err <==> from is None && to is None && date is None && tags@.len() == 0,
        r matches Ok(v) ==> v@ == entries@.filter(
            date_pred(query_bounds(*from, *to, *date).0, query_bounds(*from, *to, *date).1),
        ).filter(tag_pred(views(tags@), any)),
{
    if from.is_none() && to.is_none() && date.is_none() && tags.len() == 0 {
        return Err(NoCriteria);
    }
    let (lo, hi) = if date.is_some() {
        let d = read_bound(date);
        (d, d)
    } else {
        (read_bound(from), read_bound(to))
    };
    let by_date = filter_by_date_range(entries, lo, hi);
    Ok(filter_by_tags(by_date, tags, any))
}

/// With two query tags, an entry passes when it has both, or, with `any`,
/// when it has either; each compared without ASCII case.
pub proof fn lemma_two_tag_query(tags: Seq<Seq<char>>, a: Seq<char>, b: Seq<char>)
    ensures
        tags_match(tags, seq![a, b], false) <==> has_tag(tags, a) && has_tag(tags, b),
        tags_match(tags, seq![a, b], true) <==> has_tag(tags, a) || has_tag(tags, b),
{
    let q = seq![a, b];
    assert(q[0] == a && q[1] == b);
    if has_tag(tags, a) && has_tag(tags, b) {
        assert forall|i: int| 0 <= i < q.len() implies #[trigger] has_tag(tags, q[i]) by {
            if i == 0 {
            } else {
            }
        }
    }
    if tags_match(tags, q, true) {
        let i = choose|i: int| 0 <= i < q.len() && #[trigger] has_tag(tags, q[i]);
        assert(i == 0 || i == 1);
    }
}

/// A tag that differs from a query tag only in the case of ASCII letters
/// matches it.
pub proof fn lemma_tag_case_ignored(tags: Seq<Seq<char>>, q: Seq<char>, j: int, any: bool)
    requires
        0 <= j < tags.len(),
        eq_ignoring_case(tags[j], q),
    ensures
        tags_match(tags, seq![q], any),
{
    assert(has_tag(tags, q));
    assert(seq![q][0] == q);
}

} // verus!
