//! The collection of entries: sorting, loading from lines, writing back.

use vstd::prelude::*;
use crate::codec::{entry_to_line, line_of, parse_line, line_entry};
use crate::date::{date_le, Date};
use crate::entry::{Entry, EntryView};
use crate::text::{push_char, push_str, views};

verus! {

broadcast use vstd::seq_lib::group_seq_lib_default;

/// Dates never decrease along `s`.
pub open spec fn sorted_by_date(s: Seq<Entry>) -> bool {
    forall|i: int, j: int| 0 <= i < j < s.len() ==> date_le(#[trigger] s[i].date, #[trigger] s[j].date)
}

pub open spec fn dated(d: Date) -> spec_fn(Entry) -> bool {
    |e: Entry| e.date == d
}

/// `r` is `s` sorted by date, stably: dates never decrease, and the entries
/// of each date keep their order.
pub open spec fn stably_sorted(r: Seq<Entry>, s: Seq<Entry>) -> bool {
    &&& sorted_by_date(r)
    &&& forall|d: Date| #[trigger] r.filter(dated(d)) == s.filter(dated(d))
}

proof fn lemma_filter_single(x: Entry, pred: spec_fn(Entry) -> bool)
    ensures
        seq![x].filter(pred) == if pred(x) {
            seq![x]
        } else {
            Seq::<Entry>::empty()
        },
{
    let e = Seq::<Entry>::empty();
    assert(e.filter(pred).len() == 0);
    assert(e.filter(pred) =~= e);
    e.lemma_filter_push(x, pred);
    assert(e.push(x) =~= seq![x]);
}

/// Putting `x` after the entries dated on or before it, and before the later
/// ones, adds it at the end of its own date's entries.
proof fn lemma_filter_insert(s: Seq<Entry>, p: int, x: Entry, d: Date)
    requires
        0 <= p <= s.len(),
        forall|k: int| p <= k < s.len() ==> !date_le(#[trigger] s[k].date, x.date),
    ensures
        s.insert(p, x).filter(dated(d)) == if x.date == d {
            s.filter(dated(d)).push(x)
        } else {
            s.filter(dated(d))
        },
{
    let a = s.subrange(0, p);
    let b = s.subrange(p, s.len() as int);
    assert(s.insert(p, x) =~= a + seq![x] + b);
    assert(s =~= a + b);
    lemma_filter_single(x, dated(d));
    if x.date == d {
        assert(b.all(|y: Entry| !dated(d)(y))) by {
            assert forall|k: int| 0 <= k < b.len() implies !dated(d)(b[k]) by {
                assert(b[k] == s[p + k]);
                assert(!date_le(s[p + k].date, x.date));
            }
        }
        b.lemma_all_neg_filter_empty(dated(d));
        assert(b.filter(dated(d)) =~= Seq::<Entry>::empty());
        assert((a + seq![x] + b).filter(dated(d)) == (a + seq![x]).filter(dated(d)) + b.filter(
            dated(d),
        ));
        assert((a + seq![x]).filter(dated(d)) == a.filter(dated(d)) + seq![x].filter(dated(d)));
        assert(s.insert(p, x).filter(dated(d)) =~= s.filter(dated(d)).push(x));
    } else {
        assert((a + seq![x] + b).filter(dated(d)) == (a + seq![x]).filter(dated(d)) + b.filter(
            dated(d),
        ));
        assert((a + seq![x]).filter(dated(d)) == a.filter(dated(d)) + seq![x].filter(dated(d)));
        assert(seq![x].filter(dated(d)) =~= Seq::<Entry>::empty());
        assert(s.insert(p, x).filter(dated(d)) =~= s.filter(dated(d)));
    }
}

/// Sorts the entries by date, ascending; entries of one date keep their
/// order.
pub fn sort_entries(entries: &mut Vec<Entry>)
    ensures
        stably_sorted(final(entries)@, old(entries)@),
        all_dates_valid(old(entries)@) ==> all_dates_valid(final(entries)@),
{
    let ghost orig = entries@;
    let n = entries.len();
    let mut i: usize = 0;
    while i < n
        invariant
            i <= n == entries@.len() == orig.len(),
            entries@.subrange(i as int, n as int) == orig.subrange(i as int, n as int),
            sorted_by_date(entries@.subrange(0, i as int)),
            all_dates_valid(orig) ==> all_dates_valid(entries@),
            forall|d: Date|
                #[trigger] entries@.subrange(0, i as int).filter(dated(d)) == orig.subrange(
                    0,
                    i as int,
                ).filter(dated(d)),
        decreases n - i,
    {
        let ghost before = entries@;
        let ghost prefix = before.subrange(0, i as int);
        let x = entries.remove(i);
        assert(x == orig[i as int]) by {
            assert(before.subrange(i as int, n as int)[0] == orig.subrange(i as int, n as int)[0]);
        }
        let mut p: usize = 0;
        while p < i && entries[p].date.is_on_or_before(&x.date)
            invariant
                p <= i < n == before.len(),
                entries@ == before.remove(i as int),
                prefix == before.subrange(0, i as int),
                all_dates_valid(orig) ==> all_dates_valid(before),
                forall|k: int| 0 <= k < p ==> date_le(#[trigger] prefix[k].date, x.date),
            decreases i - p,
        {
            assert(entries@[p as int] == prefix[p as int]);
            p = p + 1;
        }
        proof {
            assert forall|k: int| p <= k < i implies !date_le(#[trigger] prefix[k].date, x.date) by {
                assert(entries@[p as int] == prefix[p as int]);
                assert(!date_le(prefix[p as int].date, x.date));
                if k > p {
                    assert(date_le(prefix[p as int].date, prefix[k].date));
                }
            }
            assert forall|d: Date|
                #[trigger] prefix.insert(p as int, x).filter(dated(d)) == orig.subrange(
                    0,
                    i + 1,
                ).filter(dated(d)) by {
                lemma_filter_insert(prefix, p as int, x, d);
                assert(orig.subrange(0, i + 1) =~= orig.subrange(0, i as int).push(x));
                orig.subrange(0, i as int).lemma_filter_push(x, dated(d));
            }
        }
        entries.insert(p, x);
        proof {
            if all_dates_valid(orig) {
                assert forall|k: int| 0 <= k < entries@.len() implies (
                #[trigger] entries@[k]).date.valid() by {
                    if k < p {
                        assert(entries@[k] == before[k]);
                    } else if k > p {
                        assert(entries@[k] == before.remove(i as int)[k - 1]);
                    }
                }
            }
            assert(entries@.subrange(0, i + 1) =~= prefix.insert(p as int, x));
            assert(entries@.subrange(i + 1, n as int) =~= orig.subrange(i + 1, n as int)) by {
                assert forall|k: int| i + 1 <= k < n implies entries@[k] == orig[k] by {
                    assert(entries@[k] == before[k]);
                    assert(before.subrange(i as int, n as int)[k - i] == orig.subrange(
                        i as int,
                        n as int,
                    )[k - i]);
                }
            }
            let s2 = prefix.insert(p as int, x);
            assert forall|a: int, b: int| 0 <= a < b < s2.len() implies date_le(
                #[trigger] s2[a].date,
                #[trigger] s2[b].date,
            ) by {
                if b < p {
                    assert(s2[a] == prefix[a] && s2[b] == prefix[b]);
                } else if b == p {
                    assert(s2[a] == prefix[a]);
                } else if a < p {
                    assert(s2[a] == prefix[a] && s2[b] == prefix[b - 1]);
                    assert(date_le(prefix[a].date, x.date));
                    assert(!date_le(prefix[b - 1].date, x.date));
                } else if a == p {
                    assert(s2[b] == prefix[b - 1]);
                    assert(!date_le(prefix[b - 1].date, x.date));
                } else {
                    assert(s2[a] == prefix[a - 1] && s2[b] == prefix[b - 1]);
                }
            }
        }
        i = i + 1;
    }
    assert(entries@.subrange(0, n as int) =~= entries@);
    assert(orig.subrange(0, n as int) =~= orig);
}

/// What an entry means, for each entry.
pub open spec fn entry_views(s: Seq<Entry>) -> Seq<EntryView> {
    s.map_values(|e: Entry| e@)
}

pub open spec fn parse_fn() -> spec_fn(Seq<char>) -> Option<EntryView> {
    |l: Seq<char>| line_entry(l)
}

/// The 1-based numbers of the lines of `ls` that are not entries.
pub open spec fn rejected_lines(ls: Seq<Seq<char>>) -> Seq<usize>
    decreases ls.len(),
{
    if ls.len() == 0 {
        Seq::empty()
    } else if line_entry(ls.last()) is None {
        rejected_lines(ls.drop_last()).push(ls.len() as usize)
    } else {
        rejected_lines(ls.drop_last())
    }
}

/// The entries read from the lines of a task file, and the line numbers
/// (from 1) of the lines that were skipped as malformed.
pub struct Loaded {
    pub entries: Vec<Entry>,
    pub skipped: Vec<usize>,
}

/// Reads the lines of a task file. Each line is read on its own; a line that
/// is not an entry is skipped and its number reported.
pub fn parse_lines(lines: &Vec<String>) -> (r: Loaded)
    ensures
        entry_views(r.entries@) == views(lines@).filter_map(parse_fn()),
        r.skipped@ == rejected_lines(views(lines@)),
        all_dates_valid(r.entries@),
{
    let mut entries: Vec<Entry> = Vec::new();
    let mut skipped: Vec<usize> = Vec::new();
    let mut i: usize = 0;
    while i < lines.len()
        invariant
            i <= lines@.len(),
            entry_views(entries@) == views(lines@).subrange(0, i as int).filter_map(parse_fn()),
            skipped@ == rejected_lines(views(lines@).subrange(0, i as int)),
            all_dates_valid(entries@),
        decreases lines@.len() - i,
    {
        let ghost ls = views(lines@).subrange(0, i + 1);
        assert(ls.drop_last() =~= views(lines@).subrange(0, i as int));
        assert(ls.last() == lines@[i as int]@);
        match parse_line(lines[i].as_str()) {
            Some(e) => {
                entries.push(e);
                assert(entry_views(entries@) =~= ls.filter_map(parse_fn()));
            },
            None => {
                skipped.push(i + 1);
            },
        }
        i = i + 1;
    }
    assert(views(lines@).subrange(0, i as int) =~= views(lines@));
    Loaded { entries, skipped }
}

/// Every entry's date can be written.
pub open spec fn all_dates_valid(s: Seq<Entry>) -> bool {
    forall|i: int| 0 <= i < s.len() ==> (#[trigger] s[i]).date.valid()
}

/// The text of a task file holding `s`: each entry's canonical line followed
/// by a newline.
pub open spec fn file_text(s: Seq<EntryView>) -> Seq<char>
    decreases s.len(),
{
    if s.len() == 0 {
        Seq::empty()
    } else {
        file_text(s.drop_last()) + line_of(s.last()) + seq!['\n']
    }
}

/// The full text written back to the task file, one canonical line per
/// entry, in the collection's order.
pub fn entries_to_text(entries: &Vec<Entry>) -> (r: String)
    requires
        all_dates_valid(entries@),
    ensures
        r@ == file_text(entry_views(entries@)),
{
    let mut out = String::new();
    let mut i: usize = 0;
    while i < entries.len()
        invariant
            i <= entries@.len(),
            all_dates_valid(entries@),
            out@ == file_text(entry_views(entries@.subrange(0, i as int))),
        decreases entries@.len() - i,
    {
        assert(entries@[i as int].date.valid());
        let line = entry_to_line(&entries[i]);
        push_str(&mut out, line.as_str());
        push_char(&mut out, '\n');
        proof {
            let s = entry_views(entries@.subrange(0, i + 1));
            assert(s.drop_last() =~= entry_views(entries@.subrange(0, i as int)));
            assert(s.last() == entries@[i as int]@);
        }
        i = i + 1;
    }
    assert(entries@.subrange(0, i as int) =~= entries@);
    out
}

/// Checks a line before it is appended and puts it in canonical form; `None`
/// when it is not an entry, in which case nothing is to be written.
pub fn normalize_line(line: &str) -> (r: Option<String>)
    ensures
        r is Some <==> line_entry(line@) is Some,
        r matches Some(t) ==> t@ == line_of(line_entry(line@)->Some_0),
{
    match parse_line(line) {
        Some(e) => Some(entry_to_line(&e)),
        None => None,
    }
}

} // verus!
