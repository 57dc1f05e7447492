//! The line format of the task file: `YYYY-MM-DD<SEP>Description<SEP>tag1,tag2`.
//!
//! On reading, a separator is a tab or a run of four or more spaces. Lines
//! are always written with tabs, and without the tag field when there are no
//! tags.

use vstd::prelude::*;
use crate::date::{date_chars, date_of, lemma_date_round_trip, parse_date, push_date};
use crate::entry::{Entry, EntryView};
use crate::split::{
    cuts_at, is_field_separator, kept, lemma_kept_push, lemma_raw_cut, lemma_raw_no_cut,
    lemma_raw_prefix, lemma_run_is_space, lemma_run_local, pieces, raw_pieces,
    split_on_tab_or_spaces, split_text, Cut,
};
use crate::text::{is_space_char, lemma_trim_clean, push_char, push_str, trim, views};

verus! {

/// The tags written in a tag field: cut at commas, trimmed, empty ones dropped.
pub open spec fn tag_list(t: Seq<char>) -> Seq<Seq<char>> {
    pieces(Cut::Commas, t)
}

/// What a line means, if it is an entry: its first field is a date, its
/// second the description, its third, if any, the tags.
pub open spec fn line_entry(s: Seq<char>) -> Option<EntryView> {
    let f = pieces(Cut::Fields, s);
    if f.len() < 2 {
        None
    } else {
        match date_of(f[0]) {
            Some(d) => Some(
                EntryView {
                    date: d,
                    desc: f[1],
                    tags: if f.len() >= 3 {
                        tag_list(f[2])
                    } else {
                        Seq::empty()
                    },
                },
            ),
            None => None,
        }
    }
}

/// The tags joined by commas.
pub open spec fn join_commas(ts: Seq<Seq<char>>) -> Seq<char>
    decreases ts.len(),
{
    if ts.len() == 0 {
        Seq::empty()
    } else if ts.len() == 1 {
        ts[0]
    } else {
        join_commas(ts.drop_last()) + seq![','] + ts.last()
    }
}

/// The canonical line of an entry: date, tab, description, and, when the
/// joined tags are not empty, a tab and the joined tags.
pub open spec fn line_of(e: EntryView) -> Seq<char> {
    let t = join_commas(e.tags);
    date_chars(e.date) + seq!['\t'] + e.desc + if t.len() == 0 {
        Seq::empty()
    } else {
        seq!['\t'] + t
    }
}

/// Reads one line of the task file. `None` means the line is not an entry:
/// fewer than two fields, or a first field that is not a `YYYY-MM-DD` date.
pub fn parse_line(line: &str) -> (r: Option<Entry>)
    ensures
        r is Some <==> line_entry(line@) is Some,
        r matches Some(e) ==> line_entry(line@) == Some(e@) && e.raw_line@ == line@
            && e.date.valid(),
{
    let mut fields = split_on_tab_or_spaces(line);
    if fields.len() < 2 {
        return None;
    }
    let date = match parse_date(fields[0].as_str()) {
        Some(d) => d,
        None => {
            return None;
        },
    };
    let tags = if fields.len() >= 3 {
        split_text(fields[2].as_str(), Cut::Commas)
    } else {
        Vec::new()
    };
    let ghost f = fields@;
    let desc = fields.swap_remove(1);
    assert(desc@ == views(f)[1]);
    let e = Entry { date, desc, tags, raw_line: line.to_owned() };
    assert(e@.tags =~= line_entry(line@)->Some_0.tags);
    Some(e)
}

/// Appends the tags joined by commas.
pub fn push_joined(out: &mut String, tags: &Vec<String>)
    ensures
        final(out)@ == old(out)@ + join_commas(views(tags@)),
{
    let mut i: usize = 0;
    while i < tags.len()
        invariant
            i <= tags@.len(),
            out@ == old(out)@ + join_commas(views(tags@).subrange(0, i as int)),
        decreases tags@.len() - i,
    {
        let ghost before = out@;
        let ghost ts = views(tags@).subrange(0, i + 1);
        if i > 0 {
            push_char(out, ',');
        }
        push_str(out, tags[i].as_str());
        proof {
            assert(ts.drop_last() =~= views(tags@).subrange(0, i as int));
            if i == 0 {
                assert(join_commas(ts) == ts[0]);
                assert(join_commas(ts.drop_last()) =~= Seq::<char>::empty());
            }
        }
        i = i + 1;
        assert(out@ =~= old(out)@ + join_commas(views(tags@).subrange(0, i as int)));
    }
    assert(views(tags@).subrange(0, i as int) =~= views(tags@));
}

/// The canonical line of an entry, as written to the task file.
pub fn entry_to_line(e: &Entry) -> (r: String)
    requires
        e.date.valid(),
    ensures
        r@ == line_of(e@),
{
    let mut tag_str = String::new();
    push_joined(&mut tag_str, &e.tags);
    let mut out = String::new();
    push_date(&mut out, &e.date);
    push_char(&mut out, '\t');
    push_str(&mut out, e.desc.as_str());
    if tag_str.as_str().unicode_len() > 0 {
        push_char(&mut out, '\t');
        push_str(&mut out, tag_str.as_str());
    }
    assert(out@ =~= line_of(e@));
    out
}

/// Text that a field gives back unchanged: not empty, no whitespace at
/// either end, and no field separator inside.
pub open spec fn is_clean_text(s: Seq<char>) -> bool {
    &&& s.len() > 0
    &&& !is_space_char(s[0])
    &&& !is_space_char(s.last())
    &&& forall|k: int| 0 <= k < s.len() ==> !#[trigger] is_field_separator(s, k)
}

/// A tag that the tag field gives back unchanged: clean text without a comma.
pub open spec fn is_clean_tag(t: Seq<char>) -> bool {
    is_clean_text(t) && forall|k: int| 0 <= k < t.len() ==> #[trigger] t[k] != ','
}

proof fn lemma_kept_clean(ts: Seq<Seq<char>>)
    requires
        forall|j: int| 0 <= j < ts.len() ==> (#[trigger] ts[j]).len() > 0 && trim(ts[j]) == ts[j],
    ensures
        kept(ts) == ts,
    decreases ts.len(),
{
    if ts.len() == 0 {
        assert(kept(ts) =~= ts);
    } else {
        let init = ts.drop_last();
        lemma_kept_clean(init);
        lemma_kept_push(init, ts.last());
        assert(init.push(ts.last()) =~= ts);
    }
}

/// Clean tags joined by commas hold no field separator, and cutting the
/// joined text at commas gives the tags back.
proof fn lemma_join_clean(ts: Seq<Seq<char>>)
    requires
        ts.len() > 0,
        forall|j: int| 0 <= j < ts.len() ==> is_clean_tag(#[trigger] ts[j]),
    ensures
        join_commas(ts).len() > 0,
        !is_space_char(join_commas(ts)[0]),
        !is_space_char(join_commas(ts).last()),
        forall|k: int|
            0 <= k < join_commas(ts).len() ==> !#[trigger] is_field_separator(join_commas(ts), k),
        raw_pieces(Cut::Commas, join_commas(ts), join_commas(ts).len()) == ts,
    decreases ts.len(),
{
    let j = join_commas(ts);
    if ts.len() == 1 {
        assert(is_clean_tag(ts[0]));
        assert(raw_pieces(Cut::Commas, j, 0) =~= Seq::<Seq<char>>::empty().push(Seq::empty()));
        assert forall|k: int| 0 <= k < j.len() implies !#[trigger] cuts_at(Cut::Commas, j, k) by {
            assert(j[k] != ',');
        }
        lemma_raw_no_cut(Cut::Commas, j, 0, j.len() as int, Seq::empty(), Seq::empty());
        assert(Seq::<char>::empty() + j.subrange(0, j.len() as int) =~= j);
        assert(Seq::<Seq<char>>::empty().push(j) =~= ts);
    } else {
        let init = ts.drop_last();
        let t = ts.last();
        let a = join_commas(init);
        lemma_join_clean(init);
        assert(is_clean_tag(ts[ts.len() - 1]));
        assert(j == a + seq![','] + t);
        let n = a.len() as int;
        assert forall|k: int| 0 <= k < j.len() implies !#[trigger] is_field_separator(j, k) by {
            if k < n {
                assert(j[k] == a[k]);
                assert(!is_field_separator(a, k));
                if is_field_separator(j, k) {
                    lemma_run_local(j, 0, n, k);
                    assert(j.subrange(0, n) =~= a);
                }
            } else if k == n {
                if is_field_separator(j, k) {
                    lemma_run_is_space(j, k);
                }
            } else {
                assert(j[k] == t[k - n - 1]);
                assert(!is_field_separator(t, k - n - 1));
                if is_field_separator(j, k) {
                    lemma_run_local(j, n + 1, t.len() as int, k);
                    assert(j.subrange(n + 1, n + 1 + t.len()) =~= t);
                }
            }
        }
        lemma_raw_prefix(Cut::Commas, a, j, n);
        lemma_raw_cut(Cut::Commas, j, n);
        assert forall|k: int| n + 1 <= k < j.len() implies !#[trigger] cuts_at(Cut::Commas, j, k) by {
            assert(j[k] == t[k - n - 1]);
        }
        lemma_raw_no_cut(Cut::Commas, j, n + 1, j.len() as int, init, Seq::empty());
        assert(Seq::<char>::empty() + j.subrange(n + 1, j.len() as int) =~= t);
        assert(init.push(t) =~= ts);
    }
}

/// Characters of a date text are neither separators nor whitespace.
proof fn lemma_date_text_plain(line: Seq<char>, d: crate::date::Date, k: int)
    requires
        d.valid(),
        0 <= k < 10 <= line.len(),
        line.subrange(0, 10) == date_chars(d),
    ensures
        !is_field_separator(line, k),
        !is_space_char(line[k]),
{
    lemma_date_round_trip(d);
    assert(line[k] == line.subrange(0, 10)[k]);
    assert(line[k] != ' ' && line[k] != '\t');
    if is_field_separator(line, k) {
        lemma_run_is_space(line, k);
    }
}

/// Writing an entry and reading the line back gives the same entry, for a
/// valid date, a clean description and clean tags.
pub proof fn lemma_line_round_trip(e: EntryView)
    requires
        e.date.valid(),
        is_clean_text(e.desc),
        forall|j: int| 0 <= j < e.tags.len() ==> is_clean_tag(#[trigger] e.tags[j]),
    ensures
        line_entry(line_of(e)) == Some(e),
{
    let l = line_of(e);
    let d = date_chars(e.date);
    let desc = e.desc;
    let jn = join_commas(e.tags);
    let m = desc.len() as int;
    lemma_date_round_trip(e.date);
    assert(l.subrange(0, 10) =~= d);
    // The date field.
    assert(raw_pieces(Cut::Fields, l, 0) =~= Seq::<Seq<char>>::empty().push(Seq::empty()));
    assert forall|k: int| 0 <= k < 10 implies !#[trigger] cuts_at(Cut::Fields, l, k) by {
        lemma_date_text_plain(l, e.date, k);
    }
    lemma_raw_no_cut(Cut::Fields, l, 0, 10, Seq::empty(), Seq::empty());
    assert(Seq::<char>::empty() + l.subrange(0, 10) =~= d);
    lemma_raw_cut(Cut::Fields, l, 10);
    // The description.
    assert(l.subrange(11, 11 + m) =~= desc);
    assert forall|k: int| 11 <= k < 11 + m implies !#[trigger] cuts_at(Cut::Fields, l, k) by {
        assert(l[k] == desc[k - 11]);
        assert(!is_field_separator(desc, k - 11));
        if is_field_separator(l, k) {
            lemma_run_local(l, 11, m, k);
        }
    }
    lemma_raw_no_cut(Cut::Fields, l, 11, 11 + m, seq![d], Seq::empty());
    assert(Seq::<char>::empty() + l.subrange(11, 11 + m) =~= desc);
    lemma_date_text_plain(l, e.date, 0);
    lemma_date_text_plain(l, e.date, 9);
    assert(trim(d) == d) by {
        lemma_trim_clean(d);
    }
    lemma_trim_clean(desc);
    if e.tags.len() == 0 {
        assert(jn.len() == 0);
        assert(l.len() == 11 + m);
        let ps = seq![d].push(desc);
        assert(ps =~= seq![d, desc]);
        lemma_kept_clean(ps);
        assert(pieces(Cut::Fields, l) == ps);
        assert(e.tags =~= Seq::<Seq<char>>::empty());
    } else {
        lemma_join_clean(e.tags);
        let n = jn.len() as int;
        assert(seq![d].push(Seq::<char>::empty() + l.subrange(11, 11 + m)) =~= seq![d, desc]);
        assert(l.len() == 12 + m + n);
        lemma_raw_cut(Cut::Fields, l, 11 + m);
        assert(raw_pieces(Cut::Fields, l, (12 + m) as nat) == seq![d, desc].push(Seq::empty()));
        assert(l.subrange(12 + m, 12 + m + n) =~= jn);
        assert forall|k: int| 12 + m <= k < 12 + m + n implies !#[trigger] cuts_at(
            Cut::Fields,
            l,
            k,
        ) by {
            assert(l[k] == jn[k - 12 - m]);
            assert(!is_field_separator(jn, k - 12 - m));
            if is_field_separator(l, k) {
                lemma_run_local(l, 12 + m, n, k);
            }
        }
        lemma_raw_no_cut(Cut::Fields, l, 12 + m, 12 + m + n, seq![d, desc], Seq::empty());
        assert(Seq::<char>::empty() + l.subrange(12 + m, 12 + m + n) =~= jn);
        lemma_trim_clean(jn);
        let ps = seq![d, desc].push(jn);
        assert(ps =~= seq![d, desc, jn]);
        lemma_kept_clean(ps);
        assert(pieces(Cut::Fields, l) == ps);
        assert forall|j: int| 0 <= j < e.tags.len() implies (#[trigger] e.tags[j]).len() > 0
            && trim(e.tags[j]) == e.tags[j] by {
            assert(is_clean_tag(e.tags[j]));
            lemma_trim_clean(e.tags[j]);
        }
        lemma_kept_clean(e.tags);
        assert(tag_list(jn) == e.tags);
    }
}

/// An entry without tags is written as its date, a tab and its description:
/// nothing, in particular no separator, follows the description.
pub proof fn lemma_no_tags_no_tag_field(e: EntryView)
    requires
        e.tags.len() == 0,
    ensures
        line_of(e) == date_chars(e.date) + seq!['\t'] + e.desc,
{
    assert(join_commas(e.tags).len() == 0);
    assert(line_of(e) =~= date_chars(e.date) + seq!['\t'] + e.desc);
}

/// How tags are shown: joined by commas, or `-` when there are none.
pub open spec fn tag_text(tags: Seq<Seq<char>>) -> Seq<char> {
    if tags.len() == 0 {
        "-"@
    } else {
        join_commas(tags)
    }
}

/// Appends the tags as shown: joined by commas, or `-` when there are none.
pub fn push_tag_text(out: &mut String, tags: &Vec<String>)
    ensures
        final(out)@ == old(out)@ + tag_text(views(tags@)),
{
    if tags.len() == 0 {
        push_str(out, "-");
    } else {
        push_joined(out, tags);
    }
}

} // verus!
