//! Laying entries out for display.

use vstd::prelude::*;
use crate::codec::{push_tag_text, tag_text};
use crate::date::{date_chars, decimal_chars, push_date, push_decimal};
use crate::entry::{is_complete, is_done, Entry, EntryView};
use crate::split::{pieces, split_text, Cut};
use crate::store::{all_dates_valid, entry_views};
use crate::text::{chars_of, push_char, push_str, string_of, views};

verus! {

/// The size of the chunks that a word wider than `w` is cut into.
pub open spec fn chunk_size(w: nat) -> nat {
    if w == 0 {
        1
    } else {
        w
    }
}

/// A word as laid out in width `w`: whole if it fits, else cut into chunks
/// of `w` characters, the last one possibly shorter.
pub open spec fn chunks(word: Seq<char>, w: nat) -> Seq<Seq<char>>
    decreases word.len(),
{
    if word.len() <= w || word.len() <= chunk_size(w) {
        seq![word]
    } else {
        seq![word.subrange(0, chunk_size(w) as int)] + chunks(
            word.subrange(chunk_size(w) as int, word.len() as int),
            w,
        )
    }
}

/// The pieces that `words` are laid out as, in order.
pub open spec fn tokens(words: Seq<Seq<char>>, w: nat) -> Seq<Seq<char>>
    decreases words.len(),
{
    if words.len() == 0 {
        Seq::empty()
    } else {
        chunks(words[0], w) + tokens(words.drop_first(), w)
    }
}

/// Adds one piece: after a space on the last line when the line stays
/// shorter than `w`, else on a new line.
pub open spec fn place(lines: Seq<Seq<char>>, t: Seq<char>, w: nat) -> Seq<Seq<char>> {
    if lines.len() > 0 && lines.last().len() + t.len() < w {
        lines.update(lines.len() - 1, lines.last() + seq![' '] + t)
    } else {
        lines.push(t)
    }
}

/// Places the pieces `ts` one after the other.
pub open spec fn place_all(lines: Seq<Seq<char>>, ts: Seq<Seq<char>>, w: nat) -> Seq<Seq<char>>
    decreases ts.len(),
{
    if ts.len() == 0 {
        lines
    } else {
        place_all(place(lines, ts[0], w), ts.drop_first(), w)
    }
}

/// The lines of `text` wrapped to width `w`: its words, packed greedily.
pub open spec fn wrapped(text: Seq<char>, w: nat) -> Seq<Seq<char>> {
    place_all(Seq::empty(), tokens(pieces(Cut::Whitespace, text), w), w)
}

proof fn lemma_place_all_append(lines: Seq<Seq<char>>, a: Seq<Seq<char>>, b: Seq<Seq<char>>, w: nat)
    ensures
        place_all(lines, a + b, w) == place_all(place_all(lines, a, w), b, w),
    decreases a.len(),
{
    if a.len() == 0 {
        assert(a + b =~= b);
    } else {
        assert((a + b)[0] == a[0]);
        assert((a + b).drop_first() =~= a.drop_first() + b);
        lemma_place_all_append(place(lines, a[0], w), a.drop_first(), b, w);
    }
}

fn place_token(lines: &mut Vec<String>, t: String, w: usize)
    ensures
        views(final(lines)@) == place(views(old(lines)@), t@, w as nat),
{
    let n = lines.len();
    let tl = t.as_str().unicode_len();
    if n > 0 {
        let ll = lines[n - 1].as_str().unicode_len();
        if ll < w && tl < w - ll {
            match lines.pop() {
                Some(mut last) => {
                    let ghost init = lines@;
                    push_char(&mut last, ' ');
                    push_str(&mut last, t.as_str());
                    lines.push(last);
                    assert(views(lines@) =~= place(views(old(lines)@), t@, w as nat)) by {
                        assert(init =~= old(lines)@.drop_last());
                        assert(views(lines@)[n - 1] == views(old(lines)@)[n - 1] + seq![' ']
                            + t@);
                    }
                },
                None => {},
            }
            return ;
        }
    }
    lines.push(t);
    assert(views(lines@) =~= place(views(old(lines)@), t@, w as nat));
}

/// Wraps text to a width: words (split at whitespace) are packed greedily,
/// a space between two words on a line, a line never reaching `max_width`
/// by the joining; a word longer than `max_width` is cut into chunks of
/// `max_width` characters.
pub fn wrap_text(text: &str, max_width: usize) -> (r: Vec<String>)
    ensures
        views(r@) == wrapped(text@, max_width as nat),
{
    let ghost w = max_width as nat;
    let words = split_text(text, Cut::Whitespace);
    let ghost ws = views(words@);
    let c: usize = if max_width == 0 {
        1
    } else {
        max_width
    };
    let mut lines: Vec<String> = Vec::new();
    let mut i: usize = 0;
    assert(views(lines@) =~= Seq::<Seq<char>>::empty());
    assert(ws.subrange(0, ws.len() as int) =~= ws);
    while i < words.len()
        invariant
            i <= words@.len(),
            ws == views(words@),
            ws == pieces(Cut::Whitespace, text@),
            w == max_width as nat,
            c == chunk_size(w),
            place_all(views(lines@), tokens(ws.subrange(i as int, ws.len() as int), w), w)
                == wrapped(text@, w),
        decreases words@.len() - i,
    {
        let ghost rest = ws.subrange(i + 1, ws.len() as int);
        assert(ws.subrange(i as int, ws.len() as int).drop_first() =~= rest);
        let cs = chars_of(words[i].as_str());
        let n = cs.len();
        let mut j: usize = 0;
        assert(cs@.subrange(0, n as int) =~= ws[i as int]);
        assert(ws.subrange(i as int, ws.len() as int)[0] == ws[i as int]);
        assert(tokens(ws.subrange(i as int, ws.len() as int), w) == chunks(ws[i as int], w)
            + tokens(rest, w));
        while n - j > max_width && n - j > c
            invariant
                j <= n == cs@.len(),
                c == chunk_size(w),
                w == max_width as nat,
                c >= 1,
                place_all(
                    views(lines@),
                    chunks(cs@.subrange(j as int, n as int), w) + tokens(rest, w),
                    w,
                ) == wrapped(text@, w),
            decreases n - j,
        {
            let ghost part = cs@.subrange(j as int, n as int);
            assert(part.subrange(0, c as int) =~= cs@.subrange(j as int, (j + c) as int));
            assert(part.subrange(c as int, part.len() as int) =~= cs@.subrange(
                (j + c) as int,
                n as int,
            ));
            let t = string_of(&cs, j, j + c);
            proof {
                let a = seq![t@];
                let b = chunks(cs@.subrange((j + c) as int, n as int), w) + tokens(rest, w);
                assert(chunks(part, w) + tokens(rest, w) =~= a + b);
                lemma_place_all_append(views(lines@), a, b, w);
                assert(place_all(views(lines@), a, w) == place_all(
                    place(views(lines@), t@, w),
                    a.drop_first(),
                    w,
                ));
                assert(a.drop_first() =~= Seq::<Seq<char>>::empty());
            }
            place_token(&mut lines, t, max_width);
            j = j + c;
        }
        let t = string_of(&cs, j, n);
        proof {
            let part = cs@.subrange(j as int, n as int);
            assert(chunks(part, w) == seq![part]);
            let b = tokens(rest, w);
            assert((seq![t@] + b)[0] == t@);
            assert((seq![t@] + b).drop_first() =~= b);
        }
        place_token(&mut lines, t, max_width);
        i = i + 1;
    }
    lines
}

/// The width of the description column.
pub const DESC_WIDTH: usize = 40;

/// The indent of the continuation lines of a description: past the number
/// and date columns.
pub const DESC_INDENT: usize = 17;

pub open spec fn spaces(n: nat) -> Seq<char> {
    Seq::new(n, |i: int| ' ')
}

/// `s` right-aligned in `n` columns.
pub open spec fn pad_left(s: Seq<char>, n: nat) -> Seq<char> {
    if s.len() < n {
        spaces((n - s.len()) as nat) + s
    } else {
        s
    }
}

/// `s` left-aligned in `n` columns.
pub open spec fn pad_right(s: Seq<char>, n: nat) -> Seq<char> {
    if s.len() < n {
        s + spaces((n - s.len()) as nat)
    } else {
        s
    }
}

/// The lines of table row number `n`: the number right-aligned in three
/// columns, the date, the first line of the wrapped description and the
/// tags; then the further lines of the description, indented to its column.
pub open spec fn row_lines(n: nat, e: EntryView) -> Seq<Seq<char>> {
    let ls = wrapped(e.desc, DESC_WIDTH as nat);
    let first = if ls.len() == 0 {
        Seq::empty()
    } else {
        ls[0]
    };
    seq![
        pad_left(decimal_chars(n), 3) + "  "@ + date_chars(e.date) + "  "@ + pad_right(
            first,
            DESC_WIDTH as nat,
        ) + "  "@ + tag_text(e.tags),
    ] + continuation(
        ls,
        if ls.len() == 0 {
            0
        } else {
            (ls.len() - 1) as nat
        },
    )
}

/// The description lines after the first, `count` of them, indented.
pub open spec fn continuation(ls: Seq<Seq<char>>, count: nat) -> Seq<Seq<char>> {
    Seq::new(count, |k: int| spaces(DESC_INDENT as nat) + ls[k + 1])
}

/// The rows of `s`, numbered from 1.
pub open spec fn table_lines(s: Seq<EntryView>) -> Seq<Seq<char>>
    decreases s.len(),
{
    if s.len() == 0 {
        Seq::empty()
    } else {
        table_lines(s.drop_last()) + row_lines(s.len(), s.last())
    }
}

pub open spec fn done_pred(done: bool) -> spec_fn(EntryView) -> bool {
    |e: EntryView| is_done(e) == done
}

/// The listing of `s`: a table of the entries not complete; with `show_all`,
/// and when there are complete entries, a blank line, a `Completed:` title
/// and their table.
pub open spec fn listing(s: Seq<EntryView>, show_all: bool) -> Seq<Seq<char>> {
    let open_ones = s.filter(done_pred(false));
    let closed = s.filter(done_pred(true));
    table_lines(open_ones) + if show_all && closed.len() > 0 {
        seq![Seq::empty(), "Completed:"@] + table_lines(closed)
    } else {
        Seq::empty()
    }
}

fn push_spaces(out: &mut String, n: usize)
    ensures
        final(out)@ == old(out)@ + spaces(n as nat),
{
    let mut k: usize = 0;
    while k < n
        invariant
            k <= n,
            out@ == old(out)@ + spaces(k as nat),
        decreases n - k,
    {
        push_char(out, ' ');
        k = k + 1;
        assert(out@ =~= old(out)@ + spaces(k as nat));
    }
}

fn push_row(out: &mut Vec<String>, n: u64, e: &Entry)
    requires
        e.date.valid(),
    ensures
        views(final(out)@) == views(old(out)@) + row_lines(n as nat, e@),
{
    let ls = wrap_text(e.desc.as_str(), DESC_WIDTH);
    let ghost lv = views(ls@);
    let mut num = String::new();
    push_decimal(&mut num, n);
    let mut line = String::new();
    let nl = num.as_str().unicode_len();
    if nl < 3 {
        push_spaces(&mut line, 3 - nl);
    }
    push_str(&mut line, num.as_str());
    push_str(&mut line, "  ");
    push_date(&mut line, &e.date);
    push_str(&mut line, "  ");
    let mut first = String::new();
    if ls.len() > 0 {
        push_str(&mut first, ls[0].as_str());
    }
    push_str(&mut line, first.as_str());
    let fl = first.as_str().unicode_len();
    if fl < DESC_WIDTH {
        push_spaces(&mut line, DESC_WIDTH - fl);
    }
    push_str(&mut line, "  ");
    push_tag_text(&mut line, &e.tags);
    let ghost first_line = line@;
    out.push(line);
    let ghost base = views(old(out)@).push(first_line);
    assert(views(out@) =~= base);
    let mut k: usize = 1;
    while k < ls.len()
        invariant
            1 <= k,
            k <= ls@.len() || ls@.len() == 0,
            ls@.len() == 0 ==> k == 1,
            lv == views(ls@),
            views(out@) == base + continuation(lv, (k - 1) as nat),
        decreases ls@.len() - k,
    {
        let ghost prev = views(out@);
        let mut l = String::new();
        push_spaces(&mut l, DESC_INDENT);
        push_str(&mut l, ls[k].as_str());
        assert(l@ == spaces(DESC_INDENT as nat) + lv[k as int]);
        out.push(l);
        assert(views(out@) =~= prev.push(l@));
        k = k + 1;
        assert(continuation(lv, (k - 1) as nat) =~= continuation(lv, (k - 2) as nat).push(l@));
        assert(views(out@) =~= base + continuation(lv, (k - 1) as nat));
    }
    proof {
        let ls_spec = wrapped(e.desc@, DESC_WIDTH as nat);
        assert(lv == ls_spec);
        let cnt: nat = if lv.len() == 0 {
            0
        } else {
            (lv.len() - 1) as nat
        };
        assert((k - 1) as nat == cnt);
        let fst = if lv.len() == 0 {
            Seq::<char>::empty()
        } else {
            lv[0]
        };
        assert(first@ =~= fst);
        assert(first_line =~= row_lines(n as nat, e@)[0]);
        assert(row_lines(n as nat, e@) =~= seq![first_line] + continuation(lv, cnt));
    }
    assert(views(out@) =~= views(old(out)@) + row_lines(n as nat, e@));
}

fn push_table(out: &mut Vec<String>, entries: &Vec<Entry>, done: bool)
    requires
        all_dates_valid(entries@),
    ensures
        views(final(out)@) == views(old(out)@) + table_lines(
            entry_views(entries@).filter(done_pred(done)),
        ),
{
    let ghost pred = done_pred(done);
    let mut count: u64 = 0;
    let mut i: usize = 0;
    while i < entries.len()
        invariant
            i <= entries@.len(),
            all_dates_valid(entries@),
            pred == done_pred(done),
            count == entry_views(entries@.subrange(0, i as int)).filter(pred).len(),
            count <= i,
            views(out@) == views(old(out)@) + table_lines(
                entry_views(entries@.subrange(0, i as int)).filter(pred),
            ),
        decreases entries@.len() - i,
    {
        let ghost s = entry_views(entries@.subrange(0, i as int));
        let ghost s2 = entry_views(entries@.subrange(0, i + 1));
        assert(s2 =~= s.push(entries@[i as int]@));
        proof {
            s.lemma_filter_push(entries@[i as int]@, pred);
        }
        if is_complete(&entries[i]) == done {
            assert(entries@[i as int].date.valid());
            count = count + 1;
            push_row(out, count, &entries[i]);
            assert(s2.filter(pred).drop_last() =~= s.filter(pred));
        }
        i = i + 1;
    }
    assert(entries@.subrange(0, i as int) =~= entries@);
}

/// The lines that list `entries`: the entries not complete, numbered from 1;
/// with `show_all`, the complete ones below in a table of their own.
pub fn render_titled_tables(entries: &Vec<Entry>, show_all: bool) -> (r: Vec<String>)
    requires
        all_dates_valid(entries@),
    ensures
        views(r@) == listing(entry_views(entries@), show_all),
{
    let mut out: Vec<String> = Vec::new();
    assert(views(out@) =~= Seq::<Seq<char>>::empty());
    push_table(&mut out, entries, false);
    let mut closed: Vec<String> = Vec::new();
    assert(views(closed@) =~= Seq::<Seq<char>>::empty());
    push_table(&mut closed, entries, true);
    if show_all && closed.len() > 0 {
        let ghost before = views(out@);
        out.push(String::new());
        out.push(String::from_str("Completed:"));
        let mut k: usize = 0;
        while k < closed.len()
            invariant
                k <= closed@.len(),
                views(out@) == before + seq![Seq::<char>::empty(), "Completed:"@] + views(
                    closed@,
                ).subrange(0, k as int),
            decreases closed@.len() - k,
        {
            let ghost prev = views(out@);
            let l = closed[k].clone();
            assert(l@ == views(closed@)[k as int]);
            out.push(l);
            assert(views(out@) =~= prev.push(views(closed@)[k as int]));
            assert(views(closed@).subrange(0, k + 1) =~= views(closed@).subrange(0, k as int).push(
                views(closed@)[k as int],
            ));
            k = k + 1;
            assert(views(out@) =~= before + seq![Seq::<char>::empty(), "Completed:"@] + views(
                closed@,
            ).subrange(0, k as int));
        }
        assert(views(closed@).subrange(0, k as int) =~= views(closed@));
    }
    assert(views(out@) =~= listing(entry_views(entries@), show_all));
    out
}

} // verus!
