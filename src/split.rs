//! Cutting a line into trimmed, non-empty pieces.
//!
//! The same scheme serves three purposes: the fields of an entry line, the
//! comma-separated tag list, and the words of a description.

use vstd::prelude::*;
use crate::text::{chars_of, is_space, is_space_char, string_of, trim, trim_bounds, views};

verus! {

broadcast use vstd::seq_lib::group_seq_lib_default;

/// Every position of `s` in `p..q` holds a space.
pub open spec fn spaces_between(s: Seq<char>, p: int, q: int) -> bool {
    forall|t: int| p <= t < q ==> s[t] == ' '
}

/// `s[k]` lies in a run of at least four consecutive spaces.
pub open spec fn in_long_space_run(s: Seq<char>, k: int) -> bool {
    exists|p: int, q: int|
        0 <= p <= k < q <= s.len() && q - p >= 4 && #[trigger] spaces_between(s, p, q)
}

/// Field separators: a tab, or any space of a run of four or more spaces.
pub open spec fn is_field_separator(s: Seq<char>, k: int) -> bool {
    s[k] == '\t' || in_long_space_run(s, k)
}

/// Where a line is cut.
#[derive(Clone, Copy, PartialEq, Eq, Structural, Debug)]
pub enum Cut {
    /// At field separators.
    Fields,
    /// At commas.
    Commas,
    /// At whitespace.
    Whitespace,
}

pub open spec fn cuts_at(cut: Cut, s: Seq<char>, k: int) -> bool {
    match cut {
        Cut::Fields => is_field_separator(s, k),
        Cut::Commas => s[k] == ',',
        Cut::Whitespace => is_space_char(s[k]),
    }
}

/// The pieces of `s[..n]` that lie between cut positions, empty ones included.
pub open spec fn raw_pieces(cut: Cut, s: Seq<char>, n: nat) -> Seq<Seq<char>>
    decreases n,
{
    if n == 0 {
        seq![Seq::empty()]
    } else {
        let ps = raw_pieces(cut, s, (n - 1) as nat);
        if cuts_at(cut, s, n - 1) {
            ps.push(Seq::empty())
        } else {
            ps.update(ps.len() - 1, ps.last().push(s[n - 1]))
        }
    }
}

/// Each piece trimmed, and the ones left empty dropped.
pub open spec fn kept(ps: Seq<Seq<char>>) -> Seq<Seq<char>> {
    ps.map_values(|p: Seq<char>| trim(p)).filter(|p: Seq<char>| p.len() > 0)
}

/// The trimmed, non-empty pieces of `s` between cut positions.
pub open spec fn pieces(cut: Cut, s: Seq<char>) -> Seq<Seq<char>> {
    kept(raw_pieces(cut, s, s.len()))
}

/// `r` lists, as index ranges of `s`, exactly the sequences of `ps`.
pub open spec fn spans_of(s: Seq<char>, r: Seq<(usize, usize)>, ps: Seq<Seq<char>>) -> bool {
    &&& r.len() == ps.len()
    &&& forall|i: int|
        #![trigger r[i]]
        0 <= i < r.len() ==> r[i].0 <= r[i].1 <= s.len() && s.subrange(
            r[i].0 as int,
            r[i].1 as int,
        ) == ps[i]
}

pub proof fn lemma_kept_push(ps: Seq<Seq<char>>, x: Seq<char>)
    ensures
        kept(ps.push(x)) == if trim(x).len() > 0 {
            kept(ps).push(trim(x))
        } else {
            kept(ps)
        },
{
    let f = |p: Seq<char>| trim(p);
    let g = |p: Seq<char>| p.len() > 0;
    assert(ps.push(x).map_values(f) =~= ps.map_values(f).push(trim(x)));
    ps.map_values(f).lemma_filter_push(trim(x), g);
}

proof fn lemma_raw_pieces_step(cut: Cut, s: Seq<char>, i: int, done: Seq<Seq<char>>, start: int)
    requires
        0 <= start <= i < s.len(),
        raw_pieces(cut, s, i as nat) == done.push(s.subrange(start, i)),
    ensures
        cuts_at(cut, s, i) ==> raw_pieces(cut, s, (i + 1) as nat) == done.push(
            s.subrange(start, i),
        ).push(s.subrange(i + 1, i + 1)),
        !cuts_at(cut, s, i) ==> raw_pieces(cut, s, (i + 1) as nat) == done.push(
            s.subrange(start, i + 1),
        ),
{
    let ps = raw_pieces(cut, s, i as nat);
    assert(raw_pieces(cut, s, (i + 1) as nat) == if cuts_at(cut, s, i) {
        ps.push(Seq::empty())
    } else {
        ps.update(ps.len() - 1, ps.last().push(s[i]))
    });
    assert(s.subrange(i + 1, i + 1) =~= Seq::<char>::empty());
    assert(s.subrange(start, i).push(s[i]) =~= s.subrange(start, i + 1));
    assert(done.push(s.subrange(start, i)).update(done.len() as int, s.subrange(start, i + 1))
        =~= done.push(s.subrange(start, i + 1)));
}

/// A maximal run of spaces `p..q` is made of separators exactly when it holds
/// four spaces or more.
pub proof fn lemma_space_run(s: Seq<char>, p: int, q: int, k: int)
    requires
        0 <= p <= k < q <= s.len(),
        spaces_between(s, p, q),
        p == 0 || s[p - 1] != ' ',
        q == s.len() || s[q] != ' ',
    ensures
        in_long_space_run(s, k) <==> q - p >= 4,
        is_field_separator(s, k) <==> q - p >= 4,
{
    if in_long_space_run(s, k) {
        let (p2, q2) = choose|p2: int, q2: int|
            0 <= p2 <= k < q2 <= s.len() && q2 - p2 >= 4 && #[trigger] spaces_between(s, p2, q2);
        if p2 < p {
            assert(s[p - 1] == ' ');
        }
        if q2 > q {
            assert(s[q] == ' ');
        }
    }
    if q - p >= 4 {
        assert(spaces_between(s, p, q));
    }
}

/// The trimmed, non-empty pieces of `cs` between cut positions, as index
/// ranges of `cs`, left to right.
pub fn split_kept(cs: &Vec<char>, cut: Cut) -> (r: Vec<(usize, usize)>)
    ensures
        spans_of(cs@, r@, pieces(cut, cs@)),
{
    let n = cs.len();
    let mut out: Vec<(usize, usize)> = Vec::new();
    let mut start: usize = 0;
    let mut i: usize = 0;
    let mut run_start: usize = 0;
    let mut run_end: usize = 0;
    let mut run_long: bool = false;
    let ghost mut done: Seq<Seq<char>> = Seq::empty();
    assert(cs@.subrange(0, 0) =~= Seq::<char>::empty());
    assert(raw_pieces(cut, cs@, 0) =~= done.push(cs@.subrange(0, 0)));
    while i < n
        invariant
            start <= i <= n == cs.len(),
            raw_pieces(cut, cs@, i as nat) == done.push(cs@.subrange(start as int, i as int)),
            spans_of(cs@, out@, kept(done)),
            i < run_end ==> {
                &&& run_start <= i
                &&& run_end <= n
                &&& spaces_between(cs@, run_start as int, run_end as int)
                &&& (run_start == 0 || cs@[run_start - 1] != ' ')
                &&& (run_end == n || cs@[run_end as int] != ' ')
                &&& run_long == (run_end - run_start >= 4)
            },
            cut == Cut::Fields && 0 < i < n && cs@[i - 1] == ' ' && cs@[i as int] == ' '
                ==> i < run_end,
        decreases n - i,
    {
        let c = cs[i];
        let sep: bool = match cut {
            Cut::Fields => {
                if c == '\t' {
                    true
                } else if c == ' ' {
                    if i >= run_end {
                        let mut j: usize = i;
                        while j < n && cs[j] == ' '
                            invariant
                                i <= j <= n == cs.len(),
                                spaces_between(cs@, i as int, j as int),
                            decreases n - j,
                        {
                            j = j + 1;
                        }
                        run_start = i;
                        run_end = j;
                        run_long = j - i >= 4;
                    }
                    proof {
                        lemma_space_run(cs@, run_start as int, run_end as int, i as int);
                    }
                    run_long
                } else {
                    false
                }
            },
            Cut::Commas => c == ',',
            Cut::Whitespace => is_space(c),
        };
        assert(sep == cuts_at(cut, cs@, i as int));
        proof {
            lemma_raw_pieces_step(cut, cs@, i as int, done, start as int);
        }
        if sep {
            let (a, b) = trim_bounds(cs, start, i);
            proof {
                lemma_kept_push(done, cs@.subrange(start as int, i as int));
                done = done.push(cs@.subrange(start as int, i as int));
            }
            if a < b {
                out.push((a, b));
            }
            start = i + 1;
        }
        i = i + 1;
    }
    let (a, b) = trim_bounds(cs, start, n);
    proof {
        lemma_kept_push(done, cs@.subrange(start as int, n as int));
        done = done.push(cs@.subrange(start as int, n as int));
    }
    if a < b {
        out.push((a, b));
    }
    out
}

/// The strings that the ranges `r` of `cs` cover.
pub fn texts_of(cs: &Vec<char>, r: &Vec<(usize, usize)>) -> (out: Vec<String>)
    requires
        forall|i: int| #![trigger r@[i]] 0 <= i < r@.len() ==> r@[i].0 <= r@[i].1 <= cs.len(),
    ensures
        out@.len() == r@.len(),
        forall|i: int|
            #![trigger out@[i]]
            0 <= i < r@.len() ==> out@[i]@ == cs@.subrange(r@[i].0 as int, r@[i].1 as int),
{
    let mut out: Vec<String> = Vec::new();
    let mut i: usize = 0;
    while i < r.len()
        invariant
            i <= r@.len(),
            out@.len() == i,
            forall|k: int| #![trigger r@[k]] 0 <= k < r@.len() ==> r@[k].0 <= r@[k].1 <= cs.len(),
            forall|k: int|
                #![trigger out@[k]]
                0 <= k < i ==> out@[k]@ == cs@.subrange(r@[k].0 as int, r@[k].1 as int),
        decreases r@.len() - i,
    {
        let (a, b) = r[i];
        assert(r@[i as int].0 <= r@[i as int].1 <= cs.len());
        out.push(string_of(cs, a, b));
        i = i + 1;
    }
    out
}

/// The pieces of `s` between cut positions, trimmed, with the empty ones
/// dropped.
pub fn split_text(s: &str, cut: Cut) -> (r: Vec<String>)
    ensures
        views(r@) == pieces(cut, s@),
{
    let cs = chars_of(s);
    let spans = split_kept(&cs, cut);
    let r = texts_of(&cs, &spans);
    assert(views(r@) =~= pieces(cut, s@));
    r
}

/// Splits a line into its fields. A tab is always a separator, and so is a
/// run of four or more spaces; shorter runs of spaces belong to the text.
/// Each field is trimmed and empty fields are dropped.
pub fn split_on_tab_or_spaces(s: &str) -> (r: Vec<String>)
    ensures
        views(r@) == pieces(Cut::Fields, s@),
{
    split_text(s, Cut::Fields)
}

/// Only spaces lie in runs of spaces.
pub proof fn lemma_run_is_space(s: Seq<char>, k: int)
    requires
        in_long_space_run(s, k),
    ensures
        s[k] == ' ',
{
    let (p, q) = choose|p: int, q: int|
        0 <= p <= k < q <= s.len() && q - p >= 4 && #[trigger] spaces_between(s, p, q);
    assert(s[k] == ' ');
}

/// A run of spaces cannot cross a character that is not a space: within a
/// region bounded by such characters, long runs are those of the region.
pub proof fn lemma_run_local(x: Seq<char>, off: int, len: int, k: int)
    requires
        0 <= off <= k < off + len <= x.len(),
        off == 0 || x[off - 1] != ' ',
        off + len == x.len() || x[off + len] != ' ',
        in_long_space_run(x, k),
    ensures
        in_long_space_run(x.subrange(off, off + len), k - off),
{
    let (p, q) = choose|p: int, q: int|
        0 <= p <= k < q <= x.len() && q - p >= 4 && #[trigger] spaces_between(x, p, q);
    if p < off {
        assert(x[off - 1] == ' ');
    }
    if q > off + len {
        assert(x[off + len] == ' ');
    }
    let y = x.subrange(off, off + len);
    assert forall|t: int| p - off <= t < q - off implies y[t] == ' ' by {
        assert(y[t] == x[t + off]);
    }
    assert(spaces_between(y, p - off, q - off));
}

/// Across a stretch without cut positions, the last piece grows by the
/// stretch.
pub proof fn lemma_raw_no_cut(
    cut: Cut,
    s: Seq<char>,
    from: int,
    to: int,
    done: Seq<Seq<char>>,
    cur: Seq<char>,
)
    requires
        0 <= from <= to <= s.len(),
        raw_pieces(cut, s, from as nat) == done.push(cur),
        forall|k: int| from <= k < to ==> !#[trigger] cuts_at(cut, s, k),
    ensures
        raw_pieces(cut, s, to as nat) == done.push(cur + s.subrange(from, to)),
    decreases to - from,
{
    if to == from {
        assert(cur + s.subrange(from, to) =~= cur);
    } else {
        lemma_raw_no_cut(cut, s, from, to - 1, done, cur);
        assert(!cuts_at(cut, s, to - 1));
        let ps = raw_pieces(cut, s, (to - 1) as nat);
        assert(raw_pieces(cut, s, to as nat) == ps.update(ps.len() - 1, ps.last().push(s[to - 1])));
        assert((cur + s.subrange(from, to - 1)).push(s[to - 1]) =~= cur + s.subrange(from, to));
        assert(ps.update(ps.len() - 1, ps.last().push(s[to - 1])) =~= done.push(
            cur + s.subrange(from, to),
        ));
    }
}

/// A cut position closes the current piece and opens an empty one.
pub proof fn lemma_raw_cut(cut: Cut, s: Seq<char>, i: int)
    requires
        0 <= i < s.len(),
        cuts_at(cut, s, i),
    ensures
        raw_pieces(cut, s, (i + 1) as nat) == raw_pieces(cut, s, i as nat).push(Seq::empty()),
{
}

/// Cuts at commas and at whitespace depend on each character alone, so a
/// prefix is cut the same way in any text it begins.
pub proof fn lemma_raw_prefix(cut: Cut, s1: Seq<char>, s2: Seq<char>, n: int)
    requires
        cut != Cut::Fields,
        0 <= n <= s1.len(),
        n <= s2.len(),
        forall|k: int| 0 <= k < n ==> s1[k] == s2[k],
    ensures
        raw_pieces(cut, s1, n as nat) == raw_pieces(cut, s2, n as nat),
    decreases n,
{
    if n > 0 {
        lemma_raw_prefix(cut, s1, s2, n - 1);
        assert(s1[n - 1] == s2[n - 1]);
        assert(cuts_at(cut, s1, n - 1) == cuts_at(cut, s2, n - 1));
    }
}

} // verus!
