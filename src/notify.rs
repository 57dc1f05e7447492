//! What the notifier sends and how long it waits.
//!
//! The notifier itself reads the file, asks the clock, shows the
//! notification and sleeps; the decisions between those steps are here.

use vstd::prelude::*;
use crate::codec::{push_tag_text, tag_text};
use crate::date::{date_chars, date_le, decimal_chars, digit_value, is_digit, push_date, push_decimal, Date};
use crate::entry::{is_complete, is_done, Entry, EntryView};
use crate::store::{all_dates_valid, entry_views};
use crate::text::{chars_of, push_str, trim, trimmed};

verus! {

broadcast use vstd::seq_lib::group_seq_lib_default;

/// At most this many entries are listed in a notification.
pub const MAX_LISTED: usize = 10;

/// A time of day, to the minute.
#[derive(Clone, Copy, PartialEq, Eq, Structural, Debug)]
pub struct TimeOfDay {
    pub hour: u32,
    pub minute: u32,
}

/// Relies on `chrono::NaiveTime::from_hms_opt`: a time exists exactly when the
/// hour is below 24 and the minute and second below 60.
#[verifier::external_body]
fn clock_has(hour: u32, minute: u32) -> (r: bool)
    ensures
        r == (hour < 24 && minute < 60),
{
    chrono::NaiveTime::from_hms_opt(hour, minute, 0).is_some()
}

/// The time that `s` names: `HH:MM`, 24-hour, zero-padded.
pub open spec fn time_of(s: Seq<char>) -> Option<TimeOfDay> {
    if s.len() == 5 && s[2] == ':' && is_digit(s[0]) && is_digit(s[1]) && is_digit(s[3])
        && is_digit(s[4]) {
        let h = digit_value(s[0]) * 10 + digit_value(s[1]);
        let m = digit_value(s[3]) * 10 + digit_value(s[4]);
        if h < 24 && m < 60 {
            Some(TimeOfDay { hour: h as u32, minute: m as u32 })
        } else {
            None
        }
    } else {
        None
    }
}

fn digit_of(c: char) -> (r: Option<u32>)
    ensures
        r == (if is_digit(c) {
            Some(digit_value(c) as u32)
        } else {
            None::<u32>
        }),
{
    let u = c as u32;
    if 0x30 <= u && u <= 0x39 {
        Some(u - 0x30)
    } else {
        None
    }
}

/// Reads a time of day written `HH:MM`.
pub fn parse_time_of_day(s: &str) -> (r: Option<TimeOfDay>)
    ensures
        r == time_of(s@),
{
    let cs = chars_of(s);
    if cs.len() != 5 || cs[2] != ':' {
        return None;
    }
    match (digit_of(cs[0]), digit_of(cs[1]), digit_of(cs[3]), digit_of(cs[4])) {
        (Some(h1), Some(h0), Some(m1), Some(m0)) => {
            let hour = h1 * 10 + h0;
            let minute = m1 * 10 + m0;
            if clock_has(hour, minute) {
                Some(TimeOfDay { hour, minute })
            } else {
                None
            }
        },
        _ => None,
    }
}

impl TimeOfDay {
    pub open spec fn secs(self) -> int {
        self.hour * 3600 + self.minute * 60
    }

    /// Seconds from midnight.
    pub fn seconds(&self) -> (r: u32)
        requires
            self.hour < 24,
            self.minute < 60,
        ensures
            r == self.secs(),
    {
        self.hour * 3600 + self.minute * 60
    }
}

/// The seconds to wait before the next notification, `now` being the
/// seconds since midnight: with an interval, that many minutes (saturating);
/// otherwise until `target` today if it is still ahead, else tomorrow.
pub open spec fn delay_secs(interval_minutes: Option<u64>, now: int, target: int) -> int {
    match interval_minutes {
        Some(m) => if m * 60 <= u64::MAX {
            m * 60
        } else {
            u64::MAX as int
        },
        None => if now < target {
            target - now
        } else {
            86400 - now + target
        },
    }
}

/// How long the notifier sleeps before it runs again.
pub fn next_delay_secs(interval_minutes: Option<u64>, now_secs: u32, target: &TimeOfDay) -> (r: u64)
    requires
        now_secs < 86400,
        target.hour < 24,
        target.minute < 60,
    ensures
        r == delay_secs(interval_minutes, now_secs as int, target.secs()),
{
    match interval_minutes {
        Some(m) => if m <= u64::MAX / 60 {
            m * 60
        } else {
            u64::MAX
        },
        None => {
            let t = target.seconds();
            if now_secs < t {
                (t - now_secs) as u64
            } else {
                (86400 - now_secs + t) as u64
            }
        },
    }
}

pub open spec fn upcoming_pred(today: Date) -> spec_fn(EntryView) -> bool {
    |e: EntryView| date_le(today, e.date) && !is_done(e)
}

/// The entries of `s` dated today or later and not complete, in order.
pub open spec fn upcoming(s: Seq<EntryView>, today: Date) -> Seq<EntryView> {
    s.filter(upcoming_pred(today))
}

/// The headline of a notification about `count` upcoming entries.
pub open spec fn summary_text(count: nat) -> Seq<char> {
    if count == 0 {
        "IronList: no upcoming items"@
    } else {
        "IronList: "@ + decimal_chars(count) + " upcoming item(s)"@
    }
}

/// The line that lists one entry in a notification.
pub open spec fn listed_line(e: EntryView) -> Seq<char> {
    "- "@ + date_chars(e.date) + ": "@ + trim(e.desc) + " ["@ + tag_text(e.tags) + "]\n"@
}

pub open spec fn listed_lines(s: Seq<EntryView>) -> Seq<char>
    decreases s.len(),
{
    if s.len() == 0 {
        Seq::empty()
    } else {
        listed_lines(s.drop_last()) + listed_line(s.last())
    }
}

/// The body of a notification: the first upcoming entries, and how many more
/// there are.
pub open spec fn body_text(up: Seq<EntryView>) -> Seq<char> {
    if up.len() > MAX_LISTED {
        listed_lines(up.subrange(0, MAX_LISTED as int)) + "and "@ + decimal_chars(
            (up.len() - MAX_LISTED) as nat,
        ) + " more..."@
    } else {
        listed_lines(up)
    }
}

/// A notification: a headline and a body.
pub struct Notification {
    pub summary: String,
    pub body: String,
}

/// The notification about the entries of `entries` that are upcoming on
/// `today`.
pub fn notification(entries: &Vec<Entry>, today: &Date) -> (r: Notification)
    requires
        all_dates_valid(entries@),
    ensures
        r.summary@ == summary_text(upcoming(entry_views(entries@), *today).len()),
        r.body@ == body_text(upcoming(entry_views(entries@), *today)),
{
    let ghost pred = upcoming_pred(*today);
    let mut body = String::new();
    let mut count: usize = 0;
    let mut i: usize = 0;
    while i < entries.len()
        invariant
            i <= entries@.len(),
            all_dates_valid(entries@),
            pred == upcoming_pred(*today),
            count == entry_views(entries@.subrange(0, i as int)).filter(pred).len(),
            count <= i,
            body@ == listed_lines(
                entry_views(entries@.subrange(0, i as int)).filter(pred).subrange(
                    0,
                    if count <= MAX_LISTED {
                        count as int
                    } else {
                        MAX_LISTED as int
                    },
                ),
            ),
        decreases entries@.len() - i,
    {
        let ghost s = entry_views(entries@.subrange(0, i as int));
        let ghost s2 = entry_views(entries@.subrange(0, i + 1));
        assert(s2 =~= s.push(entries@[i as int]@));
        proof {
            s.lemma_filter_push(entries@[i as int]@, pred);
        }
        let e = &entries[i];
        if today.is_on_or_before(&e.date) && !is_complete(e) {
            if count < MAX_LISTED {
                let ghost before = body@;
                push_str(&mut body, "- ");
                assert(e.date.valid());
                push_date(&mut body, &e.date);
                push_str(&mut body, ": ");
                let d = trimmed(e.desc.as_str());
                push_str(&mut body, d.as_str());
                push_str(&mut body, " [");
                push_tag_text(&mut body, &e.tags);
                push_str(&mut body, "]\n");
                proof {
                    let f2 = s2.filter(pred).subrange(0, count + 1);
                    assert(f2.drop_last() =~= s.filter(pred).subrange(0, count as int));
                    assert(f2.last() == e@);
                    assert(body@ =~= before + listed_line(e@));
                }
            } else {
                assert(s2.filter(pred).subrange(0, MAX_LISTED as int) =~= s.filter(pred).subrange(
                    0,
                    MAX_LISTED as int,
                ));
            }
            count = count + 1;
        } else {
            assert(s2.filter(pred) == s.filter(pred));
        }
        i = i + 1;
    }
    assert(entries@.subrange(0, i as int) =~= entries@);
    let ghost up = entry_views(entries@).filter(pred);
    let mut summary = String::new();
    if count == 0 {
        push_str(&mut summary, "IronList: no upcoming items");
    } else {
        push_str(&mut summary, "IronList: ");
        push_decimal(&mut summary, count as u64);
        push_str(&mut summary, " upcoming item(s)");
    }
    if count > MAX_LISTED {
        push_str(&mut body, "and ");
        push_decimal(&mut body, (count - MAX_LISTED) as u64);
        push_str(&mut body, " more...");
    } else {
        assert(up.subrange(0, count as int) =~= up);
    }
    assert(summary@ =~= summary_text(up.len()));
    assert(body@ =~= body_text(up));
    Notification { summary, body }
}

} // verus!
