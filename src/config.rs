//! Which task file to use.
//!
//! A default path may be saved in a one-line configuration file; the reading,
//! writing and prompting are left to the program, the decisions are here.

use vstd::prelude::*;
use crate::text::{same_text, trim, trimmed};

verus! {

/// The file name used when none is given.
pub open spec fn default_file_name() -> Seq<char> {
    seq!['i', 'r', 'o', 'n', 'l', 'i', 's', 't', '.', 't', 'x', 't']
}

/// The path a configuration file holds: its text trimmed, if anything is
/// left.
pub fn saved_path(content: &str) -> (r: Option<String>)
    ensures
        r is Some <==> trim(content@).len() > 0,
        r matches Some(p) ==> p@ == trim(content@),
{
    let t = trimmed(content);
    if t.as_str().unicode_len() > 0 {
        Some(t)
    } else {
        None
    }
}

/// Whether the file given on the command line is used rather than the saved
/// default: it must exist and be other than the default name.
pub fn prefers_given_file(file: &str, exists: bool) -> (r: bool)
    ensures
        r == (exists && file@ != default_file_name()),
{
    let d = "ironlist.txt";
    proof {
        reveal_strlit("ironlist.txt");
    }
    assert(d@ =~= default_file_name());
    exists && !same_text(file, d)
}

} // verus!
