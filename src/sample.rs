//! Drawing birthday sets and running single trials.

use crate::detect::{
    get_match, has_match, is_match_report, lemma_pigeonhole, lemma_small_set_no_match,
};
use vstd::prelude::*;

verus! {

/// Number of distinct day-of-year values a birthday can take.
pub const DAYS_IN_YEAR: u16 = 365;

/// `s` is one trial's birthdays: `n` day-of-year values in `1..=DAYS_IN_YEAR`.
pub open spec fn is_birthday_set(s: Seq<u16>, n: nat) -> bool {
    &&& s.len() == n
    &&& forall|i: int| 0 <= i < s.len() ==> 1 <= #[trigger] s[i] <= DAYS_IN_YEAR
}

/// Relies on rand::thread_rng and Rng::gen_range: a value drawn from the
/// closed range `lo..=hi`, which must not be empty.
#[verifier::external_body]
fn draw_between(lo: u16, hi: u16) -> (r: u16)
    requires
        lo <= hi,
    ensures
        lo <= r <= hi,
{
    rand::Rng::gen_range(&mut rand::thread_rng(), lo..=hi)
}

/// Draws `set_size` birthdays, each independently and uniformly from the days
/// of the year.
pub fn get_birthdays(set_size: u16) -> (r: Vec<u16>)
    ensures
        is_birthday_set(r@, set_size as nat),
{
    let mut birthdays: Vec<u16> = Vec::new();
    let mut i: u16 = 0;
    while i < set_size
        invariant
            i <= set_size,
            is_birthday_set(birthdays@, i as nat),
        decreases set_size - i,
    {
        let day = draw_between(1, DAYS_IN_YEAR);
        birthdays.push(day);
        i = i + 1;
    }
    birthdays
}

/// One fully detailed trial: the birthdays drawn and the values among them
/// that repeat.
pub fn sample_one(set_size: u16) -> (r: (Vec<u16>, Option<Vec<u16>>))
    ensures
        is_birthday_set(r.0@, set_size as nat),
        is_match_report(r.0@, r.1),
{
    let birthdays = get_birthdays(set_size);
    let matches = get_match(&birthdays);
    (birthdays, matches)
}

/// Runs one trial and tells whether any birthday repeated. More people than
/// days always match; fewer than two never do.
pub fn run_trial(set_size: u16) -> (r: bool)
    ensures
        exists|s: Seq<u16>| is_birthday_set(s, set_size as nat) && r == has_match(s),
        set_size > DAYS_IN_YEAR ==> r,
        set_size <= 1 ==> !r,
{
    let birthdays = get_birthdays(set_size);
    let matches = get_match(&birthdays);
    proof {
        if set_size > DAYS_IN_YEAR {
            lemma_pigeonhole(birthdays@, DAYS_IN_YEAR);
        }
        if set_size <= 1 {
            lemma_small_set_no_match(birthdays@);
        }
    }
    matches.is_some()
}

} // verus!
