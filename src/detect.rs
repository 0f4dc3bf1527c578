//! Repeated-value detection over a birthday set.

use vstd::prelude::*;
use vstd::set_lib::{lemma_int_range, lemma_len_subset, set_int_range};

verus! {

/// How many times `v` occurs in `s`.
pub open spec fn occurrences(s: Seq<u16>, v: u16) -> nat
    decreases s.len(),
{
    if s.len() == 0 {
        0
    } else {
        occurrences(s.drop_last(), v) + if s.last() == v {
            1nat
        } else {
            0nat
        }
    }
}

/// `v` occurs at least twice in `s`.
pub open spec fn is_repeated(s: Seq<u16>, v: u16) -> bool {
    occurrences(s, v) >= 2
}

/// Some value occurs at least twice in `s`.
pub open spec fn has_match(s: Seq<u16>) -> bool {
    exists|v: u16| is_repeated(s, v)
}

pub open spec fn strictly_increasing(m: Seq<u16>) -> bool {
    forall|i: int, j: int| 0 <= i < j < m.len() ==> m[i] < m[j]
}

/// `r` reports the repeated values of `s`: nothing when no value repeats,
/// otherwise each repeated value exactly once, in increasing order.
pub open spec fn is_match_report(s: Seq<u16>, r: Option<Vec<u16>>) -> bool {
    match r {
        None => !has_match(s),
        Some(m) => has_match(s) && strictly_increasing(m@) && forall|v: u16|
            m@.contains(v) <==> #[trigger] is_repeated(s, v),
    }
}

/// A value counts zero times exactly when no position holds it.
pub proof fn lemma_occurrences_zero(s: Seq<u16>, v: u16)
    ensures
        occurrences(s, v) == 0 <==> forall|i: int| 0 <= i < s.len() ==> s[i] != v,
    decreases s.len(),
{
    if s.len() > 0 {
        lemma_occurrences_zero(s.drop_last(), v);
        if occurrences(s, v) == 0 {
            assert forall|i: int| 0 <= i < s.len() implies s[i] != v by {
                if i < s.len() - 1 {
                    assert(s.drop_last()[i] == s[i]);
                }
            }
        }
        if forall|i: int| 0 <= i < s.len() ==> s[i] != v {
            assert forall|i: int| 0 <= i < s.drop_last().len() implies s.drop_last()[i] != v by {
                assert(s.drop_last()[i] == s[i]);
            }
        }
    }
}

/// A sequence in which no value repeats has pairwise distinct positions.
pub proof fn lemma_no_match_distinct(s: Seq<u16>)
    requires
        !has_match(s),
    ensures
        s.no_duplicates(),
    decreases s.len(),
{
    if s.len() > 0 {
        let t = s.drop_last();
        let x = s.last();
        assert forall|v: u16| !is_repeated(t, v) by {
            assert(!is_repeated(s, v));
        }
        lemma_no_match_distinct(t);
        assert(!is_repeated(s, x));
        lemma_occurrences_zero(t, x);
        assert forall|i: int, j: int|
            0 <= i < s.len() && 0 <= j < s.len() && i != j implies s[i] != s[j] by {
            if i < s.len() - 1 && j < s.len() - 1 {
                assert(t[i] == s[i] && t[j] == s[j]);
            } else if i < s.len() - 1 {
                assert(t[i] == s[i]);
            } else {
                assert(t[j] == s[j]);
            }
        }
    }
}

/// Pigeonhole: more than `hi` values drawn from `1..=hi` always hold a repeat.
pub proof fn lemma_pigeonhole(s: Seq<u16>, hi: u16)
    requires
        s.len() > hi,
        forall|i: int| 0 <= i < s.len() ==> 1 <= #[trigger] s[i] <= hi,
    ensures
        has_match(s),
{
    if !has_match(s) {
        lemma_no_match_distinct(s);
        let t = s.map_values(|x: u16| x as int);
        assert(t.no_duplicates()) by {
            assert forall|i: int, j: int|
                0 <= i < t.len() && 0 <= j < t.len() && i != j implies t[i] != t[j] by {
                assert(s[i] != s[j]);
            }
        }
        t.unique_seq_to_set();
        lemma_int_range(1, hi + 1);
        assert(t.to_set().subset_of(set_int_range(1, hi + 1))) by {
            assert forall|x: int| t.to_set().contains(x) implies set_int_range(1, hi + 1).contains(
                x,
            ) by {
                let k = choose|k: int| 0 <= k < t.len() && t[k] == x;
                assert(1 <= s[k] <= hi);
            }
        }
        lemma_len_subset(t.to_set(), set_int_range(1, hi + 1));
    }
}

/// Sets of fewer than two values never hold a repeat.
pub proof fn lemma_small_set_no_match(s: Seq<u16>)
    requires
        s.len() <= 1,
    ensures
        !has_match(s),
{
    assert forall|v: u16| !is_repeated(s, v) by {
        if s.len() == 1 {
            assert(occurrences(s.drop_last(), v) == 0);
        }
    }
}

/// Reports the values that occur more than once in `birthdays`: `None` when
/// every value is distinct, otherwise each repeated value once, in increasing
/// order.
pub fn get_match(birthdays: &Vec<u16>) -> (r: Option<Vec<u16>>)
    ensures
        is_match_report(birthdays@, r),
{
    let s = Ghost(birthdays@);
    let n = birthdays.len();
    let mut top: u16 = 0;
    let mut i: usize = 0;
    while i < n
        invariant
            s@ == birthdays@,
            n == s@.len(),
            i <= n,
            forall|k: int| 0 <= k < i ==> s@[k] <= top,
        decreases n - i,
    {
        if birthdays[i] > top {
            top = birthdays[i];
        }
        i = i + 1;
    }
    // seen[v] is how often v occurred so far, capped at two
    let mut seen: Vec<u8> = Vec::new();
    while seen.len() <= top as usize
        invariant
            seen@.len() <= top as int + 1,
            forall|k: int| 0 <= k < seen@.len() ==> seen@[k] == 0,
        decreases top as int + 1 - seen@.len(),
    {
        seen.push(0);
    }
    i = 0;
    while i < n
        invariant
            s@ == birthdays@,
            n == s@.len(),
            i <= n,
            forall|k: int| 0 <= k < n ==> s@[k] <= top,
            seen@.len() == top as int + 1,
            forall|w: u16|
                w <= top ==> #[trigger] seen@[w as int] == capped(occurrences(s@.take(i as int), w)),
        decreases n - i,
    {
        let v = birthdays[i];
        let c = seen[v as usize];
        if c < 2 {
            seen.set(v as usize, c + 1);
        }
        proof {
            let prev = s@.take(i as int);
            let next = s@.take(i as int + 1);
            assert(next.drop_last() =~= prev);
            assert forall|w: u16| w <= top implies #[trigger] seen@[w as int] == capped(
                occurrences(next, w),
            ) by {
                assert(occurrences(next, w) == occurrences(prev, w) + if v == w {
                    1nat
                } else {
                    0nat
                });
            }
        }
        i = i + 1;
    }
    assert(s@.take(n as int) =~= s@);
    let mut m: Vec<u16> = Vec::new();
    let mut w: u32 = 0;
    while w <= top as u32
        invariant
            w <= top as u32 + 1,
            seen@.len() == top as int + 1,
            strictly_increasing(m@),
            forall|k: int| 0 <= k < m@.len() ==> m@[k] < w,
            forall|x: u16| (x as u32) < w ==> (m@.contains(x) <==> #[trigger] seen@[x as int] == 2),
            forall|x: u16| x <= top ==> #[trigger] seen@[x as int] == capped(occurrences(s@, x)),
        decreases top as u32 + 1 - w,
    {
        let ghost before = m@;
        if seen[w as usize] == 2 {
            m.push(w as u16);
            assert(m@ == before.push(w as u16));
        }
        proof {
            assert forall|x: u16| (x as u32) < w + 1 implies (m@.contains(x) <==> #[trigger] seen@[
                x as int] == 2) by {
                if m@.contains(x) {
                    let k = choose|k: int| 0 <= k < m@.len() && m@[k] == x;
                    if k < before.len() {
                        assert(before[k] == x);
                    }
                }
                if (x as u32) < w && before.contains(x) {
                    let k = choose|k: int| 0 <= k < before.len() && before[k] == x;
                    assert(m@[k] == x);
                }
                if x as u32 == w && seen@[x as int] == 2 {
                    assert(m@[m@.len() - 1] == x);
                }
            }
        }
        w = w + 1;
    }
    proof {
        assert forall|v: u16| m@.contains(v) <==> #[trigger] is_repeated(s@, v) by {
            if v <= top {
                assert(seen@[v as int] == capped(occurrences(s@, v)));
                assert((v as u32) < w);
            } else {
                lemma_occurrences_zero(s@, v);
                if m@.contains(v) {
                    let k = choose|k: int| 0 <= k < m@.len() && m@[k] == v;
                }
            }
        }
    }
    if m.len() == 0 {
        proof {
            if has_match(s@) {
                let v = choose|v: u16| is_repeated(s@, v);
                assert(m@.contains(v));
            }
        }
        None
    } else {
        assert(m@.contains(m@[0]));
        assert(is_repeated(s@, m@[0]));
        Some(m)
    }
}

/// A count capped at two: never, once, or more than once.
pub open spec fn capped(n: nat) -> nat {
    if n >= 2 {
        2
    } else {
        n
    }
}

} // verus!
