//! A machine, as one input record describes it, and the totals over a batch
//! of machines.

use vstd::prelude::*;
use crate::counters::{is_min_counter_presses, meets_targets, press_total, solve_part2};
use crate::toggle::{buttons_view, is_min_presses, solvable, solve_part1};

verus! {

/// One machine: the target light pattern, the buttons with the indices of the
/// lights (or counters) each one affects, and the counter targets.
#[derive(Debug, PartialEq, Eq)]
pub struct MachineSpec {
    pub lights: Vec<bool>,
    pub buttons: Vec<Vec<usize>>,
    pub targets: Vec<u64>,
}

/// The sum of the known results, or `None` when a result is missing.
pub open spec fn total_of(rs: Seq<Option<u64>>) -> Option<int>
    decreases rs.len(),
{
    if rs.len() == 0 {
        Some(0)
    } else {
        match (total_of(rs.drop_last()), rs.last()) {
            (Some(s), Some(v)) => Some(s + v),
            _ => None,
        }
    }
}

/// The grand total of the per-machine results: `None` when some machine has
/// no answer or the sum does not fit in a `u64`.
pub fn sum_results(rs: &Vec<Option<u64>>) -> (r: Option<u64>)
    ensures
        match r {
            Some(w) => total_of(rs@) == Some(w as int),
            None => match total_of(rs@) {
                Some(s) => s > u64::MAX,
                None => true,
            },
        },
{
    let mut acc: u64 = 0;
    let mut k: usize = 0;
    while k < rs.len()
        invariant
            k <= rs@.len(),
            total_of(rs@.subrange(0, k as int)) == Some(acc as int),
        decreases rs@.len() - k,
    {
        assert(rs@.subrange(0, k + 1).drop_last() =~= rs@.subrange(0, k as int));
        match rs[k] {
            Some(v) => {
                match acc.checked_add(v) {
                    Some(s) => {
                        acc = s;
                    },
                    None => {
                        proof {
                            lemma_total_grows(rs@, k + 1, acc + v);
                        }
                        return None;
                    },
                }
            },
            None => {
                proof {
                    lemma_total_missing(rs@, k + 1);
                }
                return None;
            },
        }
        k = k + 1;
    }
    assert(rs@.subrange(0, rs@.len() as int) =~= rs@);
    Some(acc)
}

/// A prefix without a result leaves the whole without a total.
proof fn lemma_total_missing(rs: Seq<Option<u64>>, k: int)
    requires
        0 <= k <= rs.len(),
        total_of(rs.subrange(0, k)) is None,
    ensures
        total_of(rs) is None,
    decreases rs.len() - k,
{
    if k < rs.len() {
        assert(rs.subrange(0, k + 1).drop_last() =~= rs.subrange(0, k));
        lemma_total_missing(rs, k + 1);
    } else {
        assert(rs.subrange(0, k) =~= rs);
    }
}

/// The total of a prefix is at most the total of the whole.
proof fn lemma_total_grows(rs: Seq<Option<u64>>, k: int, a: int)
    requires
        0 <= k <= rs.len(),
        total_of(rs.subrange(0, k)) == Some(a),
    ensures
        total_of(rs) matches Some(s) ==> a <= s,
    decreases rs.len() - k,
{
    if k < rs.len() {
        assert(rs.subrange(0, k + 1).drop_last() =~= rs.subrange(0, k));
        match rs[k] {
            Some(v) => lemma_total_grows(rs, k + 1, a + v),
            None => lemma_total_missing(rs, k + 1),
        }
    } else {
        assert(rs.subrange(0, k) =~= rs);
    }
}

/// Solves both puzzles of one machine. `answer` is the integer-programming
/// oracle's answer for the counter puzzle (see `solve_part2`).
pub fn solve_machine(m: &MachineSpec, answer: Option<Vec<u64>>) -> (r: (Option<u64>, Option<u64>))
    requires
        m.buttons@.len() < usize::MAX,
    ensures
        match r.0 {
            Some(w) => is_min_presses(m.lights@, buttons_view(&m.buttons), w as nat),
            None => !solvable(m.lights@, buttons_view(&m.buttons)),
        },
        m.buttons@.len() == 0 ==> match r.1 {
            Some(w) => w == 0 && is_min_counter_presses(buttons_view(&m.buttons), m.targets@, 0),
            None => exists|t: int| 0 <= t < m.targets@.len() && m.targets@[t] != 0,
        },
        r.1 matches Some(w) ==> exists|x: Seq<u64>|
            meets_targets(buttons_view(&m.buttons), m.targets@, x) && press_total(
                x,
                x.len() as int,
            ) == w,
{
    let part1 = solve_part1(&m.lights, &m.buttons);
    let part2 = solve_part2(&m.buttons, &m.targets, answer);
    (part1, part2)
}

} // verus!
