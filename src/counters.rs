//! The counter puzzle: each press of a button adds one to every counter whose
//! index the button lists, and every counter must reach its target exactly.
//! An integer-programming oracle proposes press counts; this module states the
//! program it is given and checks the answer it returns.

use vstd::prelude::*;
use crate::toggle::{button_lists, buttons_view, lists};

verus! {

/// The sum of `x[j]` over the buttons `j < k` that list counter `t`.
pub open spec fn counter_total(buttons: Seq<Seq<usize>>, x: Seq<u64>, t: int, k: int) -> int
    decreases k,
{
    if k <= 0 {
        0
    } else {
        counter_total(buttons, x, t, k - 1) + if lists(buttons[k - 1], t) {
            x[k - 1] as int
        } else {
            0
        }
    }
}

/// The total number of presses in `x`, the sum of its first `k` entries.
pub open spec fn press_total(x: Seq<u64>, k: int) -> int
    decreases k,
{
    if k <= 0 {
        0
    } else {
        press_total(x, k - 1) + x[k - 1] as int
    }
}

/// `x` gives a press count for each button, and every counter reaches its
/// target exactly.
pub open spec fn meets_targets(buttons: Seq<Seq<usize>>, targets: Seq<u64>, x: Seq<u64>) -> bool {
    &&& x.len() == buttons.len()
    &&& forall|t: int|
        0 <= t < targets.len() ==> #[trigger] counter_total(buttons, x, t, buttons.len() as int)
            == targets[t] as int
}

/// `w` is the least total number of presses that meets the targets.
pub open spec fn is_min_counter_presses(
    buttons: Seq<Seq<usize>>,
    targets: Seq<u64>,
    w: nat,
) -> bool {
    &&& exists|x: Seq<u64>|
        meets_targets(buttons, targets, x) && press_total(x, x.len() as int) == w
    &&& forall|x: Seq<u64>|
        meets_targets(buttons, targets, x) ==> w <= press_total(x, x.len() as int)
}

/// The buttons that list counter `t`, in increasing order: the variables of
/// the equation of counter `t`.
pub open spec fn equation_of(buttons: Seq<Seq<usize>>, t: int, k: int) -> Seq<usize>
    decreases k,
{
    if k <= 0 {
        Seq::empty()
    } else if lists(buttons[k - 1], t) {
        equation_of(buttons, t, k - 1).push((k - 1) as usize)
    } else {
        equation_of(buttons, t, k - 1)
    }
}

proof fn lemma_counter_total_mono(buttons: Seq<Seq<usize>>, x: Seq<u64>, t: int, k: int, k2: int)
    requires
        0 <= k <= k2,
    ensures
        counter_total(buttons, x, t, k) <= counter_total(buttons, x, t, k2),
    decreases k2 - k,
{
    if k2 > k {
        lemma_counter_total_mono(buttons, x, t, k, k2 - 1);
    }
}

/// The buttons that list counter `t`, in increasing order.
pub fn affecting_buttons(buttons: &Vec<Vec<usize>>, t: usize) -> (r: Vec<usize>)
    ensures
        r@ == equation_of(buttons_view(buttons), t as int, buttons@.len() as int),
{
    let ghost bv = buttons_view(buttons);
    let mut r: Vec<usize> = Vec::new();
    let mut j: usize = 0;
    while j < buttons.len()
        invariant
            bv == buttons_view(buttons),
            j <= buttons@.len(),
            r@ == equation_of(bv, t as int, j as int),
        decreases buttons@.len() - j,
    {
        if button_lists(&buttons[j], t) {
            r.push(j);
        }
        j = j + 1;
    }
    r
}

/// The equations of the integer program: for each counter, the buttons whose
/// press counts add up to its target.
pub fn counter_equations(buttons: &Vec<Vec<usize>>, n_counters: usize) -> (r: Vec<Vec<usize>>)
    ensures
        r@.len() == n_counters,
        forall|t: int|
            0 <= t < n_counters ==> (#[trigger] r@[t])@ == equation_of(
                buttons_view(buttons),
                t,
                buttons@.len() as int,
            ),
{
    let mut r: Vec<Vec<usize>> = Vec::new();
    let mut t: usize = 0;
    while t < n_counters
        invariant
            t <= n_counters,
            r@.len() == t,
            forall|k: int|
                0 <= k < t ==> (#[trigger] r@[k])@ == equation_of(
                    buttons_view(buttons),
                    k,
                    buttons@.len() as int,
                ),
        decreases n_counters - t,
    {
        r.push(affecting_buttons(buttons, t));
        t = t + 1;
    }
    r
}

/// The total of the press counts when they meet every target and the total
/// fits in a `u64`; `None` otherwise.
pub fn check_presses(buttons: &Vec<Vec<usize>>, targets: &Vec<u64>, presses: &Vec<u64>) -> (r:
    Option<u64>)
    ensures
        match r {
            Some(w) => {
                &&& meets_targets(buttons_view(buttons), targets@, presses@)
                &&& w as int == press_total(presses@, presses@.len() as int)
            },
            None => !meets_targets(buttons_view(buttons), targets@, presses@) || press_total(
                presses@,
                presses@.len() as int,
            ) > u64::MAX,
        },
{
    let ghost bv = buttons_view(buttons);
    if presses.len() != buttons.len() {
        return None;
    }
    let n = buttons.len();
    let mut t: usize = 0;
    while t < targets.len()
        invariant
            bv == buttons_view(buttons),
            n == buttons@.len(),
            presses@.len() == n,
            t <= targets@.len(),
            forall|k: int|
                0 <= k < t ==> #[trigger] counter_total(bv, presses@, k, n as int)
                    == targets@[k] as int,
        decreases targets@.len() - t,
    {
        let mut acc: u64 = 0;
        let mut j: usize = 0;
        while j < n
            invariant
                bv == buttons_view(buttons),
                n == buttons@.len(),
                presses@.len() == n,
                t < targets@.len(),
                j <= n,
                acc as int == counter_total(bv, presses@, t as int, j as int),
            decreases n - j,
        {
            if button_lists(&buttons[j], t) {
                match acc.checked_add(presses[j]) {
                    Some(v) => {
                        acc = v;
                    },
                    None => {
                        proof {
                            lemma_counter_total_mono(bv, presses@, t as int, j + 1, n as int);
                            assert(counter_total(bv, presses@, t as int, n as int)
                                != targets@[t as int] as int);
                        }
                        return None;
                    },
                }
            }
            j = j + 1;
        }
        if acc != targets[t] {
            return None;
        }
        t = t + 1;
    }
    let mut total: u64 = 0;
    let mut j: usize = 0;
    while j < n
        invariant
            presses@.len() == n,
            j <= n,
            total as int == press_total(presses@, j as int),
        decreases n - j,
    {
        match total.checked_add(presses[j]) {
            Some(v) => {
                total = v;
            },
            None => {
                proof {
                    assert forall|k: int| j + 1 <= k <= n implies press_total(presses@, j + 1)
                        <= #[trigger] press_total(presses@, k) by {
                        lemma_press_total_mono(presses@, j + 1, k);
                    }
                }
                return None;
            },
        }
        j = j + 1;
    }
    Some(total)
}

proof fn lemma_press_total_mono(x: Seq<u64>, k: int, k2: int)
    requires
        0 <= k <= k2,
    ensures
        press_total(x, k) <= press_total(x, k2),
    decreases k2 - k,
{
    if k2 > k {
        lemma_press_total_mono(x, k, k2 - 1);
    }
}


/// With no buttons, zero presses is the answer when every target is zero, and
/// no press counts meet the targets otherwise.
pub proof fn lemma_no_buttons_counters(targets: Seq<u64>)
    ensures
        (forall|t: int| 0 <= t < targets.len() ==> targets[t] == 0) ==> is_min_counter_presses(
            Seq::empty(),
            targets,
            0,
        ),
        (exists|t: int| 0 <= t < targets.len() && targets[t] != 0) ==> forall|x: Seq<u64>|
            !#[trigger] meets_targets(Seq::empty(), targets, x),
{
    let x = Seq::<u64>::empty();
    if forall|t: int| 0 <= t < targets.len() ==> targets[t] == 0 {
        assert(meets_targets(Seq::empty(), targets, x));
        assert(press_total(x, 0) == 0);
    }
    if exists|t: int| 0 <= t < targets.len() && targets[t] != 0 {
        let t = choose|t: int| 0 <= t < targets.len() && targets[t] != 0;
        assert forall|y: Seq<u64>| !#[trigger] meets_targets(Seq::empty(), targets, y) by {
            assert(counter_total(Seq::empty(), y, t, 0) == 0);
        }
    }
}

/// The least total number of presses that brings every counter to its target.
/// With no buttons this is decided here: zero when every target is zero,
/// `None` otherwise. Otherwise `answer` is what the integer-programming oracle
/// returned for the program of `counter_equations` with the objective of
/// minimising the total presses: `None` when it found the program infeasible
/// or failed, else a press count per button. An answer is accepted only when
/// it meets every target, and its total is returned.
pub fn solve_part2(buttons: &Vec<Vec<usize>>, targets: &Vec<u64>, answer: Option<Vec<u64>>) -> (r:
    Option<u64>)
    ensures
        buttons@.len() == 0 ==> match r {
            Some(w) => w == 0 && is_min_counter_presses(buttons_view(buttons), targets@, 0),
            None => exists|t: int| 0 <= t < targets@.len() && targets@[t] != 0,
        },
        buttons@.len() == 0 ==> (r is Some <==> forall|t: int|
            0 <= t < targets@.len() ==> targets@[t] == 0),
        buttons@.len() > 0 ==> match answer {
            Some(p) => match r {
                Some(w) => meets_targets(buttons_view(buttons), targets@, p@) && w as int
                    == press_total(p@, p@.len() as int),
                None => !meets_targets(buttons_view(buttons), targets@, p@) || press_total(
                    p@,
                    p@.len() as int,
                ) > u64::MAX,
            },
            None => r is None,
        },
        r matches Some(w) ==> exists|x: Seq<u64>|
            meets_targets(buttons_view(buttons), targets@, x) && press_total(x, x.len() as int)
                == w,
{
    if buttons.len() == 0 {
        proof {
            assert(buttons_view(buttons) =~= Seq::<Seq<usize>>::empty());
            lemma_no_buttons_counters(targets@);
        }
        let mut t: usize = 0;
        while t < targets.len()
            invariant
                buttons@.len() == 0,
                buttons_view(buttons) == Seq::<Seq<usize>>::empty(),
                t <= targets@.len(),
                forall|k: int| 0 <= k < t ==> targets@[k] == 0,
            decreases targets@.len() - t,
        {
            if targets[t] != 0 {
                assert(targets@[t as int] != 0);
                return None;
            }
            t = t + 1;
        }
        assert(forall|k: int| 0 <= k < targets@.len() ==> targets@[k] == 0);
        return Some(0);
    }
    match answer {
        Some(p) => check_presses(buttons, targets, &p),
        None => None,
    }
}

} // verus!
