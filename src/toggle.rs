//! The light puzzle: each press of a button flips every light whose index the
//! button lists. The minimum number of presses is found by Gaussian
//! elimination over GF(2) followed by an enumeration of the free variables.

use vstd::prelude::*;

verus! {

/// Whether button `b` lists light `l`.
pub open spec fn lists(b: Seq<usize>, l: int) -> bool {
    exists|k: int| 0 <= k < b.len() && b[k] as int == l
}

/// The state of light `l` after pressing, from all-off, each of the first `k`
/// buttons whose entry in `x` is true.
pub open spec fn lit_after(buttons: Seq<Seq<usize>>, x: Seq<bool>, l: int, k: int) -> bool
    decreases k,
{
    if k <= 0 {
        false
    } else {
        lit_after(buttons, x, l, k - 1) ^ (x[k - 1] && lists(buttons[k - 1], l))
    }
}

/// The light pattern, of `n_lights` lights, that the presses `x` produce.
pub open spec fn pattern(n_lights: nat, buttons: Seq<Seq<usize>>, x: Seq<bool>) -> Seq<bool> {
    Seq::new(n_lights, |l: int| lit_after(buttons, x, l, buttons.len() as int))
}

/// `x` says for each button whether it is pressed, and the presses light
/// exactly the target pattern.
pub open spec fn solves(lights: Seq<bool>, buttons: Seq<Seq<usize>>, x: Seq<bool>) -> bool {
    &&& x.len() == buttons.len()
    &&& pattern(lights.len(), buttons, x) == lights
}

/// The number of presses in `x`.
pub open spec fn weight(x: Seq<bool>) -> nat
    decreases x.len(),
{
    if x.len() == 0 {
        0
    } else {
        weight(x.drop_last()) + if x.last() { 1nat } else { 0nat }
    }
}

/// Whether the buttons can light the target pattern at all.
pub open spec fn solvable(lights: Seq<bool>, buttons: Seq<Seq<usize>>) -> bool {
    exists|x: Seq<bool>| solves(lights, buttons, x)
}

/// `w` is the least number of presses that lights the target pattern.
pub open spec fn is_min_presses(lights: Seq<bool>, buttons: Seq<Seq<usize>>, w: nat) -> bool {
    &&& exists|x: Seq<bool>| solves(lights, buttons, x) && weight(x) == w
    &&& forall|x: Seq<bool>| solves(lights, buttons, x) ==> w <= weight(x)
}

pub open spec fn buttons_view(buttons: &Vec<Vec<usize>>) -> Seq<Seq<usize>> {
    buttons@.map_values(|b: Vec<usize>| b@)
}

/// Whether button `b` lists light `l`.
pub fn button_lists(b: &Vec<usize>, l: usize) -> (r: bool)
    ensures
        r == lists(b@, l as int),
{
    let mut k: usize = 0;
    while k < b.len()
        invariant
            k <= b@.len(),
            forall|j: int| 0 <= j < k ==> b@[j] != l,
        decreases b@.len() - k,
    {
        if b[k] == l {
            return true;
        }
        k = k + 1;
    }
    false
}


/// The XOR over the columns `lo..hi` of `row[c] && x[c]`: the left-hand side
/// of a GF(2) equation restricted to those columns.
pub open spec fn xsum(row: Seq<bool>, x: Seq<bool>, lo: int, hi: int) -> bool
    decreases hi - lo,
{
    if hi <= lo {
        false
    } else {
        xsum(row, x, lo, hi - 1) ^ (row[hi - 1] && x[hi - 1])
    }
}

/// Row `row` of an augmented matrix with `n` variable columns holds for `x`.
pub open spec fn row_holds(row: Seq<bool>, x: Seq<bool>, n: int) -> bool {
    xsum(row, x, 0, n) == row[n]
}

/// Every row of the augmented matrix `m` holds for `x`.
pub open spec fn system_holds(m: Seq<Seq<bool>>, x: Seq<bool>, n: int) -> bool {
    forall|r: int| 0 <= r < m.len() ==> row_holds(#[trigger] m[r], x, n)
}

/// The augmented matrix of the light puzzle: one row per light, one column
/// per button, and a last column with the target state of the light.
pub open spec fn toggle_system(lights: Seq<bool>, buttons: Seq<Seq<usize>>) -> Seq<Seq<bool>> {
    Seq::new(
        lights.len(),
        |l: int|
            Seq::new(
                buttons.len() + 1,
                |c: int| if c < buttons.len() { lists(buttons[c], l) } else { lights[l] },
            ),
    )
}

pub open spec fn xor_rows(a: Seq<bool>, b: Seq<bool>) -> Seq<bool> {
    Seq::new(a.len(), |c: int| a[c] ^ b[c])
}

pub open spec fn rows_of(m: &Vec<Vec<bool>>) -> Seq<Seq<bool>> {
    m@.map_values(|r: Vec<bool>| r@)
}

pub open spec fn well_shaped(m: Seq<Seq<bool>>, n: int) -> bool {
    forall|r: int| 0 <= r < m.len() ==> (#[trigger] m[r]).len() == n + 1
}

pub open spec fn same_solutions(m1: Seq<Seq<bool>>, m2: Seq<Seq<bool>>, n: int) -> bool {
    forall|x: Seq<bool>|
        x.len() == n ==> (#[trigger] system_holds(m1, x, n) <==> system_holds(m2, x, n))
}

proof fn lemma_xsum_split(row: Seq<bool>, x: Seq<bool>, lo: int, mid: int, hi: int)
    requires
        lo <= mid <= hi,
    ensures
        xsum(row, x, lo, hi) == (xsum(row, x, lo, mid) ^ xsum(row, x, mid, hi)),
    decreases hi - mid,
{
    if hi > mid {
        lemma_xsum_split(row, x, lo, mid, hi - 1);
    }
}

proof fn lemma_xsum_xor(a: Seq<bool>, b: Seq<bool>, x: Seq<bool>, lo: int, hi: int)
    requires
        a.len() == b.len(),
        0 <= lo,
        hi <= a.len(),
    ensures
        xsum(xor_rows(a, b), x, lo, hi) == (xsum(a, x, lo, hi) ^ xsum(b, x, lo, hi)),
    decreases hi - lo,
{
    if hi > lo {
        lemma_xsum_xor(a, b, x, lo, hi - 1);
    }
}

proof fn lemma_xsum_zero(row: Seq<bool>, x: Seq<bool>, lo: int, hi: int)
    requires
        forall|c: int| lo <= c < hi ==> !row[c],
    ensures
        !xsum(row, x, lo, hi),
    decreases hi - lo,
{
    if hi > lo {
        lemma_xsum_zero(row, x, lo, hi - 1);
    }
}

proof fn lemma_xsum_frame(row: Seq<bool>, x: Seq<bool>, y: Seq<bool>, lo: int, hi: int)
    requires
        forall|c: int| lo <= c < hi && row[c] ==> x[c] == y[c],
    ensures
        xsum(row, x, lo, hi) == xsum(row, y, lo, hi),
    decreases hi - lo,
{
    if hi > lo {
        lemma_xsum_frame(row, x, y, lo, hi - 1);
    }
}

proof fn lemma_toggle_row(lights: Seq<bool>, buttons: Seq<Seq<usize>>, x: Seq<bool>, l: int, k: int)
    requires
        0 <= l < lights.len(),
        0 <= k <= buttons.len(),
    ensures
        xsum(toggle_system(lights, buttons)[l], x, 0, k) == lit_after(buttons, x, l, k),
    decreases k,
{
    if k > 0 {
        lemma_toggle_row(lights, buttons, x, l, k - 1);
    }
}

/// The presses that satisfy the augmented matrix are exactly those that light
/// the target pattern.
proof fn lemma_toggle_system(lights: Seq<bool>, buttons: Seq<Seq<usize>>, x: Seq<bool>)
    requires
        x.len() == buttons.len(),
    ensures
        system_holds(toggle_system(lights, buttons), x, buttons.len() as int) <==> solves(
            lights,
            buttons,
            x,
        ),
{
    let m = toggle_system(lights, buttons);
    let n = buttons.len() as int;
    assert forall|l: int| 0 <= l < lights.len() implies row_holds(m[l], x, n) == (pattern(
        lights.len(),
        buttons,
        x,
    )[l] == lights[l]) by {
        lemma_toggle_row(lights, buttons, x, l, n);
    }
    if system_holds(m, x, n) {
        assert(pattern(lights.len(), buttons, x) =~= lights);
    }
    if solves(lights, buttons, x) {
        assert forall|l: int| 0 <= l < m.len() implies row_holds(#[trigger] m[l], x, n) by {
            assert(pattern(lights.len(), buttons, x)[l] == lights[l]);
        }
    }
}

/// Builds the augmented matrix of the light puzzle.
fn build_system(lights: &Vec<bool>, buttons: &Vec<Vec<usize>>) -> (m: Vec<Vec<bool>>)
    requires
        buttons@.len() < usize::MAX,
    ensures
        rows_of(&m) == toggle_system(lights@, buttons_view(buttons)),
{
    let ghost bv = buttons_view(buttons);
    let ghost target = toggle_system(lights@, bv);
    let n = buttons.len();
    let mut m: Vec<Vec<bool>> = Vec::new();
    let mut l: usize = 0;
    while l < lights.len()
        invariant
            n == buttons@.len(),
            n < usize::MAX,
            bv == buttons_view(buttons),
            target == toggle_system(lights@, bv),
            l <= lights@.len(),
            m@.len() == l,
            forall|i: int| 0 <= i < l ==> (#[trigger] m@[i])@ == target[i],
        decreases lights@.len() - l,
    {
        let mut row: Vec<bool> = Vec::new();
        let mut c: usize = 0;
        while c < n
            invariant
                n == buttons@.len(),
                bv == buttons_view(buttons),
                l < lights@.len(),
                c <= n,
                row@.len() == c,
                forall|j: int| 0 <= j < c ==> row@[j] == lists(bv[j], l as int),
            decreases n - c,
        {
            let b = button_lists(&buttons[c], l);
            row.push(b);
            c = c + 1;
        }
        row.push(lights[l]);
        assert(row@ =~= target[l as int]);
        m.push(row);
        l = l + 1;
    }
    assert(rows_of(&m) =~= target);
    m
}


/// `m` is in reduced row-echelon form over its first `col` columns: row `i`
/// for `i < piv.len()` has its leading one in column `piv[i]`, that column is
/// zero in every other row, and the rows below the pivot rows are zero in
/// those columns.
pub open spec fn reduced(m: Seq<Seq<bool>>, piv: Seq<usize>, col: int) -> bool {
    let row = piv.len() as int;
    &&& row <= m.len()
    &&& row <= col
    &&& forall|i: int, j: int| 0 <= i < j < row ==> piv[i] < piv[j]
    &&& forall|i: int| 0 <= i < row ==> piv[i] < col
    &&& forall|i: int| 0 <= i < row ==> #[trigger] m[i][piv[i] as int]
    &&& forall|i: int, r: int|
        0 <= i < row && 0 <= r < m.len() && r != i ==> !#[trigger] m[r][piv[i] as int]
    &&& forall|i: int, c: int| 0 <= i < row && 0 <= c < piv[i] ==> !#[trigger] m[i][c]
    &&& forall|r: int, c: int| row <= r < m.len() && 0 <= c < col ==> !#[trigger] m[r][c]
}

/// Returns the row of `a` XOR `b`.
fn xor_row(a: &Vec<bool>, b: &Vec<bool>) -> (r: Vec<bool>)
    requires
        a@.len() == b@.len(),
    ensures
        r@ == xor_rows(a@, b@),
{
    let mut r: Vec<bool> = Vec::new();
    let mut c: usize = 0;
    while c < a.len()
        invariant
            a@.len() == b@.len(),
            c <= a@.len(),
            r@.len() == c,
            forall|j: int| 0 <= j < c ==> r@[j] == (a@[j] ^ b@[j]),
        decreases a@.len() - c,
    {
        r.push(a[c] ^ b[c]);
        c = c + 1;
    }
    assert(r@ =~= xor_rows(a@, b@));
    r
}

/// Swapping two rows keeps the set of solutions.
proof fn lemma_swap_rows(m: Seq<Seq<bool>>, a: int, b: int, n: int)
    requires
        0 <= a < m.len(),
        0 <= b < m.len(),
    ensures
        same_solutions(m, m.update(a, m[b]).update(b, m[a]), n),
{
    let m2 = m.update(a, m[b]).update(b, m[a]);
    assert forall|x: Seq<bool>| x.len() == n implies (#[trigger] system_holds(m, x, n)
        <==> system_holds(m2, x, n)) by {
        if system_holds(m, x, n) {
            assert forall|r: int| 0 <= r < m2.len() implies row_holds(#[trigger] m2[r], x, n) by {
                if r == b {
                    assert(row_holds(m[a], x, n));
                } else if r == a {
                    assert(row_holds(m[b], x, n));
                } else {
                    assert(row_holds(m[r], x, n));
                }
            }
        }
        if system_holds(m2, x, n) {
            assert forall|r: int| 0 <= r < m.len() implies row_holds(#[trigger] m[r], x, n) by {
                if r == a {
                    assert(row_holds(m2[b], x, n));
                } else if r == b {
                    if a == b {
                        assert(row_holds(m2[b], x, n));
                    } else {
                        assert(row_holds(m2[a], x, n));
                    }
                } else {
                    assert(row_holds(m2[r], x, n));
                }
            }
        }
    }
}

/// Adding row `p` into another row `r` keeps the set of solutions.
proof fn lemma_add_row(m: Seq<Seq<bool>>, p: int, r: int, n: int)
    requires
        0 <= p < m.len(),
        0 <= r < m.len(),
        p != r,
        0 <= n,
        well_shaped(m, n),
    ensures
        same_solutions(m, m.update(r, xor_rows(m[r], m[p])), n),
{
    let m2 = m.update(r, xor_rows(m[r], m[p]));
    assert(m[p].len() == n + 1 && m[r].len() == n + 1);
    assert forall|x: Seq<bool>| x.len() == n implies (#[trigger] system_holds(m, x, n)
        <==> system_holds(m2, x, n)) by {
        lemma_xsum_xor(m[r], m[p], x, 0, n);
        if system_holds(m, x, n) {
            assert(row_holds(m[p], x, n));
            assert(row_holds(m[r], x, n));
            assert forall|k: int| 0 <= k < m2.len() implies row_holds(#[trigger] m2[k], x, n) by {
                if k != r {
                    assert(row_holds(m[k], x, n));
                }
            }
        }
        if system_holds(m2, x, n) {
            assert(row_holds(m2[p], x, n));
            assert(row_holds(m2[r], x, n));
            assert forall|k: int| 0 <= k < m.len() implies row_holds(#[trigger] m[k], x, n) by {
                if k != r {
                    assert(row_holds(m2[k], x, n));
                }
            }
        }
    }
}


proof fn lemma_rows_of(m: &Vec<Vec<bool>>)
    ensures
        forall|k: int|
            #![trigger rows_of(m)[k]]
            #![trigger m@[k]]
            0 <= k < m@.len() ==> rows_of(m)[k] == m@[k]@,
{
}

proof fn lemma_same_trans(m1: Seq<Seq<bool>>, m2: Seq<Seq<bool>>, m3: Seq<Seq<bool>>, n: int)
    requires
        same_solutions(m1, m2, n),
        same_solutions(m2, m3, n),
    ensures
        same_solutions(m1, m3, n),
{
    assert forall|x: Seq<bool>| x.len() == n implies (#[trigger] system_holds(m1, x, n)
        <==> system_holds(m3, x, n)) by {
        assert(system_holds(m1, x, n) <==> system_holds(m2, x, n));
        assert(system_holds(m2, x, n) <==> system_holds(m3, x, n));
    }
}

/// Gauss-Jordan elimination over GF(2) of the augmented matrix `m` with `n`
/// variable columns. Returns the pivot column of each of the leading rows.
fn eliminate(m: &mut Vec<Vec<bool>>, n: usize) -> (piv: Vec<usize>)
    requires
        well_shaped(rows_of(old(m)), n as int),
    ensures
        rows_of(final(m)).len() == rows_of(old(m)).len(),
        well_shaped(rows_of(final(m)), n as int),
        reduced(rows_of(final(m)), piv@, n as int),
        same_solutions(rows_of(old(m)), rows_of(final(m)), n as int),
{
    let ghost m0 = rows_of(m);
    let n_rows = m.len();
    let mut piv: Vec<usize> = Vec::new();
    let mut row: usize = 0;
    let mut col: usize = 0;
    proof {
        assert forall|x: Seq<bool>| x.len() == n implies (#[trigger] system_holds(m0, x, n as int)
            <==> system_holds(m0, x, n as int)) by {}
    }
    while col < n
        invariant
            n_rows == m@.len(),
            rows_of(m).len() == m0.len(),
            well_shaped(rows_of(m), n as int),
            col <= n,
            row == piv@.len(),
            reduced(rows_of(m), piv@, col as int),
            same_solutions(m0, rows_of(m), n as int),
        decreases n - col,
    {
        proof {
            lemma_rows_of(m);
        }
        let mut pr: usize = row;
        while pr < n_rows && !m[pr][col]
            invariant
                n_rows == m@.len(),
                well_shaped(rows_of(m), n as int),
                col < n,
                row <= pr <= n_rows,
                forall|k: int| 0 <= k < n_rows ==> (#[trigger] m@[k])@.len() == n + 1,
                forall|r: int| row <= r < pr ==> !#[trigger] rows_of(m)[r][col as int],
            decreases n_rows - pr,
        {
            pr = pr + 1;
        }
        proof {
            lemma_rows_of(m);
        }
        if pr < n_rows {
            let ghost before = rows_of(m);
            proof {
                lemma_swap_rows(before, row as int, pr as int, n as int);
            }
            if pr != row {
                let mut tmp: Vec<bool> = Vec::new();
                m.set_and_swap(pr, &mut tmp);
                m.set_and_swap(row, &mut tmp);
                m.set_and_swap(pr, &mut tmp);
            }
            let ghost swapped = rows_of(m);
            proof {
                assert(swapped =~= before.update(row as int, before[pr as int]).update(
                    pr as int,
                    before[row as int],
                ));
                lemma_same_trans(m0, before, swapped, n as int);
            }
            let ghost p_row = swapped[row as int];
            let mut r: usize = 0;
            while r < n_rows
                invariant
                    n_rows == m@.len(),
                    rows_of(m).len() == m0.len(),
                    well_shaped(rows_of(m), n as int),
                    col < n,
                    row < n_rows,
                    row == piv@.len(),
                    r <= n_rows,
                    rows_of(m)[row as int] == p_row,
                    p_row[col as int],
                    forall|c: int| 0 <= c < col ==> !#[trigger] p_row[c],
                    forall|i: int, j: int| 0 <= i < j < row ==> piv@[i] < piv@[j],
                    forall|i: int| 0 <= i < row ==> piv@[i] < col,
                    forall|i: int| 0 <= i < row ==> #[trigger] rows_of(m)[i][piv@[i] as int],
                    forall|i: int, k: int|
                        0 <= i < row && 0 <= k < n_rows && k != i ==> !#[trigger] rows_of(
                            m,
                        )[k][piv@[i] as int],
                    forall|i: int, c: int|
                        0 <= i < row && 0 <= c < piv@[i] ==> !#[trigger] rows_of(m)[i][c],
                    forall|k: int, c: int|
                        row < k < n_rows && 0 <= c < col ==> !#[trigger] rows_of(m)[k][c],
                    forall|k: int| 0 <= k < r && k != row ==> !#[trigger] rows_of(m)[k][col as int],
                    same_solutions(m0, rows_of(m), n as int),
                decreases n_rows - r,
            {
                proof {
                    lemma_rows_of(m);
                }
                if r != row && m[r][col] {
                    let ghost cur = rows_of(m);
                    let new_row = xor_row(&m[r], &m[row]);
                    proof {
                        lemma_add_row(cur, row as int, r as int, n as int);
                    }
                    m.set(r, new_row);
                    proof {
                        assert(rows_of(m) =~= cur.update(
                            r as int,
                            xor_rows(cur[r as int], cur[row as int]),
                        ));
                        lemma_same_trans(m0, cur, rows_of(m), n as int);
                    }
                }
                r = r + 1;
            }
            piv.push(col);
            row = row + 1;
        }
        col = col + 1;
    }
    piv
}


/// Column `c` is the pivot column of some leading row.
pub open spec fn is_piv(piv: Seq<usize>, c: int) -> bool {
    exists|i: int| 0 <= i < piv.len() && piv[i] as int == c
}

/// Every row below the pivot rows asks for a zero right-hand side.
pub open spec fn consistent(m: Seq<Seq<bool>>, row: int, n: int) -> bool {
    forall|r: int| row <= r < m.len() ==> !#[trigger] m[r][n]
}

/// The equation of pivot row `i` reads: the pivot variable equals the right-hand
/// side XOR the contributions of the columns after it.
proof fn lemma_pivot_row(m: Seq<Seq<bool>>, piv: Seq<usize>, n: int, i: int, x: Seq<bool>)
    requires
        well_shaped(m, n),
        reduced(m, piv, n),
        0 <= i < piv.len(),
    ensures
        xsum(m[i], x, 0, n) == (x[piv[i] as int] ^ xsum(m[i], x, piv[i] + 1, n)),
{
    let pc = piv[i] as int;
    lemma_xsum_split(m[i], x, 0, pc, n);
    lemma_xsum_split(m[i], x, pc, pc + 1, n);
    lemma_xsum_zero(m[i], x, 0, pc);
    assert(m[i][pc]);
    assert(xsum(m[i], x, pc, pc + 1) == (xsum(m[i], x, pc, pc) ^ (m[i][pc] && x[pc])));
}

/// The part of a pivot row's equation after its pivot reads free columns only.
proof fn lemma_pivot_row_free(
    m: Seq<Seq<bool>>,
    piv: Seq<usize>,
    n: int,
    i: int,
    x: Seq<bool>,
    y: Seq<bool>,
)
    requires
        well_shaped(m, n),
        reduced(m, piv, n),
        0 <= i < piv.len(),
        forall|c: int| 0 <= c < n && !is_piv(piv, c) ==> x[c] == y[c],
    ensures
        xsum(m[i], x, piv[i] + 1, n) == xsum(m[i], y, piv[i] + 1, n),
{
    assert forall|c: int| piv[i] + 1 <= c < n && m[i][c] implies x[c] == y[c] by {
        if is_piv(piv, c) {
            let j = choose|j: int| 0 <= j < piv.len() && piv[j] as int == c;
            assert(!m[i][piv[j] as int]);
        }
    }
    lemma_xsum_frame(m[i], x, y, piv[i] + 1, n);
}

/// Two vectors that satisfy the pivot rows and agree on the free columns are
/// equal: the free columns determine the rest.
proof fn lemma_determined(m: Seq<Seq<bool>>, piv: Seq<usize>, n: int, x: Seq<bool>, y: Seq<bool>)
    requires
        well_shaped(m, n),
        reduced(m, piv, n),
        x.len() == n,
        y.len() == n,
        forall|i: int| 0 <= i < piv.len() ==> row_holds(#[trigger] m[i], x, n),
        forall|i: int| 0 <= i < piv.len() ==> row_holds(#[trigger] m[i], y, n),
        forall|c: int| 0 <= c < n && !is_piv(piv, c) ==> x[c] == y[c],
    ensures
        x == y,
{
    assert forall|c: int| 0 <= c < n implies x[c] == y[c] by {
        if is_piv(piv, c) {
            let i = choose|i: int| 0 <= i < piv.len() && piv[i] as int == c;
            lemma_pivot_row(m, piv, n, i, x);
            lemma_pivot_row(m, piv, n, i, y);
            lemma_pivot_row_free(m, piv, n, i, x, y);
            assert(row_holds(m[i], x, n));
            assert(row_holds(m[i], y, n));
        }
    }
    assert(x =~= y);
}

/// The rows below the pivot rows hold for every vector when the system is
/// consistent, and for none when it is not.
proof fn lemma_lower_rows(m: Seq<Seq<bool>>, piv: Seq<usize>, n: int, x: Seq<bool>)
    requires
        well_shaped(m, n),
        reduced(m, piv, n),
    ensures
        consistent(m, piv.len() as int, n) ==> (system_holds(m, x, n) <==> forall|i: int|
            0 <= i < piv.len() ==> row_holds(#[trigger] m[i], x, n)),
        !consistent(m, piv.len() as int, n) ==> !system_holds(m, x, n),
{
    assert forall|r: int| piv.len() <= r < m.len() implies !xsum(#[trigger] m[r], x, 0, n) by {
        lemma_xsum_zero(m[r], x, 0, n);
    }
    if !consistent(m, piv.len() as int, n) {
        let r = choose|r: int| piv.len() <= r < m.len() && m[r][n];
        assert(!xsum(m[r], x, 0, n));
        assert(!row_holds(m[r], x, n));
    }
}

/// Sets each pivot variable from the free ones, from the last pivot row to
/// the first.
fn back_substitute(m: &Vec<Vec<bool>>, piv: &Vec<usize>, n: usize, sol: &mut Vec<bool>)
    requires
        well_shaped(rows_of(m), n as int),
        reduced(rows_of(m), piv@, n as int),
        old(sol)@.len() == n,
    ensures
        final(sol)@.len() == n,
        forall|c: int| 0 <= c < n && !is_piv(piv@, c) ==> final(sol)@[c] == old(sol)@[c],
        forall|i: int| 0 <= i < piv@.len() ==> row_holds(#[trigger] rows_of(m)[i], final(sol)@, n as int),
{
    let ghost mm = rows_of(m);
    proof {
        lemma_rows_of(m);
    }
    let mut i: usize = piv.len();
    while i > 0
        invariant
            mm == rows_of(m),
            forall|k: int|
                #![trigger rows_of(m)[k]]
                #![trigger m@[k]]
                0 <= k < m@.len() ==> rows_of(m)[k] == m@[k]@,
            well_shaped(mm, n as int),
            reduced(mm, piv@, n as int),
            i <= piv@.len(),
            sol@.len() == n,
            forall|c: int| 0 <= c < n && !is_piv(piv@, c) ==> sol@[c] == old(sol)@[c],
            forall|k: int| i <= k < piv@.len() ==> row_holds(#[trigger] mm[k], sol@, n as int),
        decreases i,
    {
        i = i - 1;
        let pc = piv[i];
        assert(mm[i as int].len() == n + 1);
        let mut val = m[i][n];
        let mut c: usize = pc + 1;
        while c < n
            invariant
                mm == rows_of(m),
                i < m@.len(),
                mm[i as int] == m@[i as int]@,
                mm[i as int].len() == n + 1,
                sol@.len() == n,
                pc < c <= n,
                val == (mm[i as int][n as int] ^ xsum(mm[i as int], sol@, pc + 1, c as int)),
            decreases n - c,
        {
            val = val ^ (m[i][c] && sol[c]);
            c = c + 1;
        }
        let ghost prev = sol@;
        sol.set(pc, val);
        proof {
            assert(sol@ == prev.update(pc as int, val));
            lemma_xsum_frame(mm[i as int], prev, sol@, pc + 1, n as int);
            lemma_pivot_row(mm, piv@, n as int, i as int, sol@);
            assert(row_holds(mm[i as int], sol@, n as int));
            assert forall|k: int| i < k < piv@.len() implies row_holds(#[trigger] mm[k], sol@, n as int) by {
                assert(!mm[k][piv@[i as int] as int]);
                assert(row_holds(mm[k], prev, n as int));
                lemma_xsum_frame(mm[k], prev, sol@, 0, n as int);
            }
            assert forall|c: int| 0 <= c < n && !is_piv(piv@, c) implies sol@[c] == old(sol)@[c] by {
                if c == pc {
                    assert(is_piv(piv@, c));
                }
            }
        }
    }
}

/// The number of presses in `x`.
fn count_presses(x: &Vec<bool>) -> (w: u64)
    ensures
        w == weight(x@),
{
    let mut w: u64 = 0;
    let mut k: usize = 0;
    while k < x.len()
        invariant
            k <= x@.len(),
            w == weight(x@.subrange(0, k as int)),
            w <= k,
        decreases x@.len() - k,
    {
        assert(x@.subrange(0, k + 1).drop_last() =~= x@.subrange(0, k as int));
        if x[k] {
            w = w + 1;
        }
        k = k + 1;
    }
    assert(x@.subrange(0, x@.len() as int) =~= x@);
    w
}

fn copy_presses(x: &Vec<bool>) -> (r: Vec<bool>)
    ensures
        r@ == x@,
{
    let mut r: Vec<bool> = Vec::new();
    let mut k: usize = 0;
    while k < x.len()
        invariant
            k <= x@.len(),
            r@ == x@.subrange(0, k as int),
        decreases x@.len() - k,
    {
        r.push(x[k]);
        k = k + 1;
    }
    assert(x@.subrange(0, x@.len() as int) =~= x@);
    r
}


/// The search state: a consistent reduced system with its pivot columns
/// marked in `is_pivot`.
pub open spec fn search_ready(
    mm: Seq<Seq<bool>>,
    piv: Seq<usize>,
    is_pivot: Seq<bool>,
    n: int,
) -> bool {
    &&& well_shaped(mm, n)
    &&& reduced(mm, piv, n)
    &&& consistent(mm, piv.len() as int, n)
    &&& is_pivot.len() == n
    &&& forall|c: int| 0 <= c < n ==> is_pivot[c] == is_piv(piv, c)
}

/// `y` agrees with `x` on the free columns before `c`.
pub open spec fn agrees_free(piv: Seq<usize>, x: Seq<bool>, y: Seq<bool>, c: int) -> bool {
    forall|j: int| 0 <= j < c && !is_piv(piv, j) ==> #[trigger] y[j] == x[j]
}

/// Tries both values of every free column from `c` on, keeping the values that
/// `sol` holds before `c`, and returns a lightest solution among them.
fn search(
    m: &Vec<Vec<bool>>,
    piv: &Vec<usize>,
    is_pivot: &Vec<bool>,
    n: usize,
    c: usize,
    sol: &mut Vec<bool>,
) -> (res: (u64, Vec<bool>))
    requires
        search_ready(rows_of(m), piv@, is_pivot@, n as int),
        old(sol)@.len() == n,
        c <= n,
    ensures
        final(sol)@.len() == n,
        agrees_free(piv@, old(sol)@, final(sol)@, c as int),
        res.1@.len() == n,
        system_holds(rows_of(m), res.1@, n as int),
        res.0 == weight(res.1@),
        forall|y: Seq<bool>|
            y.len() == n && #[trigger] system_holds(rows_of(m), y, n as int) && agrees_free(
                piv@,
                old(sol)@,
                y,
                c as int,
            ) ==> res.0 <= weight(y),
    decreases n - c,
{
    let ghost mm = rows_of(m);
    if c == n {
        back_substitute(m, piv, n, sol);
        proof {
            lemma_lower_rows(mm, piv@, n as int, sol@);
            assert forall|y: Seq<bool>|
                y.len() == n && #[trigger] system_holds(mm, y, n as int) && agrees_free(
                    piv@,
                    old(sol)@,
                    y,
                    c as int,
                ) implies weight(sol@) <= weight(y) by {
                lemma_lower_rows(mm, piv@, n as int, y);
                lemma_determined(mm, piv@, n as int, sol@, y);
            }
        }
        let w = count_presses(sol);
        let best = copy_presses(sol);
        (w, best)
    } else if is_pivot[c] {
        search(m, piv, is_pivot, n, c + 1, sol)
    } else {
        sol.set(c, false);
        let ghost sol0 = sol@;
        let a = search(m, piv, is_pivot, n, c + 1, sol);
        sol.set(c, true);
        let ghost sol1 = sol@;
        let b = search(m, piv, is_pivot, n, c + 1, sol);
        proof {
            assert forall|y: Seq<bool>|
                y.len() == n && #[trigger] system_holds(mm, y, n as int) && agrees_free(
                    piv@,
                    old(sol)@,
                    y,
                    c as int,
                ) implies a.0 <= weight(y) || b.0 <= weight(y) by {
                if y[c as int] {
                    assert(agrees_free(piv@, sol1, y, c + 1));
                } else {
                    assert(agrees_free(piv@, sol0, y, c + 1));
                }
            }
        }
        if a.0 <= b.0 {
            a
        } else {
            b
        }
    }
}

/// A lightest press vector that lights the target pattern, or `None` when no
/// press vector does. Every assignment of the free variables is tried, so the
/// time grows as two to the number of free variables.
pub fn min_toggle_presses(lights: &Vec<bool>, buttons: &Vec<Vec<usize>>) -> (r: Option<Vec<bool>>)
    requires
        buttons@.len() < usize::MAX,
    ensures
        match r {
            Some(x) => {
                &&& solves(lights@, buttons_view(buttons), x@)
                &&& forall|y: Seq<bool>| #[trigger]
                    solves(lights@, buttons_view(buttons), y) ==> weight(x@) <= weight(y)
            },
            None => !solvable(lights@, buttons_view(buttons)),
        },
{
    let ghost bv = buttons_view(buttons);
    let n = buttons.len();
    let mut m = build_system(lights, buttons);
    let ghost m0 = rows_of(&m);
    proof {
        assert forall|r: int| 0 <= r < m0.len() implies (#[trigger] m0[r]).len() == n + 1 by {}
    }
    let piv = eliminate(&mut m, n);
    let ghost mm = rows_of(&m);
    proof {
        lemma_rows_of(&m);
    }
    let mut r: usize = piv.len();
    while r < m.len()
        invariant
            mm == rows_of(&m),
            well_shaped(mm, n as int),
            reduced(mm, piv@, n as int),
            n == buttons@.len(),
            bv == buttons_view(buttons),
            m0 == toggle_system(lights@, bv),
            same_solutions(m0, mm, n as int),
            forall|k: int|
                #![trigger rows_of(&m)[k]]
                #![trigger m@[k]]
                0 <= k < m@.len() ==> rows_of(&m)[k] == m@[k]@,
            piv@.len() <= r <= m@.len(),
            forall|k: int| piv@.len() <= k < r ==> !#[trigger] mm[k][n as int],
        decreases m@.len() - r,
    {
        if m[r][n] {
            proof {
                assert(!consistent(mm, piv@.len() as int, n as int));
                assert forall|x: Seq<bool>| !solves(lights@, bv, x) by {
                    if x.len() == n {
                        lemma_lower_rows(mm, piv@, n as int, x);
                        lemma_toggle_system(lights@, bv, x);
                        assert(system_holds(m0, x, n as int) == system_holds(mm, x, n as int));
                    }
                }
            }
            return None;
        }
        r = r + 1;
    }
    let mut is_pivot: Vec<bool> = Vec::new();
    let mut c: usize = 0;
    while c < n
        invariant
            c <= n,
            is_pivot@.len() == c,
            forall|j: int| 0 <= j < c ==> is_pivot@[j] == is_piv(piv@, j),
        decreases n - c,
    {
        let mut found = false;
        let mut i: usize = 0;
        while i < piv.len()
            invariant
                i <= piv@.len(),
                found == exists|k: int| 0 <= k < i && piv@[k] as int == c,
            decreases piv@.len() - i,
        {
            if piv[i] == c {
                found = true;
            }
            i = i + 1;
        }
        is_pivot.push(found);
        c = c + 1;
    }
    let mut sol: Vec<bool> = Vec::new();
    let mut k: usize = 0;
    while k < n
        invariant
            k <= n,
            sol@.len() == k,
        decreases n - k,
    {
        sol.push(false);
        k = k + 1;
    }
    let (_, best) = search(&m, &piv, &is_pivot, n, 0, &mut sol);
    proof {
        lemma_toggle_system(lights@, bv, best@);
        assert(system_holds(m0, best@, n as int) == system_holds(mm, best@, n as int));
        assert forall|y: Seq<bool>| #[trigger] solves(lights@, bv, y) implies weight(best@) <= weight(
            y,
        ) by {
            lemma_toggle_system(lights@, bv, y);
            assert(system_holds(m0, y, n as int) == system_holds(mm, y, n as int));
            assert(system_holds(mm, y, n as int));
        }
    }
    Some(best)
}


/// With no buttons, zero presses is the answer when every light is to stay
/// off, and there is no answer otherwise.
pub proof fn lemma_no_buttons_toggle(lights: Seq<bool>)
    ensures
        (forall|l: int| 0 <= l < lights.len() ==> !lights[l]) ==> is_min_presses(
            lights,
            Seq::empty(),
            0,
        ),
        (exists|l: int| 0 <= l < lights.len() && lights[l]) ==> !solvable(lights, Seq::empty()),
{
    let none = Seq::<Seq<usize>>::empty();
    let x = Seq::<bool>::empty();
    assert(weight(x) == 0);
    if forall|l: int| 0 <= l < lights.len() ==> !lights[l] {
        assert(pattern(lights.len(), none, x) =~= lights);
        assert(solves(lights, none, x));
    }
    if exists|l: int| 0 <= l < lights.len() && lights[l] {
        let l = choose|l: int| 0 <= l < lights.len() && lights[l];
        assert forall|y: Seq<bool>| !solves(lights, none, y) by {
            assert(!pattern(lights.len(), none, y)[l]);
        }
    }
}

/// Pressing the buttons that a solution selects, starting from all lights off,
/// gives back the target pattern.
pub proof fn lemma_round_trip(lights: Seq<bool>, buttons: Seq<Seq<usize>>, x: Seq<bool>)
    requires
        solves(lights, buttons, x),
    ensures
        pattern(lights.len(), buttons, x) == lights,
{
}

/// The least number of presses is at most the weight of any solution, the
/// one with every free variable off among them.
pub proof fn lemma_min_at_most_solution(
    lights: Seq<bool>,
    buttons: Seq<Seq<usize>>,
    w: nat,
    x: Seq<bool>,
)
    requires
        is_min_presses(lights, buttons, w),
        solves(lights, buttons, x),
    ensures
        w <= weight(x),
{
}

/// The least number of button presses that toggles the lights from all off
/// into the target pattern, or `None` when no presses can.
pub fn solve_part1(lights: &Vec<bool>, buttons: &Vec<Vec<usize>>) -> (r: Option<u64>)
    requires
        buttons@.len() < usize::MAX,
    ensures
        match r {
            Some(w) => is_min_presses(lights@, buttons_view(buttons), w as nat),
            None => !solvable(lights@, buttons_view(buttons)),
        },
{
    if buttons.len() == 0 {
        proof {
            assert(buttons_view(buttons) =~= Seq::<Seq<usize>>::empty());
            lemma_no_buttons_toggle(lights@);
        }
        let mut l: usize = 0;
        while l < lights.len()
            invariant
                buttons_view(buttons) == Seq::<Seq<usize>>::empty(),
                l <= lights@.len(),
                forall|k: int| 0 <= k < l ==> !lights@[k],
            decreases lights@.len() - l,
        {
            if lights[l] {
                assert(lights@[l as int]);
                assert(exists|k: int| 0 <= k < lights@.len() && lights@[k]);
                return None;
            }
            l = l + 1;
        }
        assert(forall|k: int| 0 <= k < lights@.len() ==> !lights@[k]);
        return Some(0);
    }
    match min_toggle_presses(lights, buttons) {
        Some(x) => Some(count_presses(&x)),
        None => None,
    }
}

/// The light pattern, of `n_lights` lights, after pressing from all off each
/// button that `presses` selects.
pub fn press_buttons(n_lights: usize, buttons: &Vec<Vec<usize>>, presses: &Vec<bool>) -> (r: Vec<
    bool,
>)
    requires
        presses@.len() == buttons@.len(),
    ensures
        r@ == pattern(n_lights as nat, buttons_view(buttons), presses@),
{
    let ghost bv = buttons_view(buttons);
    let mut r: Vec<bool> = Vec::new();
    let mut l: usize = 0;
    while l < n_lights
        invariant
            l <= n_lights,
            r@.len() == l,
            forall|k: int| 0 <= k < l ==> !r@[k],
        decreases n_lights - l,
    {
        r.push(false);
        l = l + 1;
    }
    let mut j: usize = 0;
    while j < buttons.len()
        invariant
            bv == buttons_view(buttons),
            presses@.len() == buttons@.len(),
            j <= buttons@.len(),
            r@.len() == n_lights,
            forall|k: int| 0 <= k < n_lights ==> r@[k] == lit_after(bv, presses@, k, j as int),
        decreases buttons@.len() - j,
    {
        if presses[j] {
            let mut l: usize = 0;
            while l < n_lights
                invariant
                    bv == buttons_view(buttons),
                    presses@.len() == buttons@.len(),
                    j < buttons@.len(),
                    presses@[j as int],
                    l <= n_lights,
                    r@.len() == n_lights,
                    forall|k: int|
                        0 <= k < l ==> r@[k] == lit_after(bv, presses@, k, j + 1),
                    forall|k: int|
                        l <= k < n_lights ==> r@[k] == lit_after(bv, presses@, k, j as int),
                decreases n_lights - l,
            {
                if button_lists(&buttons[j], l) {
                    let v = !r[l];
                    r.set(l, v);
                }
                l = l + 1;
            }
        }
        j = j + 1;
    }
    assert(r@ =~= pattern(n_lights as nat, bv, presses@));
    r
}

} // verus!
