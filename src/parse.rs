//! Reading a machine from its one-line description:
//! `[<lights>](<button>)...(<button>){<targets>}`.

use vstd::prelude::*;
use crate::machine::MachineSpec;
use crate::toggle::buttons_view;

verus! {

/// The first index at or after `from` where `s` holds `c`, or `s.len()`.
pub open spec fn index_of(s: Seq<char>, c: char, from: int) -> int
    decreases s.len() - from,
{
    if from >= s.len() {
        s.len() as int
    } else if s[from] == c {
        from
    } else {
        index_of(s, c, from + 1)
    }
}

pub open spec fn is_digit(c: char) -> bool {
    '0' <= c && c <= '9'
}

pub open spec fn is_blank(c: char) -> bool {
    c == ' ' || c == '\t'
}

/// Where the reading of one list entry stands: nothing but blanks yet, digits
/// with their value so far, or blanks after the digits.
pub enum Entry {
    Blank,
    Digits(u64),
    After(u64),
}

/// The reading of a comma-separated list of numbers: the numbers of the
/// finished entries, and the entry being read; `None` once the text is not
/// such a list (another character, a blank inside a number, or a number over
/// `u64::MAX`).
pub open spec fn list_scan(s: Seq<char>) -> Option<(Seq<u64>, Entry)>
    decreases s.len(),
{
    if s.len() == 0 {
        Some((Seq::empty(), Entry::Blank))
    } else {
        match list_scan(s.drop_last()) {
            None => None,
            Some((vals, entry)) => {
                let c = s.last();
                if c == ',' {
                    match entry {
                        Entry::Blank => Some((vals, Entry::Blank)),
                        Entry::Digits(v) => Some((vals.push(v), Entry::Blank)),
                        Entry::After(v) => Some((vals.push(v), Entry::Blank)),
                    }
                } else if is_blank(c) {
                    match entry {
                        Entry::Blank => Some((vals, Entry::Blank)),
                        Entry::Digits(v) => Some((vals, Entry::After(v))),
                        Entry::After(v) => Some((vals, Entry::After(v))),
                    }
                } else if is_digit(c) {
                    let d = (c as u32 - '0' as u32) as int;
                    match entry {
                        Entry::Blank => Some((vals, Entry::Digits(d as u64))),
                        Entry::Digits(v) => if v * 10 + d <= u64::MAX {
                            Some((vals, Entry::Digits((v * 10 + d) as u64)))
                        } else {
                            None
                        },
                        Entry::After(_) => None,
                    }
                } else {
                    None
                }
            },
        }
    }
}

/// The numbers of a comma-separated list; blank entries are skipped and
/// blanks around a number are ignored.
pub open spec fn list_of(s: Seq<char>) -> Option<Seq<u64>> {
    match list_scan(s) {
        None => None,
        Some((vals, Entry::Blank)) => Some(vals),
        Some((vals, Entry::Digits(v))) => Some(vals.push(v)),
        Some((vals, Entry::After(v))) => Some(vals.push(v)),
    }
}


proof fn lemma_scan_stays_none(s: Seq<char>, lo: int, k: int, hi: int)
    requires
        0 <= lo <= k <= hi <= s.len(),
        list_scan(s.subrange(lo, k)) is None,
    ensures
        list_scan(s.subrange(lo, hi)) is None,
    decreases hi - k,
{
    if k < hi {
        assert(s.subrange(lo, k + 1).drop_last() =~= s.subrange(lo, k));
        lemma_scan_stays_none(s, lo, k + 1, hi);
    }
}

/// Reads the numbers of the comma-separated list `cs[lo..hi]`.
fn parse_list(cs: &Vec<char>, lo: usize, hi: usize) -> (r: Option<Vec<u64>>)
    requires
        lo <= hi <= cs@.len(),
    ensures
        match r {
            Some(v) => list_of(cs@.subrange(lo as int, hi as int)) == Some(v@),
            None => list_of(cs@.subrange(lo as int, hi as int)) is None,
        },
{
    let mut vals: Vec<u64> = Vec::new();
    let mut entry = Entry::Blank;
    let mut k: usize = lo;
    while k < hi
        invariant
            lo <= k <= hi <= cs@.len(),
            list_scan(cs@.subrange(lo as int, k as int)) == Some((vals@, entry)),
        decreases hi - k,
    {
        let ghost prev = cs@.subrange(lo as int, k as int);
        assert(cs@.subrange(lo as int, k + 1).drop_last() =~= prev);
        let c = cs[k];
        if c == ',' {
            match entry {
                Entry::Blank => {},
                Entry::Digits(v) => {
                    vals.push(v);
                },
                Entry::After(v) => {
                    vals.push(v);
                },
            }
            entry = Entry::Blank;
        } else if c == ' ' || c == '\t' {
            match entry {
                Entry::Blank => {},
                Entry::Digits(v) => {
                    entry = Entry::After(v);
                },
                Entry::After(_) => {},
            }
        } else if '0' <= c && c <= '9' {
            let d = (c as u32 - '0' as u32) as u64;
            match entry {
                Entry::Blank => {
                    entry = Entry::Digits(d);
                },
                Entry::Digits(v) => {
                    if v > (u64::MAX - d) / 10 {
                        proof {
                            assert(v * 10 + d > u64::MAX) by (nonlinear_arith)
                                requires
                                    v > (u64::MAX - d) / 10,
                                    d <= 9,
                            ;
                            assert(list_scan(cs@.subrange(lo as int, k + 1)) is None);
                            lemma_scan_stays_none(cs@, lo as int, k + 1, hi as int);
                        }
                        return None;
                    }
                    entry = Entry::Digits(v * 10 + d);
                },
                Entry::After(_) => {
                    proof {
                        assert(list_scan(cs@.subrange(lo as int, k + 1)) is None);
                        lemma_scan_stays_none(cs@, lo as int, k + 1, hi as int);
                    }
                    return None;
                },
            }
        } else {
            proof {
                assert(list_scan(cs@.subrange(lo as int, k + 1)) is None);
                lemma_scan_stays_none(cs@, lo as int, k + 1, hi as int);
            }
            return None;
        }
        k = k + 1;
    }
    match entry {
        Entry::Blank => {},
        Entry::Digits(v) => {
            vals.push(v);
        },
        Entry::After(v) => {
            vals.push(v);
        },
    }
    Some(vals)
}


/// Every number of the list is a valid index.
pub open spec fn fits_usize(l: Seq<u64>) -> bool {
    forall|k: int| 0 <= k < l.len() ==> l[k] <= usize::MAX
}

pub open spec fn as_indices(l: Seq<u64>) -> Seq<usize> {
    l.map_values(|v: u64| v as usize)
}

/// The buttons and the targets in the text from position `i` on. Each `(`
/// opens a button, read up to the next `)`; each `{` opens the targets, read
/// up to the next `}`, and of several the last one counts; other characters
/// are skipped. `None` when a group is not closed or its list is not one of
/// numbers (of indices, for a button).
pub open spec fn groups_from(s: Seq<char>, i: int) -> Option<(Seq<Seq<usize>>, Option<Seq<u64>>)>
    decreases s.len() - i,
    via groups_from_decreases
{
    if i < 0 || i >= s.len() {
        Some((Seq::empty(), None))
    } else if s[i] == '(' {
        let e = index_of(s, ')', i + 1);
        if e >= s.len() {
            None
        } else {
            match (list_of(s.subrange(i + 1, e)), groups_from(s, e + 1)) {
                (Some(l), Some((bs, t))) => if fits_usize(l) {
                    Some((seq![as_indices(l)] + bs, t))
                } else {
                    None
                },
                _ => None,
            }
        }
    } else if s[i] == '{' {
        let e = index_of(s, '}', i + 1);
        if e >= s.len() {
            None
        } else {
            match (list_of(s.subrange(i + 1, e)), groups_from(s, e + 1)) {
                (Some(l), Some((bs, t))) => Some((bs, if t is Some { t } else { Some(l) })),
                _ => None,
            }
        }
    } else {
        groups_from(s, i + 1)
    }
}

proof fn lemma_index_of_at_least(s: Seq<char>, c: char, from: int)
    ensures
        index_of(s, c, from) >= from || index_of(s, c, from) == s.len(),
    decreases s.len() - from,
{
    if from < s.len() && s[from] != c {
        lemma_index_of_at_least(s, c, from + 1);
    }
}

#[via_fn]
proof fn groups_from_decreases(s: Seq<char>, i: int) {
    lemma_index_of_at_least(s, ')', i + 1);
    lemma_index_of_at_least(s, '}', i + 1);
}

/// The machine that the line `s` describes: the lights between the first `[`
/// and the first `]` (`#` for a light to be lit), then the buttons and the
/// targets of the text after that `]`. `None` when the line is malformed: a
/// delimiter missing, or a group that does not read.
pub open spec fn machine_of(s: Seq<char>) -> Option<(Seq<bool>, Seq<Seq<usize>>, Seq<u64>)> {
    let open = index_of(s, '[', 0);
    let close = index_of(s, ']', 0);
    if open < close && close < s.len() {
        match groups_from(s, close + 1) {
            Some((bs, Some(t))) => Some(
                (Seq::new((close - open - 1) as nat, |k: int| s[open + 1 + k] == '#'), bs, t),
            ),
            _ => None,
        }
    } else {
        None
    }
}

/// The groups read so far, `bs0` and `t0`, followed by those of `g`.
pub open spec fn after_groups(
    bs0: Seq<Seq<usize>>,
    t0: Option<Seq<u64>>,
    g: Option<(Seq<Seq<usize>>, Option<Seq<u64>>)>,
) -> Option<(Seq<Seq<usize>>, Option<Seq<u64>>)> {
    match g {
        None => None,
        Some((bs, t)) => Some((bs0 + bs, if t is Some { t } else { t0 })),
    }
}

pub open spec fn opt_view(t: &Option<Vec<u64>>) -> Option<Seq<u64>> {
    match t {
        Some(v) => Some(v@),
        None => None,
    }
}

fn find_char(cs: &Vec<char>, c: char, from: usize) -> (r: usize)
    requires
        from <= cs@.len(),
    ensures
        r as int == index_of(cs@, c, from as int),
        from <= r <= cs@.len(),
{
    let mut k: usize = from;
    while k < cs.len()
        invariant
            from <= k <= cs@.len(),
            index_of(cs@, c, from as int) == index_of(cs@, c, k as int),
        decreases cs@.len() - k,
    {
        if cs[k] == c {
            return k;
        }
        k = k + 1;
    }
    k
}

fn to_indices(l: &Vec<u64>) -> (r: Option<Vec<usize>>)
    ensures
        match r {
            Some(b) => fits_usize(l@) && b@ == as_indices(l@),
            None => !fits_usize(l@),
        },
{
    let mut b: Vec<usize> = Vec::new();
    let mut k: usize = 0;
    while k < l.len()
        invariant
            k <= l@.len(),
            b@ == as_indices(l@.subrange(0, k as int)),
            forall|j: int| 0 <= j < k ==> l@[j] <= usize::MAX,
        decreases l@.len() - k,
    {
        if l[k] > usize::MAX as u64 {
            return None;
        }
        b.push(l[k] as usize);
        k = k + 1;
        assert(b@ =~= as_indices(l@.subrange(0, k as int)));
    }
    assert(l@.subrange(0, l@.len() as int) =~= l@);
    Some(b)
}

/// Reads a machine from its one-line description, or `None` when the line is
/// malformed.
pub fn parse_line(line: &str) -> (r: Option<MachineSpec>)
    ensures
        match r {
            Some(m) => machine_of(line@) == Some((m.lights@, buttons_view(&m.buttons), m.targets@)),
            None => machine_of(line@) is None,
        },
{
    let n = line.unicode_len();
    let mut cs: Vec<char> = Vec::new();
    let mut k: usize = 0;
    while k < n
        invariant
            n == line@.len(),
            k <= n,
            cs@ == line@.subrange(0, k as int),
        decreases n - k,
    {
        cs.push(line.get_char(k));
        k = k + 1;
    }
    assert(cs@ =~= line@);
    let ghost s = cs@;
    let open = find_char(&cs, '[', 0);
    let close = find_char(&cs, ']', 0);
    if !(open < close && close < n) {
        return None;
    }
    let mut lights: Vec<bool> = Vec::new();
    let mut k: usize = open + 1;
    while k < close
        invariant
            open < close < n,
            n == cs@.len(),
            open + 1 <= k <= close,
            lights@.len() == k - open - 1,
            forall|j: int| 0 <= j < lights@.len() ==> lights@[j] == (cs@[open + 1 + j] == '#'),
        decreases close - k,
    {
        lights.push(cs[k] == '#');
        k = k + 1;
    }
    let mut buttons: Vec<Vec<usize>> = Vec::new();
    let mut targets: Option<Vec<u64>> = None;
    let mut i: usize = close + 1;
    while i < n
        invariant
            s == cs@,
            s == line@,
            open == index_of(s, '[', 0),
            close == index_of(s, ']', 0),
            open < close,
            n == cs@.len(),
            close < i <= n,
            groups_from(s, close + 1) == after_groups(
                buttons_view(&buttons),
                opt_view(&targets),
                groups_from(s, i as int),
            ),
        decreases n - i,
    {
        let ghost t0 = opt_view(&targets);
        let ghost bs0 = buttons_view(&buttons);
        let c = cs[i];
        if c == '(' || c == '{' {
            let close_c = if c == '(' {
                ')'
            } else {
                '}'
            };
            let e = find_char(&cs, close_c, i + 1);
            if e == n {
                assert(groups_from(s, i as int) is None);
                return None;
            }
            let l = match parse_list(&cs, i + 1, e) {
                Some(l) => l,
                None => {
                    assert(groups_from(s, i as int) is None);
                    return None;
                },
            };
            if c == '(' {
                let b = match to_indices(&l) {
                    Some(b) => b,
                    None => {
                        return None;
                    },
                };
                let ghost bv = b@;
                buttons.push(b);
                proof {
                    assert(buttons_view(&buttons) =~= bs0.push(bv));
                    match groups_from(s, e + 1) {
                        Some((bs, t)) => {
                            assert(bs0 + (seq![bv] + bs) =~= bs0.push(bv) + bs);
                        },
                        None => {},
                    }
                }
            } else {
                targets = Some(l);
            }
            i = e + 1;
        } else {
            i = i + 1;
        }
    }
    proof {
        assert(buttons_view(&buttons) + Seq::<Seq<usize>>::empty() =~= buttons_view(&buttons));
    }
    match targets {
        Some(t) => {
            proof {
                assert(lights@ =~= Seq::new(
                    (close - open - 1) as nat,
                    |k: int| s[open + 1 + k] == '#',
                ));
            }
            Some(MachineSpec { lights, buttons, targets: t })
        },
        None => None,
    }
}

/// Reading a line gives the same machine every time.
pub proof fn lemma_parse_deterministic(s: Seq<char>, t: Seq<char>)
    requires
        s == t,
    ensures
        machine_of(s) == machine_of(t),
{
}

} // verus!
