//! Frequency counting: tally how often each distinct symbol occurs in a
//! finite input sequence.
//!
//! A frequency table is a `Vec<(T, u32)>` with pairwise-distinct keys and
//! strictly positive counts; absent symbols have count zero by convention.

use vstd::prelude::*;

verus! {

/// A symbol that can be tallied: any copyable type with an executable
/// equality test that agrees with mathematical equality.
pub trait Symbol: Sized + Copy {
    /// Executable equality on symbols.
    fn sym_eq(&self, other: &Self) -> (r: bool)
        ensures
            r <==> *self == *other,
    ;
}

impl Symbol for char {
    fn sym_eq(&self, other: &Self) -> (r: bool) {
        *self == *other
    }
}

impl Symbol for u64 {
    fn sym_eq(&self, other: &Self) -> (r: bool) {
        *self == *other
    }
}

/// How many times `x` occurs in `s`.
pub open spec fn occurrences<T>(s: Seq<T>, x: T) -> nat
    decreases s.len(),
{
    if s.len() == 0 {
        0
    } else {
        occurrences(s.drop_last(), x) + (if s.last() == x {
            1nat
        } else {
            0nat
        })
    }
}

/// The count a frequency table records for `x`; 0 where `x` has no entry.
pub open spec fn table_count<T>(t: Seq<(T, u32)>, x: T) -> nat
    decreases t.len(),
{
    if t.len() == 0 {
        0
    } else if t.last().0 == x {
        t.last().1 as nat
    } else {
        table_count(t.drop_last(), x)
    }
}

/// The sum of all counts recorded in a frequency table.
pub open spec fn sum_counts<T>(t: Seq<(T, u32)>) -> int
    decreases t.len(),
{
    if t.len() == 0 {
        0
    } else {
        sum_counts(t.drop_last()) + t.last().1
    }
}

/// No two entries of the table share a key.
pub open spec fn table_keys_unique<T>(t: Seq<(T, u32)>) -> bool {
    forall|i: int, j: int| 0 <= i < j < t.len() ==> (#[trigger] t[i]).0 != (#[trigger] t[j]).0
}

/// The table has an entry for `x`.
pub open spec fn table_contains<T>(t: Seq<(T, u32)>, x: T) -> bool {
    exists|i: int| 0 <= i < t.len() && (#[trigger] t[i]).0 == x
}

/// A well-formed frequency table: distinct keys, strictly positive counts.
pub open spec fn table_wf<T>(t: Seq<(T, u32)>) -> bool {
    &&& table_keys_unique(t)
    &&& forall|i: int| 0 <= i < t.len() ==> (#[trigger] t[i]).1 >= 1
}

pub proof fn lemma_occurrences_le_len<T>(s: Seq<T>, x: T)
    ensures
        occurrences(s, x) <= s.len(),
    decreases s.len(),
{
    if s.len() > 0 {
        lemma_occurrences_le_len(s.drop_last(), x);
    }
}

/// A table without an entry for `x` records count 0 for it.
pub proof fn lemma_table_count_absent<T>(t: Seq<(T, u32)>, x: T)
    requires
        !table_contains(t, x),
    ensures
        table_count(t, x) == 0,
    decreases t.len(),
{
    if t.len() > 0 {
        assert(forall|i: int|
            0 <= i < t.len() - 1 ==> (#[trigger] t.drop_last()[i]).0 == t[i].0);
        lemma_table_count_absent(t.drop_last(), x);
    }
}

/// With distinct keys, the count recorded for the key of entry `j` is that
/// entry's count.
pub proof fn lemma_table_count_entry<T>(t: Seq<(T, u32)>, j: int)
    requires
        table_keys_unique(t),
        0 <= j < t.len(),
    ensures
        table_count(t, t[j].0) == t[j].1 as nat,
    decreases t.len(),
{
    if j == t.len() - 1 {
    } else {
        assert(t.last().0 != t[j].0);
        assert(table_keys_unique(t.drop_last()));
        lemma_table_count_entry(t.drop_last(), j);
    }
}

proof fn lemma_table_count_update<T>(t: Seq<(T, u32)>, j: int, v: u32, x: T)
    requires
        0 <= j < t.len(),
        table_keys_unique(t),
    ensures
        table_count(t.update(j, (t[j].0, v)), x) == (if t[j].0 == x {
            v as nat
        } else {
            table_count(t, x)
        }),
    decreases t.len(),
{
    let u = t.update(j, (t[j].0, v));
    if j == t.len() - 1 {
        assert(u.drop_last() =~= t.drop_last());
    } else {
        assert(t.last().0 != t[j].0);
        assert(u.drop_last() =~= t.drop_last().update(j, (t[j].0, v)));
        assert(table_keys_unique(t.drop_last()));
        lemma_table_count_update(t.drop_last(), j, v, x);
    }
}

proof fn lemma_sum_counts_update<T>(t: Seq<(T, u32)>, j: int, v: u32)
    requires
        0 <= j < t.len(),
    ensures
        sum_counts(t.update(j, (t[j].0, v))) == sum_counts(t) - t[j].1 + v,
    decreases t.len(),
{
    let u = t.update(j, (t[j].0, v));
    if j == t.len() - 1 {
        assert(u.drop_last() =~= t.drop_last());
    } else {
        assert(u.drop_last() =~= t.drop_last().update(j, (t[j].0, v)));
        lemma_sum_counts_update(t.drop_last(), j, v);
    }
}

/// A symbol occurs a positive number of times exactly when the sequence
/// contains it.
pub proof fn lemma_occurrences_contains<T>(s: Seq<T>, x: T)
    ensures
        occurrences(s, x) > 0 <==> s.contains(x),
    decreases s.len(),
{
    if s.len() > 0 {
        lemma_occurrences_contains(s.drop_last(), x);
        assert(forall|i: int| 0 <= i < s.len() - 1 ==> s.drop_last()[i] == s[i]);
        if s.contains(x) {
            let i = choose|i: int| 0 <= i < s.len() && s[i] == x;
            if i < s.len() - 1 {
                assert(s.drop_last()[i] == x);
            }
        }
        if occurrences(s, x) > 0 {
            if s.last() == x {
                assert(s[s.len() - 1] == x);
            } else {
                let i = choose|i: int| 0 <= i < s.len() - 1 && s.drop_last()[i] == x;
                assert(s[i] == x);
            }
        }
    }
}

/// Counts sum over concatenation of tables.
pub proof fn lemma_sum_counts_concat<T>(a: Seq<(T, u32)>, b: Seq<(T, u32)>)
    ensures
        sum_counts(a + b) == sum_counts(a) + sum_counts(b),
    decreases b.len(),
{
    if b.len() == 0 {
        assert(a + b =~= a);
    } else {
        assert((a + b).drop_last() =~= a + b.drop_last());
        lemma_sum_counts_concat(a, b.drop_last());
    }
}

/// A recorded count comes from some entry: a positive count implies presence.
pub proof fn lemma_table_count_positive_implies_contains<T>(t: Seq<(T, u32)>, x: T)
    requires
        table_count(t, x) > 0,
    ensures
        table_contains(t, x),
    decreases t.len(),
{
    if t.len() > 0 {
        if t.last().0 == x {
            assert(t[t.len() - 1].0 == x);
        } else {
            lemma_table_count_positive_implies_contains(t.drop_last(), x);
            let i = choose|i: int| 0 <= i < t.len() - 1 && (#[trigger] t.drop_last()[i]).0 == x;
            assert(t[i].0 == x);
        }
    }
}

/// The index of some entry for `x`, where the table has one.
fn table_find<T: Symbol>(t: &Vec<(T, u32)>, x: &T) -> (r: Option<usize>)
    ensures
        match r {
            Some(j) => j < t@.len() && t@[j as int].0 == *x,
            None => !table_contains(t@, *x),
        },
{
    let mut i: usize = 0;
    while i < t.len()
        invariant
            i <= t@.len(),
            forall|k: int| 0 <= k < i ==> (#[trigger] t@[k]).0 != *x,
        decreases t@.len() - i,
    {
        if t[i].0.sym_eq(x) {
            return Some(i);
        }
        i = i + 1;
    }
    None
}

/// The count a frequency table assigns to `x` (0 where `x` is absent).
pub fn count_of<T: Symbol>(t: &Vec<(T, u32)>, x: &T) -> (r: u32)
    requires
        table_keys_unique(t@),
    ensures
        r as nat == table_count(t@, *x),
{
    match table_find(t, x) {
        Some(j) => {
            proof {
                lemma_table_count_entry(t@, j as int);
            }
            t[j].1
        },
        None => {
            proof {
                lemma_table_count_absent(t@, *x);
            }
            0
        },
    }
}

/// Tally the occurrences of each distinct symbol of `items`.
///
/// The resulting table has one entry per distinct symbol (in order of first
/// occurrence), each count equal to that symbol's number of occurrences, and
/// the counts sum to the length of the input.
pub fn frequency<T: Symbol>(items: &Vec<T>) -> (r: Vec<(T, u32)>)
    requires
        items@.len() <= u32::MAX,
    ensures
        table_wf(r@),
        forall|x: T| #[trigger] table_count(r@, x) == occurrences(items@, x),
        forall|x: T| table_contains(r@, x) <==> occurrences(items@, x) > 0,
        sum_counts(r@) == items@.len(),
{
    let ghost s = items@;
    let mut r: Vec<(T, u32)> = Vec::new();
    let mut i: usize = 0;
    while i < items.len()
        invariant
            i <= s.len(),
            s.len() <= u32::MAX,
            s == items@,
            table_wf(r@),
            forall|x: T| #[trigger] table_count(r@, x) == occurrences(s.take(i as int), x),
            sum_counts(r@) == i,
        decreases s.len() - i,
    {
        let x = items[i];
        proof {
            assert(s.take(i + 1).drop_last() =~= s.take(i as int));
            assert(s.take(i + 1).last() == s[i as int]);
            lemma_occurrences_le_len(s.take(i as int), x);
        }
        match table_find(&r, &x) {
            Some(j) => {
                proof {
                    lemma_table_count_entry(r@, j as int);
                }
                let c = r[j].1;
                assert(c < u32::MAX);
                let ghost before = r@;
                r[j] = (x, c + 1);
                proof {
                    assert(r@ =~= before.update(j as int, (before[j as int].0, (c + 1) as u32)));
                    lemma_sum_counts_update(before, j as int, (c + 1) as u32);
                    assert forall|y: T| #[trigger] table_count(r@, y) == occurrences(
                        s.take(i + 1),
                        y,
                    ) by {
                        lemma_table_count_update(before, j as int, (c + 1) as u32, y);
                    }
                }
            },
            None => {
                proof {
                    lemma_table_count_absent(r@, x);
                }
                let ghost before = r@;
                r.push((x, 1));
                proof {
                    assert(r@.drop_last() =~= before);
                    assert forall|y: T| #[trigger] table_count(r@, y) == occurrences(
                        s.take(i + 1),
                        y,
                    ) by {
                        if y == x {
                            assert(table_count(r@, y) == 1);
                        } else {
                            assert(table_count(r@, y) == table_count(before, y));
                        }
                    }
                    assert forall|a: int, b: int| 0 <= a < b < r@.len() implies (#[trigger] r@[a]).0
                        != (#[trigger] r@[b]).0 by {
                        if b == r@.len() - 1 {
                            assert(before[a].0 != x) by {
                                if before[a].0 == x {
                                    assert(table_contains(before, x));
                                }
                            }
                        }
                    }
                }
            },
        }
        i = i + 1;
    }
    proof {
        assert(s.take(s.len() as int) =~= s);
        assert forall|x: T| table_contains(r@, x) <==> occurrences(s, x) > 0 by {
            if table_contains(r@, x) {
                let j = choose|j: int| 0 <= j < r@.len() && (#[trigger] r@[j]).0 == x;
                lemma_table_count_entry(r@, j);
            }
            if occurrences(s, x) > 0 {
                lemma_table_count_positive_implies_contains(r@, x);
            }
        }
    }
    r
}

} // verus!
