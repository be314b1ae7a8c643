//! Huffman tree construction: wrap each table entry as a single-leaf tree,
//! then repeatedly merge the two lightest trees of the work list until one
//! remains.
//!
//! Ties on weight are broken deterministically: the earliest tree in the work
//! list wins, the work list starts in table order, and a merged tree goes to
//! the back of the list. The first (lightest) tree popped becomes the left
//! child of the merge.

use vstd::prelude::*;
use vstd::seq_lib::lemma_multiset_commutative;
use vstd::seq_lib::group_to_multiset_ensures;
use crate::tree::HuffTree;
use crate::freq::{table_wf, table_contains, sum_counts};

verus! {

broadcast use group_to_multiset_ensures;

/// The keys of a frequency table, in table order.
pub open spec fn table_keys<T>(t: Seq<(T, u32)>) -> Seq<T> {
    t.map_values(|p: (T, u32)| p.0)
}

/// A single-leaf tree for each table entry, in table order.
pub open spec fn initial_forest(t: Seq<(char, u32)>) -> Seq<HuffTree>
    decreases t.len(),
{
    if t.len() == 0 {
        Seq::empty()
    } else {
        initial_forest(t.drop_last()).push(
            HuffTree::Leaf { occ: t.last().1, chr: t.last().0 },
        )
    }
}

/// Index `j` holds a lightest tree of the forest, and the earliest such.
pub open spec fn is_min_first(ws: Seq<HuffTree>, j: int) -> bool {
    &&& 0 <= j < ws.len()
    &&& forall|i: int| 0 <= i < ws.len() ==> ws[j].weight() <= (#[trigger] ws[i]).weight()
    &&& forall|i: int| 0 <= i < j ==> ws[j].weight() < (#[trigger] ws[i]).weight()
}

/// The greedy construction: `t` is what the forest `ws` becomes when the two
/// lightest trees (the earliest on equal weight) are repeatedly taken out and
/// merged, the first taken becoming the left child and the merged tree going
/// to the back, until one tree remains.
pub open spec fn builds_to(ws: Seq<HuffTree>, t: HuffTree) -> bool
    decreases ws.len(),
{
    if ws.len() == 0 {
        false
    } else if ws.len() == 1 {
        ws[0] == t
    } else {
        exists|j1: int|
            #[trigger] is_min_first(ws, j1) && (exists|j2: int|
                #[trigger] is_min_first(ws.remove(j1), j2) && builds_to(
                    ws.remove(j1).remove(j2).push(
                        HuffTree::spec_merge(ws[j1], ws.remove(j1)[j2]),
                    ),
                    t,
                ))
    }
}

/// Only one index can hold the earliest lightest tree.
proof fn lemma_min_first_unique(ws: Seq<HuffTree>, a: int, b: int)
    requires
        is_min_first(ws, a),
        is_min_first(ws, b),
    ensures
        a == b,
{
    if a < b {
        assert(ws[b].weight() < ws[a].weight());
        assert(ws[a].weight() <= ws[b].weight());
    }
    if b < a {
        assert(ws[a].weight() < ws[b].weight());
        assert(ws[b].weight() <= ws[a].weight());
    }
}

/// The tie-break rule makes the construction deterministic: a forest builds
/// to at most one tree.
pub proof fn lemma_builds_to_deterministic(ws: Seq<HuffTree>, t1: HuffTree, t2: HuffTree)
    requires
        builds_to(ws, t1),
        builds_to(ws, t2),
    ensures
        t1 == t2,
    decreases ws.len(),
{
    if ws.len() > 1 {
        let ja = choose|j1: int|
            #[trigger] is_min_first(ws, j1) && (exists|j2: int|
                #[trigger] is_min_first(ws.remove(j1), j2) && builds_to(
                    ws.remove(j1).remove(j2).push(
                        HuffTree::spec_merge(ws[j1], ws.remove(j1)[j2]),
                    ),
                    t1,
                ));
        let jb = choose|j1: int|
            #[trigger] is_min_first(ws, j1) && (exists|j2: int|
                #[trigger] is_min_first(ws.remove(j1), j2) && builds_to(
                    ws.remove(j1).remove(j2).push(
                        HuffTree::spec_merge(ws[j1], ws.remove(j1)[j2]),
                    ),
                    t2,
                ));
        lemma_min_first_unique(ws, ja, jb);
        let rest = ws.remove(ja);
        let ka = choose|j2: int|
            #[trigger] is_min_first(rest, j2) && builds_to(
                rest.remove(j2).push(HuffTree::spec_merge(ws[ja], rest[j2])),
                t1,
            );
        let kb = choose|j2: int|
            #[trigger] is_min_first(rest, j2) && builds_to(
                rest.remove(j2).push(HuffTree::spec_merge(ws[ja], rest[j2])),
                t2,
            );
        lemma_min_first_unique(rest, ka, kb);
        lemma_builds_to_deterministic(
            rest.remove(ka).push(HuffTree::spec_merge(ws[ja], rest[ka])),
            t1,
            t2,
        );
    }
}

/// The total weight of a forest: the sum of its trees' weights.
pub open spec fn forest_weight(ws: Seq<HuffTree>) -> nat
    decreases ws.len(),
{
    if ws.len() == 0 {
        0
    } else {
        ws[0].weight() + forest_weight(ws.drop_first())
    }
}

/// All leaf symbols of a forest, tree by tree, left to right.
pub open spec fn forest_syms(ws: Seq<HuffTree>) -> Seq<char>
    decreases ws.len(),
{
    if ws.len() == 0 {
        Seq::empty()
    } else {
        ws[0].leaf_syms() + forest_syms(ws.drop_first())
    }
}

/// All leaves of a forest, tree by tree, left to right.
pub open spec fn forest_leaves(ws: Seq<HuffTree>) -> Seq<(char, u32)>
    decreases ws.len(),
{
    if ws.len() == 0 {
        Seq::empty()
    } else {
        ws[0].leaves() + forest_leaves(ws.drop_first())
    }
}

proof fn lemma_forest_concat(a: Seq<HuffTree>, b: Seq<HuffTree>)
    ensures
        forest_weight(a + b) == forest_weight(a) + forest_weight(b),
        forest_syms(a + b) == forest_syms(a) + forest_syms(b),
        forest_leaves(a + b) == forest_leaves(a) + forest_leaves(b),
    decreases a.len(),
{
    if a.len() == 0 {
        assert(a + b =~= b);
        assert(forest_syms(a) + forest_syms(b) =~= forest_syms(b));
        assert(forest_leaves(a) + forest_leaves(b) =~= forest_leaves(b));
    } else {
        assert((a + b).drop_first() =~= a.drop_first() + b);
        assert((a + b)[0] == a[0]);
        lemma_forest_concat(a.drop_first(), b);
        assert(forest_syms(a + b) =~= forest_syms(a) + forest_syms(b));
        assert(forest_leaves(a + b) =~= forest_leaves(a) + forest_leaves(b));
    }
}

proof fn lemma_forest_singleton(t: HuffTree)
    ensures
        forest_weight(seq![t]) == t.weight(),
        forest_syms(seq![t]) == t.leaf_syms(),
        forest_leaves(seq![t]) == t.leaves(),
{
    assert(seq![t].drop_first() =~= Seq::<HuffTree>::empty());
    assert(forest_weight(Seq::<HuffTree>::empty()) == 0);
    assert(forest_syms(Seq::<HuffTree>::empty()) == Seq::<char>::empty());
    assert(forest_leaves(Seq::<HuffTree>::empty()) == Seq::<(char, u32)>::empty());
    assert(seq![t][0] == t);
    assert(t.leaf_syms() + forest_syms(Seq::<HuffTree>::empty()) =~= t.leaf_syms());
    assert(t.leaves() + forest_leaves(Seq::<HuffTree>::empty()) =~= t.leaves());
}

/// Removing tree `j` from a forest splits off exactly its weight, its leaf
/// symbols and its leaves.
proof fn lemma_forest_remove(ws: Seq<HuffTree>, j: int)
    requires
        0 <= j < ws.len(),
    ensures
        forest_weight(ws) == forest_weight(ws.remove(j)) + ws[j].weight(),
        forest_syms(ws).to_multiset() == forest_syms(ws.remove(j)).to_multiset().add(
            ws[j].leaf_syms().to_multiset(),
        ),
        forest_leaves(ws).to_multiset() == forest_leaves(ws.remove(j)).to_multiset().add(
            ws[j].leaves().to_multiset(),
        ),
{
    let pre = ws.take(j);
    let mid = seq![ws[j]];
    let post = ws.skip(j + 1);
    assert(ws =~= (pre + mid) + post);
    assert(ws.remove(j) =~= pre + post);
    lemma_forest_concat(pre + mid, post);
    lemma_forest_concat(pre, mid);
    lemma_forest_concat(pre, post);
    lemma_forest_singleton(ws[j]);
    lemma_multiset_commutative(forest_syms(pre + mid), forest_syms(post));
    lemma_multiset_commutative(forest_syms(pre), forest_syms(mid));
    lemma_multiset_commutative(forest_syms(pre), forest_syms(post));
    lemma_multiset_commutative(forest_leaves(pre + mid), forest_leaves(post));
    lemma_multiset_commutative(forest_leaves(pre), forest_leaves(mid));
    lemma_multiset_commutative(forest_leaves(pre), forest_leaves(post));
    assert(forest_syms(ws).to_multiset() =~= forest_syms(ws.remove(j)).to_multiset().add(
        ws[j].leaf_syms().to_multiset(),
    ));
    assert(forest_leaves(ws).to_multiset() =~= forest_leaves(ws.remove(j)).to_multiset().add(
        ws[j].leaves().to_multiset(),
    ));
}

/// The index of the lightest tree; among equal weights, the earliest.
fn min_index(ws: &Vec<HuffTree>) -> (j: usize)
    requires
        ws@.len() >= 1,
        forall|i: int| 0 <= i < ws@.len() ==> (#[trigger] ws@[i]).weight() <= u32::MAX,
    ensures
        j < ws@.len(),
        is_min_first(ws@, j as int),
{
    let mut j: usize = 0;
    let mut best: u32 = ws[0].lettercount();
    let mut i: usize = 1;
    while i < ws.len()
        invariant
            j < i <= ws@.len(),
            forall|k: int| 0 <= k < ws@.len() ==> (#[trigger] ws@[k]).weight() <= u32::MAX,
            best == ws@[j as int].weight(),
            forall|k: int| 0 <= k < i ==> best <= (#[trigger] ws@[k]).weight(),
            forall|k: int| 0 <= k < j ==> best < (#[trigger] ws@[k]).weight(),
        decreases ws@.len() - i,
    {
        let w = ws[i].lettercount();
        if w < best {
            j = i;
            best = w;
        }
        i = i + 1;
    }
    j
}

/// Build a Huffman tree by repeatedly merging the two lightest trees.
///
/// Returns `None` exactly when the table is empty. Otherwise the result is
/// the one tree the greedy construction (`builds_to`) derives from the
/// table's single-leaf forest; in particular its leaves are exactly the
/// table's entries, so its leaf symbols are the table's keys, each exactly
/// once, and its weight is the table's total count.
pub fn huffman(table: Vec<(char, u32)>) -> (r: Option<HuffTree>)
    requires
        table_wf(table@),
        sum_counts(table@) <= u32::MAX,
    ensures
        r is Some <==> table@.len() > 0,
        r matches Some(t) ==> builds_to(initial_forest(table@), t),
        r matches Some(t) ==> t.wf(),
        r matches Some(t) ==> t.weight() == sum_counts(table@),
        r matches Some(t) ==> t.leaves().to_multiset() == table@.to_multiset(),
        r matches Some(t) ==> forall|c: char|
            t.leaf_syms().contains(c) <==> table_contains(table@, c),
{
    let ghost tab = table@;
    let mut ws: Vec<HuffTree> = Vec::new();
    let mut i: usize = 0;
    proof {
        assert(tab.take(0) =~= Seq::<(char, u32)>::empty());
        assert(ws@ =~= initial_forest(tab.take(0)));
    }
    while i < table.len()
        invariant
            i <= tab.len(),
            tab == table@,
            ws@.len() == i,
            ws@ == initial_forest(tab.take(i as int)),
            forest_weight(ws@) == sum_counts(tab.take(i as int)),
            forest_syms(ws@) == table_keys(tab.take(i as int)),
            forest_leaves(ws@) == tab.take(i as int),
        decreases tab.len() - i,
    {
        let chr = table[i].0;
        let occ = table[i].1;
        let leaf = HuffTree::new(chr, occ);
        let ghost before = ws@;
        ws.push(leaf);
        proof {
            assert(ws@ =~= before + seq![leaf]);
            lemma_forest_concat(before, seq![leaf]);
            lemma_forest_singleton(leaf);
            assert(leaf.leaf_syms() =~= seq![chr]);
            assert(leaf.leaves() =~= seq![(chr, occ)]);
            assert(tab.take(i + 1).drop_last() =~= tab.take(i as int));
            assert(ws@ =~= initial_forest(tab.take(i + 1))) by {
                assert(tab.take(i + 1).last() == tab[i as int]);
            }
            assert(forest_syms(ws@) =~= table_keys(tab.take(i + 1)));
            assert(forest_leaves(ws@) =~= tab.take(i + 1));
        }
        i = i + 1;
    }
    proof {
        assert(tab.take(tab.len() as int) =~= tab);
    }
    if ws.len() == 0 {
        return None;
    }
    while ws.len() >= 2
        invariant
            ws@.len() >= 1,
            forest_weight(ws@) == sum_counts(tab),
            forest_syms(ws@).to_multiset() == table_keys(tab).to_multiset(),
            forest_leaves(ws@).to_multiset() == tab.to_multiset(),
            sum_counts(tab) <= u32::MAX,
            forall|t: HuffTree| #[trigger] builds_to(ws@, t) ==> builds_to(
                initial_forest(tab),
                t,
            ),
        decreases ws@.len(),
    {
        proof {
            assert forall|k: int| 0 <= k < ws@.len() implies (#[trigger] ws@[k]).weight()
                <= u32::MAX by {
                lemma_forest_remove(ws@, k);
            }
        }
        let j1 = min_index(&ws);
        let ghost w0 = ws@;
        let t1 = ws.remove(j1);
        proof {
            lemma_forest_remove(w0, j1 as int);
            assert forall|k: int| 0 <= k < ws@.len() implies (#[trigger] ws@[k]).weight()
                <= u32::MAX by {
                lemma_forest_remove(ws@, k);
            }
        }
        let j2 = min_index(&ws);
        let ghost w1 = ws@;
        let t2 = ws.remove(j2);
        proof {
            lemma_forest_remove(w1, j2 as int);
        }
        let merged = t1.merge(t2);
        let ghost w2 = ws@;
        ws.push(merged);
        proof {
            assert(ws@ =~= w2 + seq![merged]);
            lemma_forest_concat(w2, seq![merged]);
            lemma_forest_singleton(merged);
            lemma_multiset_commutative(t1.leaf_syms(), t2.leaf_syms());
            lemma_multiset_commutative(t1.leaves(), t2.leaves());
            lemma_multiset_commutative(forest_syms(w2), merged.leaf_syms());
            lemma_multiset_commutative(forest_leaves(w2), merged.leaves());
            assert(forest_syms(ws@).to_multiset() =~= table_keys(tab).to_multiset());
            assert(forest_leaves(ws@).to_multiset() =~= tab.to_multiset());
            // One loop step performs exactly one step of the construction
            // relation, so whatever the new forest builds to, the old one
            // builds to as well.
            assert(ws@ == w0.remove(j1 as int).remove(j2 as int).push(
                HuffTree::spec_merge(w0[j1 as int], w0.remove(j1 as int)[j2 as int]),
            ));
            assert forall|t: HuffTree| #[trigger] builds_to(ws@, t) implies builds_to(
                initial_forest(tab),
                t,
            ) by {
                assert(is_min_first(w0, j1 as int));
                assert(is_min_first(w0.remove(j1 as int), j2 as int));
                assert(exists|j2x: int|
                    #[trigger] is_min_first(w0.remove(j1 as int), j2x) && builds_to(
                        w0.remove(j1 as int).remove(j2x).push(
                            HuffTree::spec_merge(w0[j1 as int], w0.remove(j1 as int)[j2x]),
                        ),
                        t,
                    ));
                assert(builds_to(w0, t));
            }
        }
    }
    let ghost wfin = ws@;
    let t = ws.remove(0);
    proof {
        assert(builds_to(wfin, t));
        assert(builds_to(initial_forest(tab), t));
        assert(wfin =~= seq![t]);
        lemma_forest_singleton(t);
        assert(forest_syms(wfin) == t.leaf_syms());
        assert(forest_leaves(wfin) == t.leaves());
        assert(t.leaf_syms().to_multiset() == table_keys(tab).to_multiset());
        assert(t.leaves().to_multiset() == tab.to_multiset());
        assert(t.weight() == sum_counts(tab));
        // Leaf symbols are distinct: the table's keys are, and the two
        // sequences carry the same multiset.
        assert(table_keys(tab).no_duplicates()) by {
            assert(forall|a: int| 0 <= a < tab.len() ==> table_keys(tab)[a] == (#[trigger] tab[a]).0);
        }
        table_keys(tab).lemma_multiset_has_no_duplicates();
        t.leaf_syms().lemma_multiset_has_no_duplicates_conv();
        assert(t.wf());
        // Leaf symbols are exactly the table's keys.
        assert forall|c: char| t.leaf_syms().contains(c) <==> table_contains(tab, c) by {
            assert(t.leaf_syms().contains(c) <==> t.leaf_syms().to_multiset().count(c) > 0);
            assert(table_keys(tab).contains(c) <==> table_keys(tab).to_multiset().count(c) > 0);
            assert(table_keys(tab).contains(c) <==> table_contains(tab, c)) by {
                assert(forall|a: int|
                    0 <= a < tab.len() ==> table_keys(tab)[a] == (#[trigger] tab[a]).0);
            }
        }
    }
    Some(t)
}

} // verus!
