//! The Huffman tree: a strict binary tree whose leaves carry a symbol and
//! its occurrence count. Internal nodes store no weight; a tree's weight is
//! the sum of its leaf counts, computed on demand.

use vstd::prelude::*;
use vstd::string::StringExecFns;
use crate::strops::push_char;
use crate::freq::sum_counts;

verus! {

/// A Huffman tree. Every internal node has exactly two children, so every
/// leaf of a multi-leaf tree lies at depth at least one.
pub enum HuffTree {
    Leaf { occ: u32, chr: char },
    Node { left: Box<HuffTree>, right: Box<HuffTree> },
}

impl HuffTree {
    /// Total weight: the sum of the occurrence counts over all leaves.
    pub open spec fn weight(&self) -> nat
        decreases self,
    {
        match *self {
            HuffTree::Leaf { occ, .. } => occ as nat,
            HuffTree::Node { left, right } => left.weight() + right.weight(),
        }
    }

    /// The leaf symbols, left to right.
    pub open spec fn leaf_syms(&self) -> Seq<char>
        decreases self,
    {
        match *self {
            HuffTree::Leaf { chr, .. } => seq![chr],
            HuffTree::Node { left, right } => left.leaf_syms() + right.leaf_syms(),
        }
    }

    /// The leaves, left to right, each as a (symbol, weight) pair.
    pub open spec fn leaves(&self) -> Seq<(char, u32)>
        decreases self,
    {
        match *self {
            HuffTree::Leaf { occ, chr } => seq![(chr, occ)],
            HuffTree::Node { left, right } => left.leaves() + right.leaves(),
        }
    }

    /// Well-formed: no two leaves carry the same symbol.
    pub open spec fn wf(&self) -> bool {
        self.leaf_syms().no_duplicates()
    }

    /// The merge of two trees, as a value: `a` the left child, `b` the right.
    pub open spec fn spec_merge(a: HuffTree, b: HuffTree) -> HuffTree {
        HuffTree::Node { left: Box::new(a), right: Box::new(b) }
    }

    /// A single-leaf tree for one symbol and its occurrence count.
    pub fn new(chr: char, occ: u32) -> (r: HuffTree)
        ensures
            r == (HuffTree::Leaf { occ, chr }),
    {
        HuffTree::Leaf { occ, chr }
    }

    /// Merge two trees under a fresh internal node; `self` becomes the left
    /// child and `other` the right child.
    pub fn merge(self, other: HuffTree) -> (r: HuffTree)
        ensures
            r == HuffTree::spec_merge(self, other),
            r.weight() == self.weight() + other.weight(),
            r.leaf_syms() == self.leaf_syms() + other.leaf_syms(),
            r.leaves() == self.leaves() + other.leaves(),
    {
        HuffTree::Node { left: Box::new(self), right: Box::new(other) }
    }

    /// The leaf symbols, left to right, as a string.
    pub fn chars(&self) -> (r: String)
        ensures
            r@ == self.leaf_syms(),
        decreases self,
    {
        match self {
            HuffTree::Leaf { chr, .. } => {
                let mut s = String::new();
                push_char(&mut s, *chr);
                proof {
                    assert(s@ =~= seq![*chr]);
                }
                s
            },
            HuffTree::Node { left, right } => {
                let l = left.chars();
                let rs = right.chars();
                let r = l.concat(rs.as_str());
                proof {
                    assert(r@ =~= self.leaf_syms());
                }
                r
            },
        }
    }

    /// The tree's total weight, computed by walking its leaves.
    pub fn lettercount(&self) -> (r: u32)
        requires
            self.weight() <= u32::MAX,
        ensures
            r == self.weight(),
        decreases self,
    {
        match self {
            HuffTree::Leaf { occ, .. } => *occ,
            HuffTree::Node { left, right } => left.lettercount() + right.lettercount(),
        }
    }
}

/// Weight conservation: an internal node's weight is the sum of its two
/// children's weights, and any tree's weight is the sum of its leaf weights.
pub proof fn lemma_weight_conservation(t: HuffTree)
    ensures
        t matches HuffTree::Node { left, right } ==> t.weight() == left.weight()
            + right.weight(),
        t.weight() == sum_counts(t.leaves()),
    decreases t,
{
    match t {
        HuffTree::Leaf { occ, chr } => {
            let s = seq![(chr, occ)];
            assert(t.leaves() == s);
            assert(s.drop_last() =~= Seq::<(char, u32)>::empty());
            assert(sum_counts(s.drop_last()) == 0);
            assert(sum_counts(s) == occ);
        },
        HuffTree::Node { left, right } => {
            lemma_weight_conservation(*left);
            lemma_weight_conservation(*right);
            crate::freq::lemma_sum_counts_concat(left.leaves(), right.leaves());
        },
    }
}

} // verus!
