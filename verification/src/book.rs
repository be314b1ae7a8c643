//! Codebook derivation: walk the Huffman tree depth-first, accumulating the
//! path from the root (left = 0, right = 1), and record each leaf's symbol
//! with its path.
//!
//! Policy for the degenerate single-leaf tree (a one-symbol alphabet): its
//! symbol gets the one-bit code `[false]` rather than the empty path, so
//! every derived code is nonempty and greedy decoding stays well-defined.

use vstd::prelude::*;
use crate::tree::HuffTree;

verus! {

/// An encoded message or a code: an ordered sequence of bits.
pub type BitVec = Vec<bool>;

/// A codebook: one (symbol, code) entry per distinct leaf symbol.
pub type Codebook = Vec<(char, BitVec)>;

/// The mathematical view of a codebook: each code as a bit sequence.
pub open spec fn book_view(b: Seq<(char, Vec<bool>)>) -> Seq<(char, Seq<bool>)> {
    b.map_values(|p: (char, Vec<bool>)| (p.0, p.1@))
}

/// The symbols of a codebook, in entry order.
pub open spec fn book_keys(b: Seq<(char, Seq<bool>)>) -> Seq<char> {
    b.map_values(|p: (char, Seq<bool>)| p.0)
}

/// The codebook has an entry for `c`.
pub open spec fn book_contains(b: Seq<(char, Seq<bool>)>, c: char) -> bool {
    exists|i: int| 0 <= i < b.len() && (#[trigger] b[i]).0 == c
}

/// Every code has at least one bit.
pub open spec fn codes_nonempty(b: Seq<(char, Seq<bool>)>) -> bool {
    forall|i: int| 0 <= i < b.len() ==> (#[trigger] b[i]).1.len() >= 1
}

/// No entry's code is a prefix of another entry's code.
pub open spec fn prefix_free(b: Seq<(char, Seq<bool>)>) -> bool {
    forall|i: int, j: int|
        0 <= i < b.len() && 0 <= j < b.len() && i != j ==> !(#[trigger] b[i]).1.is_prefix_of(
            (#[trigger] b[j]).1,
        )
}

/// The (symbol, path) pairs of all leaves below `t`, where `prefix` is the
/// path from the root down to `t`.
pub open spec fn spec_paths(t: HuffTree, prefix: Seq<bool>) -> Seq<(char, Seq<bool>)>
    decreases t,
{
    match t {
        HuffTree::Leaf { chr, .. } => seq![(chr, prefix)],
        HuffTree::Node { left, right } => spec_paths(*left, prefix.push(false)) + spec_paths(
            *right,
            prefix.push(true),
        ),
    }
}

/// The codebook derived from a tree: each leaf symbol's root-to-leaf path,
/// except that a tree that is a single leaf yields the one-bit code
/// `[false]` for its symbol.
pub open spec fn book_of(t: HuffTree) -> Seq<(char, Seq<bool>)> {
    match t {
        HuffTree::Leaf { chr, .. } => seq![(chr, seq![false])],
        HuffTree::Node { .. } => spec_paths(t, Seq::empty()),
    }
}

/// The derived entries are the leaf symbols in order, each code extending
/// the accumulated prefix, and strictly extending it below an internal node.
proof fn lemma_paths_shape(t: HuffTree, prefix: Seq<bool>)
    ensures
        book_keys(spec_paths(t, prefix)) == t.leaf_syms(),
        forall|i: int|
            0 <= i < spec_paths(t, prefix).len() ==> prefix.is_prefix_of(
                (#[trigger] spec_paths(t, prefix)[i]).1,
            ),
        t is Node ==> forall|i: int|
            0 <= i < spec_paths(t, prefix).len() ==> (#[trigger] spec_paths(t, prefix)[i]).1.len()
                > prefix.len(),
    decreases t,
{
    match t {
        HuffTree::Leaf { chr, .. } => {
            assert(book_keys(spec_paths(t, prefix)) =~= t.leaf_syms());
            assert(prefix.is_prefix_of(prefix));
        },
        HuffTree::Node { left, right } => {
            lemma_paths_shape(*left, prefix.push(false));
            lemma_paths_shape(*right, prefix.push(true));
            let pl = spec_paths(*left, prefix.push(false));
            let pr = spec_paths(*right, prefix.push(true));
            assert(book_keys(pl + pr) =~= book_keys(pl) + book_keys(pr));
            assert(book_keys(pl + pr) =~= t.leaf_syms());
            assert forall|i: int| 0 <= i < (pl + pr).len() implies prefix.is_prefix_of(
                (#[trigger] (pl + pr)[i]).1,
            ) && (pl + pr)[i].1.len() > prefix.len() by {
                let e = (pl + pr)[i];
                if i < pl.len() {
                    assert(e == pl[i]);
                    assert(prefix.push(false).is_prefix_of(e.1));
                    assert(prefix =~= prefix.push(false).subrange(0, prefix.len() as int));
                    assert(prefix =~= e.1.subrange(0, prefix.len() as int));
                } else {
                    assert(e == pr[i - pl.len()]);
                    assert(prefix.push(true).is_prefix_of(e.1));
                    assert(prefix =~= prefix.push(true).subrange(0, prefix.len() as int));
                    assert(prefix =~= e.1.subrange(0, prefix.len() as int));
                }
            }
        },
    }
}

/// Paths to distinct leaves are never prefixes of one another: below an
/// internal node they diverge at the bit just past the shared prefix.
proof fn lemma_paths_prefix_free(t: HuffTree, prefix: Seq<bool>)
    ensures
        prefix_free(spec_paths(t, prefix)),
    decreases t,
{
    match t {
        HuffTree::Leaf { .. } => {},
        HuffTree::Node { left, right } => {
            lemma_paths_prefix_free(*left, prefix.push(false));
            lemma_paths_prefix_free(*right, prefix.push(true));
            lemma_paths_shape(*left, prefix.push(false));
            lemma_paths_shape(*right, prefix.push(true));
            let pl = spec_paths(*left, prefix.push(false));
            let pr = spec_paths(*right, prefix.push(true));
            let all = pl + pr;
            let d = prefix.len() as int;
            assert forall|i: int, j: int|
                0 <= i < all.len() && 0 <= j < all.len() && i != j implies !(#[trigger] all[i]).1.is_prefix_of(
                (#[trigger] all[j]).1,
            ) by {
                let a = all[i].1;
                let b = all[j].1;
                if i < pl.len() && j < pl.len() {
                    assert(all[i] == pl[i] && all[j] == pl[j]);
                } else if i >= pl.len() && j >= pl.len() {
                    assert(all[i] == pr[i - pl.len()] && all[j] == pr[j - pl.len()]);
                } else {
                    // One code descends left, the other right: they differ at
                    // the bit just past the shared prefix, which both have.
                    let (ba, bb) = if i < pl.len() {
                        (false, true)
                    } else {
                        (true, false)
                    };
                    assert(prefix.push(ba).is_prefix_of(a));
                    assert(prefix.push(bb).is_prefix_of(b));
                    assert(a[d] == ba && b[d] == bb) by {
                        assert(prefix.push(ba)[d] == ba);
                        assert(prefix.push(bb)[d] == bb);
                        assert(a.subrange(0, d + 1) == prefix.push(ba));
                        assert(b.subrange(0, d + 1) == prefix.push(bb));
                        assert(a.subrange(0, d + 1)[d] == a[d]);
                        assert(b.subrange(0, d + 1)[d] == b[d]);
                    }
                    if a.is_prefix_of(b) {
                        assert(a.len() > d && b.len() > d);
                        assert(a == b.subrange(0, a.len() as int));
                        assert(a[d] == b[d]);
                        assert(false);
                    }
                }
            }
        },
    }
}

/// Prefix-freeness: in a derived codebook, no entry's code is a prefix of a
/// different entry's code.
pub proof fn lemma_prefix_free(t: HuffTree)
    ensures
        prefix_free(book_of(t)),
{
    match t {
        HuffTree::Leaf { .. } => {},
        HuffTree::Node { .. } => {
            lemma_paths_prefix_free(t, Seq::empty());
        },
    }
}

/// A derived codebook has one entry per leaf symbol, in leaf order, and
/// every code is nonempty.
pub proof fn lemma_book_of_shape(t: HuffTree)
    ensures
        book_keys(book_of(t)) == t.leaf_syms(),
        codes_nonempty(book_of(t)),
{
    match t {
        HuffTree::Leaf { .. } => {
            assert(book_keys(book_of(t)) =~= t.leaf_syms());
            assert(book_of(t)[0].1.len() == 1);
        },
        HuffTree::Node { .. } => {
            lemma_paths_shape(t, Seq::empty());
        },
    }
}

/// A codebook contains `c` exactly when its key sequence does.
pub proof fn lemma_book_contains_keys(b: Seq<(char, Seq<bool>)>, c: char)
    ensures
        book_contains(b, c) <==> book_keys(b).contains(c),
{
    assert(forall|i: int| 0 <= i < b.len() ==> book_keys(b)[i] == (#[trigger] b[i]).0);
    if book_keys(b).contains(c) {
        let i = choose|i: int| 0 <= i < book_keys(b).len() && book_keys(b)[i] == c;
        assert(b[i].0 == c);
    }
}

/// A fresh copy of a bit sequence.
fn copy_bits(bv: &Vec<bool>) -> (r: Vec<bool>)
    ensures
        r@ == bv@,
{
    let mut r: Vec<bool> = Vec::new();
    let mut i: usize = 0;
    while i < bv.len()
        invariant
            i <= bv@.len(),
            r@ == bv@.take(i as int),
        decreases bv@.len() - i,
    {
        r.push(bv[i]);
        proof {
            assert(bv@.take(i + 1) =~= bv@.take(i as int).push(bv@[i as int]));
        }
        i = i + 1;
    }
    proof {
        assert(bv@.take(bv@.len() as int) =~= bv@);
    }
    r
}

fn traverse(huff: &HuffTree, bv: Vec<bool>) -> (r: Vec<(char, Vec<bool>)>)
    ensures
        book_view(r@) == spec_paths(*huff, bv@),
    decreases huff,
{
    match huff {
        HuffTree::Leaf { chr, .. } => {
            let mut r: Vec<(char, Vec<bool>)> = Vec::new();
            r.push((*chr, bv));
            proof {
                assert(book_view(r@) =~= spec_paths(*huff, r@[0].1@));
            }
            r
        },
        HuffTree::Node { left, right } => {
            let mut br = copy_bits(&bv);
            let mut bl = bv;
            br.push(true);
            bl.push(false);
            let mut r = traverse(left, bl);
            let mut rr = traverse(right, br);
            let ghost lpart = r@;
            r.append(&mut rr);
            proof {
                assert(book_view(lpart + rr@) =~= book_view(lpart) + book_view(rr@));
            }
            r
        },
    }
}

/// Derive the codebook of a tree: each leaf symbol mapped to its
/// root-to-leaf path (left = 0, right = 1), in leaf order; a single-leaf
/// tree yields the one-bit code `[false]`.
pub fn codebook(huff: &HuffTree) -> (r: Codebook)
    ensures
        book_view(r@) == book_of(*huff),
{
    match huff {
        HuffTree::Leaf { chr, .. } => {
            let mut code: Vec<bool> = Vec::new();
            code.push(false);
            let mut r: Vec<(char, Vec<bool>)> = Vec::new();
            r.push((*chr, code));
            proof {
                assert(r@[0].1@ =~= seq![false]);
                assert(book_view(r@) =~= book_of(*huff));
            }
            r
        },
        HuffTree::Node { .. } => {
            let empty: Vec<bool> = Vec::new();
            proof {
                assert(empty@ =~= Seq::<bool>::empty());
            }
            traverse(huff, empty)
        },
    }
}

} // verus!
