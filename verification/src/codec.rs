//! Encoding and decoding of messages against a codebook.
//!
//! Encoding concatenates each message symbol's code in message order.
//! Decoding is greedy: at each position it takes the first codebook entry
//! whose code is a prefix of the remaining bits; because derived codebooks
//! are prefix-free, at most one entry can ever match, so the scan order does
//! not affect the result.

use vstd::prelude::*;
use vstd::string::StrSliceExecFns;
use crate::strops::push_char;
use crate::freq::{frequency, occurrences, table_contains, lemma_occurrences_contains};
use crate::builder::huffman;
use crate::book::{
    BitVec, Codebook, book_view, book_keys, book_contains, codes_nonempty, prefix_free, codebook,
    lemma_prefix_free, lemma_book_of_shape, lemma_book_contains_keys,
};

verus! {

/// Decoding failed: at some position no codebook entry's code is a prefix of
/// the remaining bits, so the bit sequence does not belong to the codebook.
#[derive(Clone, Copy, Debug, PartialEq, Eq, Structural)]
pub enum DecodeError {
    CodebookMismatch,
}

/// The code the codebook assigns to `c`: the first entry's, or the empty
/// sequence where no entry has key `c`.
pub open spec fn book_lookup(b: Seq<(char, Seq<bool>)>, c: char) -> Seq<bool>
    decreases b.len(),
{
    if b.len() == 0 {
        Seq::empty()
    } else if b[0].0 == c {
        b[0].1
    } else {
        book_lookup(b.drop_first(), c)
    }
}

/// The encoding of a message: each symbol's code, concatenated in order.
pub open spec fn spec_encode(b: Seq<(char, Seq<bool>)>, m: Seq<char>) -> Seq<bool>
    decreases m.len(),
{
    if m.len() == 0 {
        Seq::empty()
    } else {
        book_lookup(b, m[0]) + spec_encode(b, m.drop_first())
    }
}

/// The first entry whose code is a prefix of `bits`.
pub open spec fn find_match(b: Seq<(char, Seq<bool>)>, bits: Seq<bool>) -> Option<
    (char, Seq<bool>),
>
    decreases b.len(),
{
    if b.len() == 0 {
        None
    } else if b[0].1.is_prefix_of(bits) {
        Some(b[0])
    } else {
        find_match(b.drop_first(), bits)
    }
}

/// Greedy decoding: repeatedly match a code at the front of the bits and
/// emit its symbol; `None` where no code matches (or a matched code would
/// consume nothing or more than remains, which no well-formed codebook's
/// code does).
pub open spec fn spec_decode(b: Seq<(char, Seq<bool>)>, bits: Seq<bool>) -> Option<Seq<char>>
    decreases bits.len(),
{
    if bits.len() == 0 {
        Some(Seq::empty())
    } else {
        match find_match(b, bits) {
            None => None,
            Some(e) => if e.1.len() < 1 || e.1.len() > bits.len() {
                None
            } else {
                match spec_decode(b, bits.skip(e.1.len() as int)) {
                    None => None,
                    Some(rest) => Some(seq![e.0] + rest),
                }
            },
        }
    }
}

/// Prepend an already-decoded head to the outcome for the remaining bits.
pub open spec fn opt_prepend(s: Seq<char>, o: Option<Seq<char>>) -> Option<Seq<char>> {
    match o {
        Some(rest) => Some(s + rest),
        None => None,
    }
}

proof fn lemma_book_lookup_at(b: Seq<(char, Seq<bool>)>, j: int, c: char)
    requires
        0 <= j < b.len(),
        b[j].0 == c,
        forall|q: int| 0 <= q < j ==> (#[trigger] b[q]).0 != c,
    ensures
        book_lookup(b, c) == b[j].1,
    decreases b.len(),
{
    if j > 0 {
        assert(forall|q: int| 0 <= q < b.len() - 1 ==> b.drop_first()[q] == b[q + 1]);
        lemma_book_lookup_at(b.drop_first(), j - 1, c);
    }
}

proof fn lemma_book_lookup_entry(b: Seq<(char, Seq<bool>)>, c: char)
    requires
        book_contains(b, c),
    ensures
        exists|j: int|
            0 <= j < b.len() && (#[trigger] b[j]).0 == c && b[j].1 == book_lookup(b, c),
    decreases b.len(),
{
    if b[0].0 == c {
        assert(b[0].0 == c && b[0].1 == book_lookup(b, c));
    } else {
        let i = choose|i: int| 0 <= i < b.len() && (#[trigger] b[i]).0 == c;
        assert(forall|q: int| 0 <= q < b.len() - 1 ==> b.drop_first()[q] == b[q + 1]);
        assert(b.drop_first()[i - 1].0 == c);
        assert(book_contains(b.drop_first(), c));
        lemma_book_lookup_entry(b.drop_first(), c);
        let j = choose|j: int|
            0 <= j < b.drop_first().len() && (#[trigger] b.drop_first()[j]).0 == c
                && b.drop_first()[j].1 == book_lookup(b.drop_first(), c);
        assert(b[j + 1].0 == c && b[j + 1].1 == book_lookup(b, c));
    }
}

proof fn lemma_find_match_none(b: Seq<(char, Seq<bool>)>, bits: Seq<bool>)
    requires
        forall|q: int| 0 <= q < b.len() ==> !(#[trigger] b[q]).1.is_prefix_of(bits),
    ensures
        find_match(b, bits) is None,
    decreases b.len(),
{
    if b.len() > 0 {
        assert(forall|q: int| 0 <= q < b.len() - 1 ==> b.drop_first()[q] == b[q + 1]);
        lemma_find_match_none(b.drop_first(), bits);
    }
}

proof fn lemma_find_match_at(b: Seq<(char, Seq<bool>)>, bits: Seq<bool>, k: int)
    requires
        0 <= k < b.len(),
        b[k].1.is_prefix_of(bits),
        forall|q: int| 0 <= q < k ==> !(#[trigger] b[q]).1.is_prefix_of(bits),
    ensures
        find_match(b, bits) == Some(b[k]),
    decreases b.len(),
{
    if k > 0 {
        assert(forall|q: int| 0 <= q < b.len() - 1 ==> b.drop_first()[q] == b[q + 1]);
        lemma_find_match_at(b.drop_first(), bits, k - 1);
    }
}

proof fn lemma_find_match_sound(b: Seq<(char, Seq<bool>)>, bits: Seq<bool>)
    ensures
        find_match(b, bits) matches Some(e) ==> exists|q: int|
            0 <= q < b.len() && (#[trigger] b[q]) == e && e.1.is_prefix_of(bits),
    decreases b.len(),
{
    if b.len() > 0 && !b[0].1.is_prefix_of(bits) {
        lemma_find_match_sound(b.drop_first(), bits);
        if let Some(e) = find_match(b, bits) {
            let q = choose|q: int|
                0 <= q < b.drop_first().len() && (#[trigger] b.drop_first()[q]) == e
                    && e.1.is_prefix_of(bits);
            assert(b[q + 1] == e);
        }
    }
}

/// Two prefixes of one sequence are comparable: the shorter is a prefix of
/// the longer.
proof fn lemma_comparable_prefixes(a: Seq<bool>, b: Seq<bool>, s: Seq<bool>)
    requires
        a.is_prefix_of(s),
        b.is_prefix_of(s),
        a.len() <= b.len(),
    ensures
        a.is_prefix_of(b),
{
    assert(a =~= b.subrange(0, a.len() as int));
}

/// Render a bit sequence as a string of '0' and '1' characters.
pub fn bitvec_str(bv: &BitVec) -> (r: String)
    ensures
        r@.len() == bv@.len(),
        forall|i: int| 0 <= i < bv@.len() ==> r@[i] == (if bv@[i] {
            '1'
        } else {
            '0'
        }),
{
    let mut s = String::new();
    let mut i: usize = 0;
    while i < bv.len()
        invariant
            i <= bv@.len(),
            s@.len() == i,
            forall|k: int| 0 <= k < i ==> s@[k] == (if bv@[k] {
                '1'
            } else {
                '0'
            }),
        decreases bv@.len() - i,
    {
        let c = if bv[i] {
            '1'
        } else {
            '0'
        };
        push_char(&mut s, c);
        i = i + 1;
    }
    s
}

/// Does `code` stand at position `pos` of `bits`?
fn code_matches_at(code: &Vec<bool>, bits: &[bool], pos: usize) -> (r: bool)
    requires
        pos <= bits@.len(),
    ensures
        r == code@.is_prefix_of(bits@.skip(pos as int)),
{
    let ghost rem = bits@.skip(pos as int);
    let n: usize = bits.len();
    if code.len() > n - pos {
        return false;
    }
    let mut q: usize = 0;
    while q < code.len()
        invariant
            q <= code@.len(),
            n == bits@.len(),
            pos + code@.len() <= n,
            rem == bits@.skip(pos as int),
            forall|u: int| 0 <= u < q ==> code@[u] == rem[u],
        decreases code@.len() - q,
    {
        proof {
            assert(rem[q as int] == bits@[pos + q]);
        }
        if code[q] != bits[pos + q] {
            proof {
                if code@.is_prefix_of(rem) {
                    assert(code@ == rem.subrange(0, code@.len() as int));
                    assert(code@[q as int] == rem[q as int]);
                }
            }
            return false;
        }
        q = q + 1;
    }
    proof {
        assert(code@ =~= rem.subrange(0, code@.len() as int));
    }
    true
}

/// The first codebook entry whose code is a prefix of the bits at `pos`.
fn scan_book(codebook: &Codebook, bits: &[bool], pos: usize) -> (r: Option<usize>)
    requires
        pos <= bits@.len(),
    ensures
        match r {
            Some(k) => k < codebook@.len() && book_view(codebook@)[k as int].1.is_prefix_of(
                bits@.skip(pos as int),
            ) && forall|q: int|
                0 <= q < k ==> !(#[trigger] book_view(codebook@)[q]).1.is_prefix_of(
                    bits@.skip(pos as int),
                ),
            None => forall|q: int|
                0 <= q < codebook@.len() ==> !(#[trigger] book_view(codebook@)[q]).1.is_prefix_of(
                    bits@.skip(pos as int),
                ),
        },
{
    let ghost book = book_view(codebook@);
    let mut k: usize = 0;
    while k < codebook.len()
        invariant
            k <= codebook@.len(),
            pos <= bits@.len(),
            book == book_view(codebook@),
            forall|q: int| 0 <= q < k ==> !(#[trigger] book[q]).1.is_prefix_of(
                bits@.skip(pos as int),
            ),
        decreases codebook@.len() - k,
    {
        proof {
            assert(book[k as int] == (codebook@[k as int].0, codebook@[k as int].1@));
        }
        if code_matches_at(&codebook[k].1, bits, pos) {
            return Some(k);
        }
        k = k + 1;
    }
    None
}

/// Decode a bit sequence against a codebook, greedily matching codes from
/// the front; every code of the codebook must be nonempty (as every derived
/// codebook's is), so that each step consumes at least one bit.
///
/// Returns the decoded message, or `DecodeError::CodebookMismatch` exactly
/// when at some position no code matches the remaining bits.
pub fn decode(codebook: &Codebook, bits: &[bool]) -> (r: Result<String, DecodeError>)
    requires
        codes_nonempty(book_view(codebook@)),
    ensures
        r matches Ok(s) ==> spec_decode(book_view(codebook@), bits@) == Some(s@),
        r is Err ==> spec_decode(book_view(codebook@), bits@) is None,
{
    let ghost book = book_view(codebook@);
    let mut out = String::new();
    let mut pos: usize = 0;
    proof {
        assert(bits@.skip(0) =~= bits@);
        if let Some(r0) = spec_decode(book, bits@) {
            assert(out@ + r0 =~= r0);
        }
    }
    while pos < bits.len()
        invariant
            pos <= bits@.len(),
            book == book_view(codebook@),
            codes_nonempty(book),
            spec_decode(book, bits@) == opt_prepend(out@, spec_decode(book, bits@.skip(pos as int))),
        decreases bits@.len() - pos,
    {
        let ghost rem = bits@.skip(pos as int);
        match scan_book(codebook, bits, pos) {
            None => {
                proof {
                    lemma_find_match_none(book, rem);
                    assert(rem.len() > 0);
                    assert(spec_decode(book, rem) is None);
                }
                return Err(DecodeError::CodebookMismatch);
            },
            Some(k) => {
                let c = codebook[k].0;
                let clen = codebook[k].1.len();
                let ghost code = book[k as int].1;
                proof {
                    assert(book[k as int] == (codebook@[k as int].0, codebook@[k as int].1@));
                    lemma_find_match_at(book, rem, k as int);
                    assert(code.len() >= 1);
                    assert(code.is_prefix_of(rem));
                    assert(code.len() <= rem.len());
                    assert(rem.len() == bits@.len() - pos);
                }
                let ghost out0 = out@;
                push_char(&mut out, c);
                pos = pos + clen;
                proof {
                    assert(rem.skip(code.len() as int) =~= bits@.skip(pos as int));
                    let inner = spec_decode(book, bits@.skip(pos as int));
                    assert(spec_decode(book, rem) == opt_prepend(seq![c], inner));
                    match inner {
                        Some(rest) => {
                            assert(out0 + (seq![c] + rest) =~= out@ + rest);
                        },
                        None => {},
                    }
                }
            },
        }
    }
    proof {
        assert(bits@.skip(pos as int) =~= Seq::<bool>::empty());
        assert(spec_decode(book, bits@.skip(pos as int)) == Some(Seq::<char>::empty()));
        assert(out@ + Seq::<char>::empty() =~= out@);
    }
    Ok(out)
}

proof fn lemma_spec_encode_push(b: Seq<(char, Seq<bool>)>, m: Seq<char>, c: char)
    ensures
        spec_encode(b, m.push(c)) == spec_encode(b, m) + book_lookup(b, c),
    decreases m.len(),
{
    let code = book_lookup(b, c);
    if m.len() == 0 {
        assert(m.push(c)[0] == c);
        assert(m.push(c).drop_first() =~= Seq::<char>::empty());
        assert(spec_encode(b, Seq::<char>::empty()) == Seq::<bool>::empty());
        assert(code + Seq::<bool>::empty() =~= code);
        assert(Seq::<bool>::empty() + code =~= code);
    } else {
        assert(m.push(c)[0] == m[0]);
        assert(m.push(c).drop_first() =~= m.drop_first().push(c));
        lemma_spec_encode_push(b, m.drop_first(), c);
        assert(book_lookup(b, m[0]) + (spec_encode(b, m.drop_first()) + code) =~= (book_lookup(
            b,
            m[0],
        ) + spec_encode(b, m.drop_first())) + code);
    }
}

/// Round-trip: decoding an encoding returns the message, for any codebook
/// with nonempty, mutually prefix-free codes that covers every symbol of the
/// message. Every codebook derived from a well-formed tree qualifies.
pub proof fn lemma_round_trip(b: Seq<(char, Seq<bool>)>, m: Seq<char>)
    requires
        codes_nonempty(b),
        prefix_free(b),
        forall|i: int| 0 <= i < m.len() ==> book_contains(b, #[trigger] m[i]),
    ensures
        spec_decode(b, spec_encode(b, m)) == Some(m),
    decreases m.len(),
{
    if m.len() == 0 {
        assert(spec_encode(b, m) == Seq::<bool>::empty());
        assert(Seq::<char>::empty() =~= m);
    } else {
        let c = m[0];
        let code = book_lookup(b, c);
        let rest = spec_encode(b, m.drop_first());
        let bits = spec_encode(b, m);
        assert(bits == code + rest);
        assert(book_contains(b, c));
        lemma_book_lookup_entry(b, c);
        let j0 = choose|j: int|
            0 <= j < b.len() && (#[trigger] b[j]).0 == c && b[j].1 == book_lookup(b, c);
        assert(code.len() >= 1);
        assert(code.is_prefix_of(bits)) by {
            assert(code =~= bits.subrange(0, code.len() as int));
        }
        lemma_find_match_sound(b, bits);
        match find_match(b, bits) {
            None => {
                // impossible: entry j0 matches
                lemma_find_match_exists(b, bits, j0);
                assert(false);
            },
            Some(e) => {
                let q = choose|q: int|
                    0 <= q < b.len() && (#[trigger] b[q]) == e && e.1.is_prefix_of(bits);
                // Both e's code and entry j0's code are prefixes of the same
                // bits, so they are comparable; prefix-freeness then forces
                // q == j0, hence e is exactly (c, code).
                if q != j0 {
                    if e.1.len() <= code.len() {
                        lemma_comparable_prefixes(e.1, code, bits);
                        assert(b[q].1.is_prefix_of(b[j0].1));
                    } else {
                        lemma_comparable_prefixes(code, e.1, bits);
                        assert(b[j0].1.is_prefix_of(b[q].1));
                    }
                    assert(false);
                }
                assert(e == (c, code));
                let tail = bits.skip(code.len() as int);
                assert(tail =~= rest);
                assert forall|i: int| 0 <= i < m.drop_first().len() implies book_contains(
                    b,
                    #[trigger] m.drop_first()[i],
                ) by {
                    assert(m.drop_first()[i] == m[i + 1]);
                }
                lemma_round_trip(b, m.drop_first());
                assert(spec_decode(b, rest) == Some(m.drop_first()));
                assert(seq![c] + m.drop_first() =~= m);
            },
        }
    }
}

proof fn lemma_find_match_exists(b: Seq<(char, Seq<bool>)>, bits: Seq<bool>, j: int)
    requires
        0 <= j < b.len(),
        b[j].1.is_prefix_of(bits),
    ensures
        find_match(b, bits) is Some,
    decreases b.len(),
{
    if !b[0].1.is_prefix_of(bits) {
        assert(forall|q: int| 0 <= q < b.len() - 1 ==> b.drop_first()[q] == b[q + 1]);
        assert(b.drop_first()[j - 1] == b[j]);
        lemma_find_match_exists(b.drop_first(), bits, j - 1);
    }
}

/// The characters of a string, in order.
fn str_chars(s: &str) -> (r: Vec<char>)
    ensures
        r@ == s@,
{
    let n = s.unicode_len();
    let mut r: Vec<char> = Vec::new();
    let mut i: usize = 0;
    while i < n
        invariant
            i <= s@.len(),
            n == s@.len(),
            r@ == s@.take(i as int),
        decreases s@.len() - i,
    {
        let c = s.get_char(i);
        r.push(c);
        proof {
            assert(s@.take(i + 1) =~= s@.take(i as int).push(s@[i as int]));
        }
        i = i + 1;
    }
    proof {
        assert(s@.take(s@.len() as int) =~= s@);
    }
    r
}

/// The code a codebook assigns to `c`: its first entry for `c`, where one
/// exists.
pub fn book_get<'a>(codebook: &'a Codebook, c: char) -> (r: Option<&'a Vec<bool>>)
    ensures
        match r {
            Some(code) => book_contains(book_view(codebook@), c) && code@ == book_lookup(
                book_view(codebook@),
                c,
            ),
            None => !book_contains(book_view(codebook@), c),
        },
{
    let ghost book = book_view(codebook@);
    let mut k: usize = 0;
    while k < codebook.len()
        invariant
            k <= codebook@.len(),
            book == book_view(codebook@),
            forall|q: int| 0 <= q < k ==> (#[trigger] book[q]).0 != c,
        decreases codebook@.len() - k,
    {
        proof {
            assert(book[k as int] == (codebook@[k as int].0, codebook@[k as int].1@));
        }
        if codebook[k].0 == c {
            proof {
                lemma_book_lookup_at(book, k as int, c);
            }
            return Some(&codebook[k].1);
        }
        k = k + 1;
    }
    proof {
        assert(forall|q: int| 0 <= q < book.len() ==> (#[trigger] book[q]).0 != c);
    }
    None
}

/// Encode a message: count its symbol frequencies, build the Huffman tree,
/// derive the codebook, and concatenate each symbol's code in message order.
///
/// Returns `None` exactly for the empty message ("nothing to encode");
/// otherwise the codebook covers exactly the message's distinct symbols, its
/// codes are nonempty and mutually prefix-free, and decoding the returned
/// bits with the returned codebook yields the message again.
pub fn encode(message: &str) -> (r: Option<(Codebook, BitVec)>)
    requires
        message@.len() <= u32::MAX,
    ensures
        r is Some <==> message@.len() > 0,
        r matches Some(p) ==> codes_nonempty(book_view(p.0@)),
        r matches Some(p) ==> prefix_free(book_view(p.0@)),
        r matches Some(p) ==> forall|c: char|
            book_contains(book_view(p.0@), c) <==> occurrences(message@, c) > 0,
        r matches Some(p) ==> p.1@ == spec_encode(book_view(p.0@), message@),
        r matches Some(p) ==> spec_decode(book_view(p.0@), p.1@) == Some(message@),
{
    let ghost msg = message@;
    let chars = str_chars(message);
    let table = frequency(&chars);
    let ghost tab = table@;
    let tree_opt = huffman(table);
    match tree_opt {
        None => {
            proof {
                // An empty table means no symbol occurs: the message is empty.
                if msg.len() > 0 {
                    lemma_occurrences_contains(msg, msg[0]);
                    assert(occurrences(msg, msg[0]) > 0);
                    assert(table_contains(tab, msg[0]));
                }
            }
            None
        },
        Some(tree) => {
            proof {
                assert(table_contains(tab, tab[0].0));
                assert(occurrences(msg, tab[0].0) > 0);
                assert(msg.len() > 0) by {
                    lemma_occurrences_contains(msg, tab[0].0);
                }
            }
            let book = codebook(&tree);
            let ghost bv = book_view(book@);
            proof {
                lemma_book_of_shape(tree);
                lemma_prefix_free(tree);
                assert forall|c: char| book_contains(bv, c) <==> occurrences(msg, c) > 0 by {
                    lemma_book_contains_keys(bv, c);
                    assert(book_keys(bv) == tree.leaf_syms());
                }
            }
            let mut bits: Vec<bool> = Vec::new();
            let mut i: usize = 0;
            proof {
                assert(msg.take(0) =~= Seq::<char>::empty());
            }
            while i < chars.len()
                invariant
                    i <= msg.len(),
                    chars@ == msg,
                    bv == book_view(book@),
                    forall|c: char| book_contains(bv, c) <==> occurrences(msg, c) > 0,
                    bits@ == spec_encode(bv, msg.take(i as int)),
                decreases msg.len() - i,
            {
                let c = chars[i];
                proof {
                    lemma_occurrences_contains(msg, c);
                    assert(msg.contains(c));
                    assert(book_contains(bv, c));
                }
                // The codebook covers every symbol of the message, so the
                // lookup cannot miss.
                let code = book_get(&book, c).unwrap();
                let ghost bits0 = bits@;
                let mut q: usize = 0;
                while q < code.len()
                    invariant
                        q <= code@.len(),
                        bits@ == bits0 + code@.take(q as int),
                    decreases code@.len() - q,
                {
                    bits.push(code[q]);
                    proof {
                        assert(code@.take(q + 1) =~= code@.take(q as int).push(code@[q as int]));
                        assert(bits0 + code@.take(q as int).push(code@[q as int]) =~= (bits0
                            + code@.take(q as int)).push(code@[q as int]));
                    }
                    q = q + 1;
                }
                proof {
                    assert(code@.take(code@.len() as int) =~= code@);
                    lemma_spec_encode_push(bv, msg.take(i as int), c);
                    assert(msg.take(i + 1) =~= msg.take(i as int).push(msg[i as int]));
                }
                i = i + 1;
            }
            proof {
                assert(msg.take(msg.len() as int) =~= msg);
                assert forall|k: int| 0 <= k < msg.len() implies book_contains(
                    bv,
                    #[trigger] msg[k],
                ) by {
                    lemma_occurrences_contains(msg, msg[k]);
                }
                lemma_round_trip(bv, msg);
            }
            Some((book, bits))
        },
    }
}

} // verus!
