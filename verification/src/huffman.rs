use crate::bits::{bits_of_bytes, le_bytes_val, BitWriter};
use vstd::prelude::*;

verus! {

/// One node of a Huffman prefix-code tree: a leaf carrying a byte value, or
/// an internal node owning exactly two ordered children. Every node carries
/// the aggregate frequency of the leaves below it.
pub enum Node {
    Leaf { value: u8, frequency: u64 },
    Internal { frequency: u64, left: Box<Node>, right: Box<Node> },
}

/// The byte values at the leaves of a subtree.
pub open spec fn sym_set(n: Node) -> Set<u8>
    decreases n,
{
    match n {
        Node::Leaf { value, .. } => set![value],
        Node::Internal { left, right, .. } => sym_set(*left).union(sym_set(*right)),
    }
}

/// The aggregate frequency a node carries.
pub open spec fn node_freq(n: Node) -> int {
    match n {
        Node::Leaf { frequency, .. } => frequency as int,
        Node::Internal { frequency, .. } => frequency as int,
    }
}

/// Well-formedness of a subtree: the two children of every internal node
/// cover disjoint byte values, and its frequency is the sum of theirs.
pub open spec fn node_wf(n: Node) -> bool
    decreases n,
{
    match n {
        Node::Leaf { .. } => true,
        Node::Internal { frequency, left, right } => {
            &&& node_wf(*left)
            &&& node_wf(*right)
            &&& sym_set(*left).disjoint(sym_set(*right))
            &&& frequency == node_freq(*left) + node_freq(*right)
        },
    }
}

/// The path from a subtree's root to the leaf holding `b`: descending into
/// child 0 contributes a 0 bit, into child 1 a 1 bit.
pub open spec fn code_of(n: Node, b: u8) -> Seq<bool>
    recommends
        sym_set(n).contains(b),
    decreases n,
{
    match n {
        Node::Leaf { .. } => Seq::empty(),
        Node::Internal { left, right, .. } => {
            if sym_set(*left).contains(b) {
                seq![false] + code_of(*left, b)
            } else {
                seq![true] + code_of(*right, b)
            }
        },
    }
}

/// The code a whole tree assigns to `b`. A tree that is a single leaf gets
/// the one-bit code 0 rather than the empty path: with a zero-length code
/// the decoder could never tell how many repetitions of the one byte an
/// empty payload stands for.
pub open spec fn tree_code(root: Node, b: u8) -> Seq<bool> {
    match root {
        Node::Leaf { .. } => seq![false],
        Node::Internal { .. } => code_of(root, b),
    }
}

/// The bit stream a tree encodes a message into: each byte's code, in order.
pub open spec fn encoded_bits(root: Node, msg: Seq<u8>) -> Seq<bool>
    decreases msg.len(),
{
    if msg.len() == 0 {
        Seq::empty()
    } else {
        tree_code(root, msg[0]) + encoded_bits(root, msg.skip(1))
    }
}

/// Prepend one decoded byte to the result of decoding the rest.
pub open spec fn opt_prepend(v: u8, o: Option<Seq<u8>>) -> Option<Seq<u8>> {
    match o {
        Option::None => Option::None,
        Option::Some(s) => Option::Some(seq![v] + s),
    }
}

/// One step of the decoder per bit: from the current node, the bit selects
/// a child; reaching a leaf emits its byte and restarts at the root. Bits
/// that run out mid-descent are trailing padding and are ignored. At a
/// single-leaf root only the 0 bit is meaningful; a 1 bit is corruption.
pub open spec fn decode_walk(root: Node, cur: Node, bits: Seq<bool>) -> Option<Seq<u8>>
    decreases bits.len(),
{
    if bits.len() == 0 {
        Option::Some(Seq::empty())
    } else {
        match cur {
            Node::Leaf { value, .. } => {
                if bits[0] == false {
                    opt_prepend(value, decode_walk(root, root, bits.skip(1)))
                } else {
                    Option::None
                }
            },
            Node::Internal { left, right, .. } => {
                let child = if bits[0] {
                    *right
                } else {
                    *left
                };
                match child {
                    Node::Leaf { value, .. } => opt_prepend(
                        value,
                        decode_walk(root, root, bits.skip(1)),
                    ),
                    Node::Internal { .. } => decode_walk(root, child, bits.skip(1)),
                }
            },
        }
    }
}

/// How many times `b` occurs in `s`.
pub open spec fn count_in(s: Seq<u8>, b: u8) -> int
    decreases s.len(),
{
    if s.len() == 0 {
        0
    } else {
        count_in(s.drop_last(), b) + if s.last() == b {
            1int
        } else {
            0int
        }
    }
}

/// A count never exceeds the length counted over.
proof fn lemma_count_le(s: Seq<u8>, b: u8)
    ensures
        0 <= count_in(s, b) <= s.len(),
    decreases s.len(),
{
    if s.len() > 0 {
        lemma_count_le(s.drop_last(), b);
    }
}

/// The sum of a sequence of counters.
pub open spec fn sum_u64(s: Seq<u64>) -> int
    decreases s.len(),
{
    if s.len() == 0 {
        0
    } else {
        sum_u64(s.drop_last()) + s.last()
    }
}

/// Bumping one counter bumps the sum.
proof fn lemma_sum_update(s: Seq<u64>, j: int, v: u64)
    requires
        0 <= j < s.len(),
    ensures
        sum_u64(s.update(j, v)) == sum_u64(s) - s[j] + v,
    decreases s.len(),
{
    if j == s.len() - 1 {
        assert(s.update(j, v).drop_last() =~= s.drop_last());
    } else {
        assert(s.update(j, v).drop_last() =~= s.drop_last().update(j, v));
        assert(s.update(j, v).last() == s.last());
        lemma_sum_update(s.drop_last(), j, v);
    }
}

/// The sum of the aggregate frequencies of a forest of trees.
pub open spec fn forest_freq(s: Seq<Node>) -> int
    decreases s.len(),
{
    if s.len() == 0 {
        0
    } else {
        forest_freq(s.drop_last()) + node_freq(s.last())
    }
}

/// The byte values covered by a forest of trees.
pub open spec fn forest_syms(s: Seq<Node>) -> Set<u8>
    decreases s.len(),
{
    if s.len() == 0 {
        Set::empty()
    } else {
        forest_syms(s.drop_last()).union(sym_set(s.last()))
    }
}

/// Every leaf below `n` carries the number of occurrences, in `data`, of
/// the byte value it holds.
pub open spec fn leaf_freqs_match(n: Node, data: Seq<u8>) -> bool
    decreases n,
{
    match n {
        Node::Leaf { value, frequency } => frequency == count_in(data, value),
        Node::Internal { left, right, .. } => leaf_freqs_match(*left, data) && leaf_freqs_match(
            *right,
            data,
        ),
    }
}

/// A forest's frequency sum is nonnegative.
proof fn lemma_forest_freq_nonneg(s: Seq<Node>)
    ensures
        0 <= forest_freq(s),
    decreases s.len(),
{
    if s.len() > 0 {
        lemma_forest_freq_nonneg(s.drop_last());
    }
}

/// Taking one tree out of a forest takes exactly its frequency out of the
/// sum.
proof fn lemma_forest_freq_remove(s: Seq<Node>, j: int)
    requires
        0 <= j < s.len(),
    ensures
        forest_freq(s.remove(j)) == forest_freq(s) - node_freq(s[j]),
    decreases s.len(),
{
    if j == s.len() - 1 {
        assert(s.remove(j) =~= s.drop_last());
    } else {
        assert(s.remove(j).drop_last() =~= s.drop_last().remove(j));
        assert(s.remove(j).last() == s.last());
        lemma_forest_freq_remove(s.drop_last(), j);
    }
}

/// Taking one tree out of a forest takes exactly its byte values out of the
/// union.
proof fn lemma_forest_syms_remove(s: Seq<Node>, j: int)
    requires
        0 <= j < s.len(),
    ensures
        forest_syms(s) =~= forest_syms(s.remove(j)).union(sym_set(s[j])),
    decreases s.len(),
{
    if j == s.len() - 1 {
        assert(s.remove(j) =~= s.drop_last());
    } else {
        assert(s.remove(j).drop_last() =~= s.drop_last().remove(j));
        assert(s.remove(j).last() == s.last());
        lemma_forest_syms_remove(s.drop_last(), j);
    }
}

/// A forest's trees appended by one more.
proof fn lemma_forest_push(s: Seq<Node>, n: Node)
    ensures
        forest_freq(s.push(n)) == forest_freq(s) + node_freq(n),
        forest_syms(s.push(n)) =~= forest_syms(s).union(sym_set(n)),
{
    assert(s.push(n).drop_last() =~= s);
    assert(s.push(n).last() == n);
}

/// The aggregate frequency, read off a node.
fn node_frequency(n: &Node) -> (r: u64)
    ensures
        r as int == node_freq(*n),
{
    match n {
        Node::Leaf { frequency, .. } => *frequency,
        Node::Internal { frequency, .. } => *frequency,
    }
}

/// The position of a tree with the lowest aggregate frequency.
fn min_freq_index(forest: &Vec<Node>) -> (m: usize)
    requires
        forest@.len() >= 1,
    ensures
        m < forest@.len(),
        forall|j: int| 0 <= j < forest@.len() ==> node_freq(forest@[m as int]) <= node_freq(
            #[trigger] forest@[j],
        ),
{
    let mut m: usize = 0;
    let mut best: u64 = node_frequency(&forest[0]);
    let mut j: usize = 1;
    while j < forest.len()
        invariant
            forest@.len() >= 1,
            m < j,
            j <= forest@.len(),
            best as int == node_freq(forest@[m as int]),
            forall|k: int| 0 <= k < j ==> best as int <= node_freq(#[trigger] forest@[k]),
        decreases forest@.len() - j,
    {
        let f = node_frequency(&forest[j]);
        if f < best {
            m = j;
            best = f;
        }
        j = j + 1;
    }
    m
}

/// A fresh copy of a code under construction.
fn copy_bits(v: &Vec<bool>) -> (r: Vec<bool>)
    ensures
        r@ == v@,
{
    let mut r: Vec<bool> = Vec::new();
    let mut j: usize = 0;
    while j < v.len()
        invariant
            j <= v@.len(),
            r@ == v@.take(j as int),
        decreases v@.len() - j,
    {
        r.push(v[j]);
        proof {
            assert(v@.take(j + 1) =~= v@.take(j as int).push(v@[j as int]));
        }
        j = j + 1;
    }
    proof {
        assert(v@.take(v@.len() as int) =~= v@);
    }
    r
}

/// Record, for every leaf below `node`, the bit path that reaches it,
/// continuing from the accumulated `prefix`.
fn derive_codes(node: &Node, prefix: Vec<bool>, table: &mut Vec<Option<Vec<bool>>>)
    requires
        node_wf(*node),
        old(table)@.len() == 256,
    ensures
        final(table)@.len() == 256,
        forall|b: u8|
            sym_set(*node).contains(b) ==> ((#[trigger] final(table)@[b as int]) matches Some(c)
                && c@ == prefix@ + code_of(*node, b)),
        forall|b: u8|
            !sym_set(*node).contains(b) ==> #[trigger] final(table)@[b as int] == old(table)@[b as int],
    decreases *node,
{
    match node {
        Node::Leaf { value, .. } => {
            let ghost p = prefix@;
            table.set(*value as usize, Some(prefix));
            proof {
                assert(p + code_of(*node, *value) =~= p);
            }
        },
        Node::Internal { left, right, .. } => {
            let ghost pref = prefix@;
            let mut p0 = copy_bits(&prefix);
            p0.push(false);
            derive_codes(&*left, p0, table);
            let mut p1 = prefix;
            p1.push(true);
            derive_codes(&*right, p1, table);
            proof {
                assert forall|b: u8| sym_set(*node).contains(b) implies ((#[trigger] table@[b
                    as int]) matches Some(c) && c@ == pref + code_of(*node, b)) by {
                    if sym_set(**left).contains(b) {
                        assert(pref.push(false) + code_of(**left, b) =~= pref + (seq![false]
                            + code_of(**left, b)));
                    } else {
                        assert(pref.push(true) + code_of(**right, b) =~= pref + (seq![true]
                            + code_of(**right, b)));
                    }
                }
            }
        },
    }
}

/// Error of the Huffman codec.
#[derive(Clone, Copy, Debug, PartialEq, Eq, Structural)]
pub enum HuffmanError {
    /// A byte of the message has no entry in the code table.
    MissingCode,
    /// The encoded input does not follow the wire format.
    CorruptEncoding,
}

/// A Huffman prefix-code tree together with its derived code table and the
/// frequency table it was built from. Built once from a sample of bytes and
/// read-only afterwards; it can encode exactly the byte values that occur in
/// that sample.
pub struct HuffmanTree {
    root: Option<Node>,
    encodings: Vec<Option<Vec<bool>>>,
    frequencies: Vec<(u8, u64)>,
}

impl HuffmanTree {
    /// The byte values the tree can encode.
    pub closed spec fn symbols(&self) -> Set<u8> {
        match self.root {
            Option::None => Set::empty(),
            Option::Some(r) => sym_set(r),
        }
    }

    /// The code the tree assigns to a byte.
    pub closed spec fn spec_code(&self, b: u8) -> Seq<bool> {
        match self.root {
            Option::None => Seq::empty(),
            Option::Some(r) => tree_code(r, b),
        }
    }

    /// The bit stream the tree encodes a message into.
    pub closed spec fn spec_encoded_bits(&self, msg: Seq<u8>) -> Seq<bool> {
        match self.root {
            Option::None => Seq::empty(),
            Option::Some(r) => encoded_bits(r, msg),
        }
    }

    /// What a bit stream decodes to under this tree; `None` on corruption.
    pub closed spec fn spec_decode_bits(&self, bits: Seq<bool>) -> Option<Seq<u8>> {
        match self.root {
            Option::None => if bits.len() == 0 {
                Option::Some(Seq::empty())
            } else {
                Option::None
            },
            Option::Some(r) => decode_walk(r, r, bits),
        }
    }

    /// The frequency table: (byte, count) pairs in ascending byte order, one
    /// for each byte value that occurred.
    pub closed spec fn spec_frequencies(&self) -> Seq<(u8, u64)> {
        self.frequencies@
    }

    /// The aggregate frequency at the root: the number of bytes counted.
    pub closed spec fn spec_total_freq(&self) -> int {
        match self.root {
            Option::None => 0,
            Option::Some(r) => node_freq(r),
        }
    }

    /// Every leaf of the tree carries the count, in `data`, of its byte.
    pub closed spec fn spec_leaf_freqs_match(&self, data: Seq<u8>) -> bool {
        match self.root {
            Option::None => true,
            Option::Some(r) => leaf_freqs_match(r, data),
        }
    }

    pub closed spec fn wf(&self) -> bool {
        &&& match self.root {
            Option::None => true,
            Option::Some(r) => node_wf(r),
        }
        &&& self.encodings@.len() == 256
        &&& forall|b: u8|
            self.symbols().contains(b) <==> (#[trigger] self.encodings@[b as int]) is Some
        &&& forall|b: u8|
            self.symbols().contains(b) ==> ((#[trigger] self.encodings@[b as int]) matches Some(c)
                && c@ == self.spec_code(b))
    }

    /// The frequency table, for introspection.
    pub fn frequencies(&self) -> (r: &Vec<(u8, u64)>)
        ensures
            r@ == self.spec_frequencies(),
    {
        &self.frequencies
    }

    /// Build a tree from a sample of bytes: count every byte value, then
    /// repeatedly merge the two lowest-frequency trees until one remains,
    /// the earlier-removed tree becoming child 0. Ties are broken
    /// arbitrarily: the result is a valid prefix tree, not a canonical one.
    pub fn new(data: &Vec<u8>) -> (t: HuffmanTree)
        ensures
            t.wf(),
            t.spec_total_freq() == data@.len(),
            t.spec_leaf_freqs_match(data@),
            forall|b: u8| t.symbols().contains(b) <==> count_in(data@, b) >= 1,
            forall|j: int, k: int|
                0 <= j < k < t.spec_frequencies().len() ==> t.spec_frequencies()[j].0
                    < t.spec_frequencies()[k].0,
            forall|j: int|
                0 <= j < t.spec_frequencies().len() ==> (#[trigger] t.spec_frequencies()[j]).1
                    == count_in(data@, t.spec_frequencies()[j].0),
            forall|b: u8|
                count_in(data@, b) >= 1 ==> exists|j: int|
                    0 <= j < t.spec_frequencies().len() && (#[trigger] t.spec_frequencies()[j]).0
                        == b,
    {
        let dlen = data.len();

        // Count every byte value.
        let mut counts: Vec<u64> = Vec::new();
        while counts.len() < 256
            invariant
                counts@.len() <= 256,
                forall|j: int| 0 <= j < counts@.len() ==> counts@[j] == 0,
                sum_u64(counts@) == 0,
            decreases 256 - counts@.len(),
        {
            let ghost pre = counts@;
            counts.push(0);
            proof {
                assert(counts@.drop_last() =~= pre);
            }
        }
        proof {
            assert forall|b: u8| counts@[b as int] == count_in(data@.take(0), b) by {
                assert(data@.take(0) =~= Seq::<u8>::empty());
            }
        }
        let mut idx: usize = 0;
        while idx < dlen
            invariant
                counts@.len() == 256,
                dlen == data@.len(),
                idx <= dlen,
                forall|b: u8| #![trigger counts@[b as int]]
                    counts@[b as int] == count_in(data@.take(idx as int), b),
                sum_u64(counts@) == idx,
            decreases dlen - idx,
        {
            let b = data[idx];
            let c = counts[b as usize];
            proof {
                lemma_count_le(data@.take(idx as int), b);
            }
            let ghost pre = counts@;
            counts.set(b as usize, c + 1);
            proof {
                lemma_sum_update(pre, b as int, (c + 1) as u64);
                assert(data@.take(idx + 1).drop_last() =~= data@.take(idx as int));
                assert(data@.take(idx + 1).last() == data@[idx as int]);
                assert forall|b2: u8| #![trigger counts@[b2 as int]]
                    counts@[b2 as int] == count_in(data@.take(idx + 1), b2) by {
                    assert(count_in(data@.take(idx + 1), b2) == count_in(data@.take(idx as int), b2)
                        + if data@[idx as int] == b2 {
                        1int
                    } else {
                        0int
                    });
                }
            }
            idx = idx + 1;
        }
        proof {
            assert(data@.take(dlen as int) =~= data@);
        }

        // One leaf per occurring byte value, and the frequency table,
        // in ascending byte order.
        let ghost occurring = Set::new(|b: u8| count_in(data@, b) >= 1);
        let mut freqs: Vec<(u8, u64)> = Vec::new();
        let mut forest: Vec<Node> = Vec::new();
        let mut v: usize = 0;
        while v < 256
            invariant
                counts@.len() == 256,
                dlen == data@.len(),
                forall|b: u8| #![trigger counts@[b as int]]
                    counts@[b as int] == count_in(data@, b),
                sum_u64(counts@) == dlen,
                v <= 256,
                freqs@.len() == forest@.len(),
                forall|j: int|
                    0 <= j < freqs@.len() ==> ((#[trigger] freqs@[j]).0 as int) < v && freqs@[j].1
                        == count_in(data@, freqs@[j].0) && freqs@[j].1 >= 1,
                forall|j: int, k: int| 0 <= j < k < freqs@.len() ==> freqs@[j].0 < freqs@[k].0,
                forall|b: u8|
                    (b as int) < v && count_in(data@, b) >= 1 ==> exists|j: int|
                        0 <= j < freqs@.len() && (#[trigger] freqs@[j]).0 == b,
                forall|j: int|
                    0 <= j < forest@.len() ==> #[trigger] forest@[j] == (Node::Leaf {
                        value: freqs@[j].0,
                        frequency: freqs@[j].1,
                    }),
                forall|j: int|
                    0 <= j < forest@.len() ==> leaf_freqs_match(#[trigger] forest@[j], data@),
                forest_freq(forest@) == sum_u64(counts@.take(v as int)),
                forest_syms(forest@) =~= Set::new(
                    |b: u8| (b as int) < v && count_in(data@, b) >= 1,
                ),
            decreases 256 - v,
        {
            let c = counts[v];
            let ghost fpre = forest@;
            let ghost qpre = freqs@;
            if c > 0 {
                freqs.push((v as u8, c));
                forest.push(Node::Leaf { value: v as u8, frequency: c });
                proof {
                    lemma_forest_push(fpre, Node::Leaf { value: v as u8, frequency: c });
                }
            }
            proof {
                assert(counts@.take(v + 1).drop_last() =~= counts@.take(v as int));
                assert(counts@.take(v + 1).last() == counts@[v as int]);
                assert(forest_syms(forest@) =~= Set::new(
                    |b: u8| (b as int) < v + 1 && count_in(data@, b) >= 1,
                ));
                assert forall|b: u8| (b as int) < v + 1 && count_in(data@, b) >= 1 implies exists|
                    j: int,
                |
                    0 <= j < freqs@.len() && (#[trigger] freqs@[j]).0 == b by {
                    if (b as int) == v {
                        assert(freqs@[freqs@.len() - 1].0 == b);
                    } else {
                        let j = choose|j: int|
                            0 <= j < qpre.len() && (#[trigger] qpre[j]).0 == b;
                        assert(freqs@[j].0 == b);
                    }
                }
            }
            v = v + 1;
        }
        proof {
            assert(counts@.take(256) =~= counts@);
        }

        // Merge the two lowest-frequency trees until one remains.
        let ghost total = dlen as int;
        while forest.len() > 1
            invariant
                dlen == data@.len(),
                total == dlen as int,
                forall|j: int| 0 <= j < forest@.len() ==> node_wf(#[trigger] forest@[j]),
                forall|j: int| 0 <= j < forest@.len() ==> leaf_freqs_match(#[trigger] forest@[j], data@),
                forall|j: int, k: int|
                    0 <= j < forest@.len() && 0 <= k < forest@.len() && j != k ==> sym_set(
                        #[trigger] forest@[j],
                    ).disjoint(sym_set(#[trigger] forest@[k])),
                forest_freq(forest@) == total,
                forest_syms(forest@) =~= occurring,
            decreases forest@.len(),
        {
            let ghost s0 = forest@;
            let m1 = min_freq_index(&forest);
            let n1 = forest.remove(m1);
            let ghost s1 = forest@;
            let m2 = min_freq_index(&forest);
            let n2 = forest.remove(m2);
            let ghost s2 = forest@;
            proof {
                lemma_forest_freq_remove(s0, m1 as int);
                lemma_forest_syms_remove(s0, m1 as int);
                lemma_forest_freq_remove(s1, m2 as int);
                lemma_forest_syms_remove(s1, m2 as int);
                lemma_forest_freq_nonneg(s2);
                s0.remove_ensures(m1 as int);
                s1.remove_ensures(m2 as int);
                let i2 = if m2 < m1 {
                    m2 as int
                } else {
                    m2 as int + 1
                };
                assert(s1[m2 as int] == s0[i2]);
                assert(sym_set(n1).disjoint(sym_set(n2)));
                assert(node_freq(n1) + node_freq(n2) <= total);
            }
            let f1 = node_frequency(&n1);
            let f2 = node_frequency(&n2);
            let ghost gn1 = n1;
            let ghost gn2 = n2;
            let merged = Node::Internal { frequency: f1 + f2, left: Box::new(n1), right: Box::new(
                n2,
            ) };
            forest.push(merged);
            proof {
                lemma_forest_push(s2, merged);
                assert(forest_syms(forest@) =~= occurring);
                assert forall|j: int, k: int|
                    0 <= j < forest@.len() && 0 <= k < forest@.len() && j != k implies sym_set(
                    #[trigger] forest@[j],
                ).disjoint(sym_set(#[trigger] forest@[k])) by {
                    lemma_merge_pairwise(s0, s1, s2, m1 as int, m2 as int, gn1, gn2, merged, j, k);
                }
            }
        }

        let ghost fpre = forest@;
        let root = forest.pop();
        proof {
            if fpre.len() == 1 {
                match &root {
                    Option::Some(r) => {
                        assert(fpre.last() == *r);
                        assert(fpre.drop_last() =~= Seq::<Node>::empty());
                        assert(forest_syms(fpre) == forest_syms(fpre.drop_last()).union(
                            sym_set(fpre.last()),
                        ));
                        assert(forest_syms(Seq::<Node>::empty()) == Set::<u8>::empty());
                        assert(Set::<u8>::empty().union(sym_set(*r)) =~= sym_set(*r));
                        assert(sym_set(*r) =~= occurring);
                        assert(node_wf(fpre[0]));
                        assert(forest_freq(fpre) == forest_freq(fpre.drop_last()) + node_freq(
                            fpre.last(),
                        ));
                        assert(forest_freq(Seq::<Node>::empty()) == 0);
                    },
                    Option::None => {
                        assert(false);
                    },
                }
            } else {
                assert(fpre.len() == 0);
                assert(occurring =~= Set::<u8>::empty());
            }
        }

        // Derive the code table from the tree.
        let mut table: Vec<Option<Vec<bool>>> = Vec::new();
        while table.len() < 256
            invariant
                table@.len() <= 256,
                forall|j: int| 0 <= j < table@.len() ==> (#[trigger] table@[j]) is None,
            decreases 256 - table@.len(),
        {
            table.push(None);
        }
        match &root {
            Option::None => {},
            Option::Some(r) => {
                match r {
                    Node::Leaf { value, .. } => {
                        let mut code: Vec<bool> = Vec::new();
                        code.push(false);
                        proof {
                            assert(code@ =~= seq![false]);
                        }
                        table.set(*value as usize, Some(code));
                    },
                    Node::Internal { .. } => {
                        derive_codes(r, Vec::new(), &mut table);
                        proof {
                            assert forall|b: u8| sym_set(*r).contains(b) implies ((
                            #[trigger] table@[b as int]) matches Some(c) && c@ == tree_code(
                                *r,
                                b,
                            )) by {
                                assert(Seq::<bool>::empty() + code_of(*r, b) =~= code_of(*r, b));
                            }
                        }
                    },
                }
            },
        }

        let t = HuffmanTree { root, encodings: table, frequencies: freqs };
        proof {
            assert(t.spec_frequencies() == freqs@);
            assert forall|b: u8| count_in(data@, b) >= 1 implies exists|j: int|
                0 <= j < t.spec_frequencies().len() && (#[trigger] t.spec_frequencies()[j]).0
                    == b by {
                let j = choose|j: int| 0 <= j < freqs@.len() && (#[trigger] freqs@[j]).0 == b;
                assert(t.spec_frequencies()[j].0 == b);
            }
        }
        t
    }
}

/// After one merge step, the trees of the forest still cover pairwise
/// disjoint byte values.
proof fn lemma_merge_pairwise(
    s0: Seq<Node>,
    s1: Seq<Node>,
    s2: Seq<Node>,
    m1: int,
    m2: int,
    n1: Node,
    n2: Node,
    merged: Node,
    j: int,
    k: int,
)
    requires
        forall|a: int, b: int|
            0 <= a < s0.len() && 0 <= b < s0.len() && a != b ==> sym_set(#[trigger] s0[a]).disjoint(
                sym_set(#[trigger] s0[b]),
            ),
        0 <= m1 < s0.len(),
        s1 == s0.remove(m1),
        n1 == s0[m1],
        0 <= m2 < s1.len(),
        s2 == s1.remove(m2),
        n2 == s1[m2],
        sym_set(merged) == sym_set(n1).union(sym_set(n2)),
        0 <= j < s2.len() + 1,
        0 <= k < s2.len() + 1,
        j != k,
    ensures
        sym_set(s2.push(merged)[j]).disjoint(sym_set(s2.push(merged)[k])),
{
    s0.remove_ensures(m1);
    s1.remove_ensures(m2);
    let i2 = if m2 < m1 {
        m2
    } else {
        m2 + 1
    };
    assert(n2 == s0[i2]);
    assert forall|a: int| 0 <= a < s2.len() implies {
        &&& 0 <= #[trigger] orig_index(m1, m2, a) < s0.len()
        &&& orig_index(m1, m2, a) != m1
        &&& orig_index(m1, m2, a) != i2
        &&& s2[a] == s0[orig_index(m1, m2, a)]
    } by {
        let b1 = if a < m2 {
            a
        } else {
            a + 1
        };
        assert(s2[a] == s1[b1]);
        assert(s1[b1] == s0[orig_index(m1, m2, a)]);
    }
    let t = s2.push(merged);
    if j < s2.len() && k < s2.len() {
        let bj = orig_index(m1, m2, j);
        let bk = orig_index(m1, m2, k);
        assert(bj != bk);
        assert(sym_set(s0[bj]).disjoint(sym_set(s0[bk])));
    } else if j < s2.len() {
        let bj = orig_index(m1, m2, j);
        assert(sym_set(s0[bj]).disjoint(sym_set(s0[m1])));
        assert(sym_set(s0[bj]).disjoint(sym_set(s0[i2])));
        assert(t[k] == merged);
        assert forall|x: u8| sym_set(t[j]).contains(x) implies !sym_set(t[k]).contains(x) by {}
    } else {
        let bk = orig_index(m1, m2, k);
        assert(sym_set(s0[m1]).disjoint(sym_set(s0[bk])));
        assert(sym_set(s0[i2]).disjoint(sym_set(s0[bk])));
        assert(t[j] == merged);
        assert forall|x: u8| sym_set(t[j]).contains(x) implies !sym_set(t[k]).contains(x) by {
            assert(!sym_set(s0[m1]).contains(x) || !sym_set(s0[bk]).contains(x));
        }
    }
}

/// The index in the forest before two removals that an index after them
/// refers to.
spec fn orig_index(m1: int, m2: int, a: int) -> int {
    let b1 = if a < m2 {
        a
    } else {
        a + 1
    };
    if b1 < m1 {
        b1
    } else {
        b1 + 1
    }
}

/// The bits of a message split at any point into the bits of its parts.
pub proof fn lemma_encoded_bits_add(root: Node, a: Seq<u8>, b: Seq<u8>)
    ensures
        encoded_bits(root, a + b) == encoded_bits(root, a) + encoded_bits(root, b),
    decreases a.len(),
{
    if a.len() == 0 {
        assert(a + b =~= b);
        assert(Seq::<bool>::empty() + encoded_bits(root, b) =~= encoded_bits(root, b));
    } else {
        assert((a + b).skip(1) =~= a.skip(1) + b);
        assert((a + b)[0] == a[0]);
        lemma_encoded_bits_add(root, a.skip(1), b);
        assert(tree_code(root, a[0]) + (encoded_bits(root, a.skip(1)) + encoded_bits(root, b))
            =~= (tree_code(root, a[0]) + encoded_bits(root, a.skip(1))) + encoded_bits(root, b));
    }
}

impl HuffmanTree {
    /// One more byte of message appends exactly its code.
    proof fn lemma_encoded_step(&self, msg: Seq<u8>, i: int)
        requires
            0 <= i < msg.len(),
        ensures
            self.spec_encoded_bits(msg.take(i + 1)) == self.spec_encoded_bits(msg.take(i))
                + self.spec_code(msg[i]),
    {
        match self.root {
            Option::None => {
                assert(Seq::<bool>::empty() + Seq::<bool>::empty() =~= Seq::<bool>::empty());
            },
            Option::Some(r) => {
                assert(msg.take(i + 1) =~= msg.take(i) + seq![msg[i]]);
                lemma_encoded_bits_add(r, msg.take(i), seq![msg[i]]);
                assert(seq![msg[i]].skip(1) =~= Seq::<u8>::empty());
                assert(encoded_bits(r, Seq::<u8>::empty()) =~= Seq::<bool>::empty());
                assert(encoded_bits(r, seq![msg[i]]) == tree_code(r, msg[i]) + encoded_bits(
                    r,
                    seq![msg[i]].skip(1),
                ));
                assert(encoded_bits(r, seq![msg[i]]) =~= tree_code(r, msg[i]));
            },
        }
    }

    /// Every prefix of a message encodes to no more bits than the whole.
    proof fn lemma_encoded_prefix_le(&self, msg: Seq<u8>, i: int)
        requires
            0 <= i <= msg.len(),
        ensures
            self.spec_encoded_bits(msg.take(i)).len() <= self.spec_encoded_bits(msg).len(),
    {
        match self.root {
            Option::None => {},
            Option::Some(r) => {
                assert(msg =~= msg.take(i) + msg.skip(i));
                lemma_encoded_bits_add(r, msg.take(i), msg.skip(i));
            },
        }
    }

    /// Encode a message against the code table: each byte's code in order,
    /// packed least-significant-bit first, behind an eight-byte little-endian
    /// header holding the total number of payload bits. Fails exactly when a
    /// byte of the message never occurred in the sample the tree was built
    /// from; the trailing bits of the last payload byte are padding. The
    /// caller keeps the bit count within the header's width, which
    /// `lemma_encoded_bits_len_le` bounds by 256 bits per message byte.
    pub fn encode(&self, message: &Vec<u8>) -> (r: Result<Vec<u8>, HuffmanError>)
        requires
            self.wf(),
            self.spec_encoded_bits(message@).len() <= u64::MAX,
        ensures
            match r {
                Ok(v) => {
                    &&& forall|k: int|
                        0 <= k < message@.len() ==> self.symbols().contains(#[trigger] message@[k])
                    &&& v@.len() == 8 + (self.spec_encoded_bits(message@).len() + 7) / 8
                    &&& le_bytes_val(v@.take(8)) == self.spec_encoded_bits(message@).len()
                    &&& bits_of_bytes(v@.skip(8)).take(
                        self.spec_encoded_bits(message@).len() as int,
                    ) == self.spec_encoded_bits(message@)
                },
                Err(e) => {
                    &&& e == HuffmanError::MissingCode
                    &&& exists|k: int|
                        0 <= k < message@.len() && !self.symbols().contains(
                            #[trigger] message@[k],
                        )
                },
            },
    {
        let mut writer = BitWriter::new();
        let mut num_bits: u64 = 0;
        let n = message.len();
        let mut i: usize = 0;
        proof {
            assert(message@.take(0) =~= Seq::<u8>::empty());
        }
        while i < n
            invariant
                self.wf(),
                self.spec_encoded_bits(message@).len() <= u64::MAX,
                n == message@.len(),
                i <= n,
                writer.wf(),
                writer.bits() == self.spec_encoded_bits(message@.take(i as int)),
                num_bits == writer.bits().len(),
                forall|k: int| 0 <= k < i ==> self.symbols().contains(#[trigger] message@[k]),
            decreases n - i,
        {
            let b = message[i];
            match &self.encodings[b as usize] {
                Option::None => {
                    proof {
                        assert(!self.symbols().contains(message@[i as int]));
                    }
                    return Err(HuffmanError::MissingCode);
                },
                Option::Some(code) => {
                    proof {
                        self.lemma_encoded_step(message@, i as int);
                        self.lemma_encoded_prefix_le(message@, i as int + 1);
                    }
                    writer.push_code(code);
                    num_bits = num_bits + code.len() as u64;
                    i = i + 1;
                },
            }
        }
        proof {
            assert(message@.take(n as int) =~= message@);
        }

        // Eight little-endian header bytes holding the bit count.
        let mut out: Vec<u8> = Vec::new();
        let h0 = num_bits;
        out.push((h0 % 256) as u8);
        let h1 = h0 / 256;
        out.push((h1 % 256) as u8);
        let h2 = h1 / 256;
        out.push((h2 % 256) as u8);
        let h3 = h2 / 256;
        out.push((h3 % 256) as u8);
        let h4 = h3 / 256;
        out.push((h4 % 256) as u8);
        let h5 = h4 / 256;
        out.push((h5 % 256) as u8);
        let h6 = h5 / 256;
        out.push((h6 % 256) as u8);
        let h7 = h6 / 256;
        out.push((h7 % 256) as u8);
        let ghost hdr = out@;
        proof {
            crate::bits::lemma_header_digits(
                hdr,
                h0 as int,
                h1 as int,
                h2 as int,
                h3 as int,
                h4 as int,
                h5 as int,
                h6 as int,
                h7 as int,
            );
        }
        let mut payload = writer.finish();
        let ghost pay = payload@;
        out.append(&mut payload);
        proof {
            assert(out@.take(8) =~= hdr);
            assert(out@.skip(8) =~= pay);
        }
        Ok(out)
    }
}

/// Append already-decoded output in front of the result of decoding the
/// rest.
pub open spec fn opt_append(pre: Seq<u8>, o: Option<Seq<u8>>) -> Option<Seq<u8>> {
    match o {
        Option::None => Option::None,
        Option::Some(s) => Option::Some(pre + s),
    }
}

/// Emitting one byte and carrying on equals carrying the byte through.
proof fn lemma_opt_append_prepend(pre: Seq<u8>, v: u8, o: Option<Seq<u8>>)
    ensures
        opt_append(pre, opt_prepend(v, o)) == opt_append(pre.push(v), o),
{
    match o {
        Option::None => {},
        Option::Some(s) => {
            assert(pre + (seq![v] + s) =~= pre.push(v) + s);
        },
    }
}

impl HuffmanTree {
    /// What a whole encoded file decodes to under this tree: an eight-byte
    /// little-endian bit count, then that many payload bits; `None` when the
    /// header is short, claims more bits than the payload holds, or the bits
    /// do not follow the tree.
    pub closed spec fn spec_decoded(&self, file: Seq<u8>) -> Option<Seq<u8>> {
        if file.len() < 8 {
            Option::None
        } else {
            let nb = le_bytes_val(file.take(8));
            if nb > 8 * (file.len() - 8) {
                Option::None
            } else {
                self.spec_decode_bits(bits_of_bytes(file.skip(8)).take(nb))
            }
        }
    }

    /// Decode an encoded file against the tree: read the bit-count header,
    /// then walk the tree bit by bit, emitting a byte at each leaf. Fails
    /// exactly on corrupt input: a short header, a bit count past the end of
    /// the payload, or a bit sequence with no corresponding tree edge.
    pub fn decode(&self, encoded: &Vec<u8>) -> (r: Result<Vec<u8>, HuffmanError>)
        requires
            self.wf(),
        ensures
            match r {
                Ok(o) => self.spec_decoded(encoded@) == Some(o@),
                Err(e) => e == HuffmanError::CorruptEncoding && self.spec_decoded(encoded@)
                    is None,
            },
    {
        if encoded.len() < 8 {
            return Err(HuffmanError::CorruptEncoding);
        }
        let num_bits: u64 = (encoded[0] as u64) + 256 * ((encoded[1] as u64) + 256 * ((encoded[2]
            as u64) + 256 * ((encoded[3] as u64) + 256 * ((encoded[4] as u64) + 256 * ((encoded[5]
            as u64) + 256 * ((encoded[6] as u64) + 256 * (encoded[7] as u64)))))));
        proof {
            let s = encoded@.take(8);
            assert(s.skip(1).skip(1) =~= s.skip(2));
            assert(s.skip(2).skip(1) =~= s.skip(3));
            assert(s.skip(3).skip(1) =~= s.skip(4));
            assert(s.skip(4).skip(1) =~= s.skip(5));
            assert(s.skip(5).skip(1) =~= s.skip(6));
            assert(s.skip(6).skip(1) =~= s.skip(7));
            assert(s.skip(7).skip(1) =~= Seq::<u8>::empty());
            assert(le_bytes_val(Seq::<u8>::empty()) == 0);
            assert(s.skip(1)[0] == s[1]);
            assert(s.skip(2)[0] == s[2]);
            assert(s.skip(3)[0] == s[3]);
            assert(s.skip(4)[0] == s[4]);
            assert(s.skip(5)[0] == s[5]);
            assert(s.skip(6)[0] == s[6]);
            assert(s.skip(7)[0] == s[7]);
            assert(le_bytes_val(s.skip(7)) == s[7]);
            assert(le_bytes_val(s.skip(6)) == s[6] + 256 * le_bytes_val(s.skip(7)));
            assert(le_bytes_val(s.skip(5)) == s[5] + 256 * le_bytes_val(s.skip(6)));
            assert(le_bytes_val(s.skip(4)) == s[4] + 256 * le_bytes_val(s.skip(5)));
            assert(le_bytes_val(s.skip(3)) == s[3] + 256 * le_bytes_val(s.skip(4)));
            assert(le_bytes_val(s.skip(2)) == s[2] + 256 * le_bytes_val(s.skip(3)));
            assert(le_bytes_val(s.skip(1)) == s[1] + 256 * le_bytes_val(s.skip(2)));
            assert(s.skip(0) =~= s);
            assert(le_bytes_val(s) == s[0] + 256 * le_bytes_val(s.skip(1)));
            assert(num_bits == le_bytes_val(s));
        }
        let enc_len = encoded.len();
        let avail = enc_len - 8;
        proof {
            vstd::arithmetic::div_mod::lemma_fundamental_div_mod(num_bits as int, 8);
            vstd::arithmetic::div_mod::lemma_mod_division_less_than_divisor(num_bits as int, 8);
        }
        if num_bits / 8 > avail as u64 || (num_bits / 8 == avail as u64 && num_bits % 8 > 0) {
            return Err(HuffmanError::CorruptEncoding);
        }
        assert(num_bits <= 8 * avail);
        let ghost bs = bits_of_bytes(encoded@.skip(8)).take(num_bits as int);
        proof {
            assert(bs.len() == num_bits);
        }
        match &self.root {
            Option::None => {
                if num_bits == 0 {
                    let out: Vec<u8> = Vec::new();
                    proof {
                        assert(out@ =~= Seq::<u8>::empty());
                    }
                    Ok(out)
                } else {
                    Err(HuffmanError::CorruptEncoding)
                }
            },
            Option::Some(root_node) => {
                let mut out: Vec<u8> = Vec::new();
                let mut cur: &Node = root_node;
                let mut i: u64 = 0;
                proof {
                    assert(bs.skip(0) =~= bs);
                }
                while i < num_bits
                    invariant
                        self.wf(),
                        self.root == Option::Some(*root_node),
                        i <= num_bits,
                        enc_len == encoded@.len(),
                        enc_len >= 8,
                        avail == enc_len - 8,
                        num_bits <= 8 * avail,
                        num_bits == le_bytes_val(encoded@.take(8)),
                        bs == bits_of_bytes(encoded@.skip(8)).take(num_bits as int),
                        bs.len() == num_bits,
                        decode_walk(*root_node, *root_node, bs) == opt_append(
                            out@,
                            decode_walk(*root_node, *cur, bs.skip(i as int)),
                        ),
                    decreases num_bits - i,
                {
                    proof {
                        vstd::arithmetic::div_mod::lemma_multiply_divide_lt(
                            i as int,
                            8,
                            avail as int,
                        );
                        vstd::arithmetic::div_mod::lemma_mod_division_less_than_divisor(
                            i as int,
                            8,
                        );
                    }
                    let byte_idx = 8 + (i / 8) as usize;
                    let byte = encoded[byte_idx];
                    let bit_pos = (i % 8) as u8;
                    let bit = (byte >> bit_pos) & 1 == 1;
                    proof {
                        assert(encoded@.skip(8)[(i as int) / 8] == encoded@[8 + (i as int) / 8]);
                        assert(bs[i as int] == crate::bits::bit_of(
                            encoded@.skip(8)[(i as int) / 8],
                            ((i as int) % 8) as u8,
                        ));
                        assert(bs[i as int] == bit);
                        assert(bs.skip(i as int)[0] == bs[i as int]);
                        assert(bs.skip(i as int).skip(1) =~= bs.skip(i as int + 1));
                    }
                    let ghost out_pre = out@;
                    let ghost rest = bs.skip(i as int + 1);
                    match cur {
                        Node::Leaf { value, .. } => {
                            if !bit {
                                out.push(*value);
                                proof {
                                    lemma_opt_append_prepend(
                                        out_pre,
                                        *value,
                                        decode_walk(*root_node, *root_node, rest),
                                    );
                                }
                                cur = root_node;
                            } else {
                                return Err(HuffmanError::CorruptEncoding);
                            }
                        },
                        Node::Internal { left, right, .. } => {
                            let child: &Node = if bit {
                                &*right
                            } else {
                                &*left
                            };
                            match child {
                                Node::Leaf { value, .. } => {
                                    out.push(*value);
                                    proof {
                                        lemma_opt_append_prepend(
                                            out_pre,
                                            *value,
                                            decode_walk(*root_node, *root_node, rest),
                                        );
                                    }
                                    cur = root_node;
                                },
                                Node::Internal { .. } => {
                                    cur = child;
                                },
                            }
                        },
                    }
                    i = i + 1;
                }
                proof {
                    assert(bs.skip(num_bits as int) =~= Seq::<bool>::empty());
                    assert(decode_walk(*root_node, *cur, Seq::<bool>::empty()) == Option::Some(
                        Seq::<u8>::empty(),
                    ));
                    assert(out@ + Seq::<u8>::empty() =~= out@);
                }
                Ok(out)
            },
        }
    }
}

/// Walking the decoder along a symbol's code lands exactly at that symbol's
/// leaf, emits it, and leaves the remaining bits to decode from the root.
proof fn lemma_walk_code(root: Node, sub: Node, b: u8, rest: Seq<bool>)
    requires
        node_wf(sub),
        sym_set(sub).contains(b),
        sub is Internal,
    ensures
        decode_walk(root, sub, code_of(sub, b) + rest) == opt_prepend(
            b,
            decode_walk(root, root, rest),
        ),
    decreases sub,
{
    match sub {
        Node::Leaf { .. } => {},
        Node::Internal { left, right, .. } => {
            let in_left = sym_set(*left).contains(b);
            let c = if in_left {
                code_of(*left, b)
            } else {
                code_of(*right, b)
            };
            let bit0 = !in_left;
            let bits = code_of(sub, b) + rest;
            assert(bits[0] == bit0);
            assert(bits.skip(1) =~= c + rest);
            if in_left {
                match *left {
                    Node::Leaf { value, .. } => {
                        assert(value == b);
                        assert(c =~= Seq::<bool>::empty());
                        assert(bits.skip(1) =~= rest);
                    },
                    Node::Internal { .. } => {
                        lemma_walk_code(root, *left, b, rest);
                    },
                }
            } else {
                assert(sym_set(*right).contains(b));
                match *right {
                    Node::Leaf { value, .. } => {
                        assert(value == b);
                        assert(c =~= Seq::<bool>::empty());
                        assert(bits.skip(1) =~= rest);
                    },
                    Node::Internal { .. } => {
                        lemma_walk_code(root, *right, b, rest);
                    },
                }
            }
        },
    }
}

/// Decoding the concatenated codes of a message recovers the message.
proof fn lemma_decode_encoded(root: Node, msg: Seq<u8>)
    requires
        node_wf(root),
        forall|k: int| 0 <= k < msg.len() ==> sym_set(root).contains(#[trigger] msg[k]),
    ensures
        decode_walk(root, root, encoded_bits(root, msg)) == Some(msg),
    decreases msg.len(),
{
    if msg.len() == 0 {
        assert(encoded_bits(root, msg) == Seq::<bool>::empty());
        assert(msg =~= Seq::<u8>::empty());
    } else {
        let b = msg[0];
        let rest_bits = encoded_bits(root, msg.skip(1));
        assert forall|k: int| 0 <= k < msg.skip(1).len() implies sym_set(root).contains(
            #[trigger] msg.skip(1)[k],
        ) by {
            assert(msg.skip(1)[k] == msg[k + 1]);
        }
        lemma_decode_encoded(root, msg.skip(1));
        match root {
            Node::Leaf { value, .. } => {
                assert(value == b);
                let bits = seq![false] + rest_bits;
                assert(encoded_bits(root, msg) == tree_code(root, b) + rest_bits);
                assert(tree_code(root, b) + rest_bits =~= bits);
                assert(bits[0] == false);
                assert(bits.skip(1) =~= rest_bits);
                assert(seq![b] + msg.skip(1) =~= msg);
            },
            Node::Internal { .. } => {
                lemma_walk_code(root, root, b, rest_bits);
                assert(seq![b] + msg.skip(1) =~= msg);
            },
        }
    }
}

/// Round trip through the bit stream: a message whose bytes the tree covers
/// decodes, from its own encoding, back to itself.
pub proof fn lemma_huffman_round_trip(t: &HuffmanTree, msg: Seq<u8>)
    requires
        t.wf(),
        forall|k: int| 0 <= k < msg.len() ==> t.symbols().contains(#[trigger] msg[k]),
    ensures
        t.spec_decode_bits(t.spec_encoded_bits(msg)) == Some(msg),
{
    match t.root {
        Option::None => {
            if msg.len() > 0 {
                assert(t.symbols().contains(msg[0]));
                assert(false);
            }
            assert(msg =~= Seq::<u8>::empty());
        },
        Option::Some(r) => {
            lemma_decode_encoded(r, msg);
        },
    }
}

/// No symbol's code is a prefix of a different symbol's code, below an
/// internal node.
proof fn lemma_code_prefix_free(n: Node, a: u8, b: u8)
    requires
        node_wf(n),
        sym_set(n).contains(a),
        sym_set(n).contains(b),
        a != b,
        n is Internal,
    ensures
        !code_of(n, a).is_prefix_of(code_of(n, b)),
    decreases n,
{
    match n {
        Node::Leaf { .. } => {},
        Node::Internal { left, right, .. } => {
            let a_left = sym_set(*left).contains(a);
            let b_left = sym_set(*left).contains(b);
            let ca = code_of(n, a);
            let cb = code_of(n, b);
            if a_left != b_left {
                if ca.is_prefix_of(cb) {
                    assert(ca[0] == cb[0]);
                    assert(false);
                }
            } else {
                let sub = if a_left {
                    *left
                } else {
                    *right
                };
                match sub {
                    Node::Leaf { value, .. } => {
                        assert(value == a && value == b);
                        assert(false);
                    },
                    Node::Internal { .. } => {
                        lemma_code_prefix_free(sub, a, b);
                        if ca.is_prefix_of(cb) {
                            let sa = code_of(sub, a);
                            let sb = code_of(sub, b);
                            assert forall|k: int| 0 <= k < sa.len() implies sa[k]
                                == #[trigger] sb[k] by {
                                assert(ca[k + 1] == cb[k + 1]);
                            }
                            assert(sa =~= sb.take(sa.len() as int));
                            assert(sa.is_prefix_of(sb));
                            assert(false);
                        }
                    },
                }
            }
        },
    }
}

/// The prefix property of the code table: the code of one symbol is never a
/// prefix of the code of a different symbol. (In the single-symbol tree the
/// table has one entry, so the claim holds vacuously.)
pub proof fn lemma_huffman_prefix_free(t: &HuffmanTree, a: u8, b: u8)
    requires
        t.wf(),
        t.symbols().contains(a),
        t.symbols().contains(b),
        a != b,
    ensures
        !t.spec_code(a).is_prefix_of(t.spec_code(b)),
{
    match t.root {
        Option::None => {},
        Option::Some(r) => {
            match r {
                Node::Leaf { value, .. } => {
                    assert(value == a && value == b);
                },
                Node::Internal { .. } => {
                    lemma_code_prefix_free(r, a, b);
                },
            }
        },
    }
}

impl HuffmanTree {
    /// The sum, over a message, of the code lengths of its bytes.
    pub open spec fn spec_code_len_sum(&self, msg: Seq<u8>) -> int
        decreases msg.len(),
    {
        if msg.len() == 0 {
            0
        } else {
            self.spec_code(msg[0]).len() + self.spec_code_len_sum(msg.skip(1))
        }
    }
}

/// The bit-count header an encode writes equals the sum over all input
/// bytes of their code lengths: the encoded bit stream is exactly the codes
/// laid end to end.
pub proof fn lemma_header_is_code_length_sum(t: &HuffmanTree, msg: Seq<u8>)
    ensures
        t.spec_encoded_bits(msg).len() == t.spec_code_len_sum(msg),
    decreases msg.len(),
{
    if msg.len() == 0 {
    } else {
        lemma_header_is_code_length_sum(t, msg.skip(1));
        match t.root {
            Option::None => {},
            Option::Some(r) => {
                assert(encoded_bits(r, msg) == tree_code(r, msg[0]) + encoded_bits(
                    r,
                    msg.skip(1),
                ));
            },
        }
    }
}

/// The byte values below `k`.
spec fn byte_range(k: int) -> Set<u8> {
    Set::new(|b: u8| (b as int) < k)
}

/// `byte_range(k)` holds exactly `k` values.
proof fn lemma_byte_range_card(k: int)
    requires
        0 <= k <= 256,
    ensures
        byte_range(k).finite(),
        byte_range(k).len() == k,
    decreases k,
{
    if k == 0 {
        assert(byte_range(0) =~= Set::<u8>::empty());
    } else {
        lemma_byte_range_card(k - 1);
        assert(byte_range(k) =~= byte_range(k - 1).insert((k - 1) as u8));
        vstd::set::axiom_set_insert_len(byte_range(k - 1), (k - 1) as u8);
    }
}

/// A well-formed subtree covers between 1 and 256 byte values.
proof fn lemma_sym_set_card(n: Node)
    requires
        node_wf(n),
    ensures
        sym_set(n).finite(),
        1 <= sym_set(n).len() <= 256,
    decreases n,
{
    lemma_byte_range_card(256);
    match n {
        Node::Leaf { value, .. } => {
            assert(sym_set(n) =~= Set::<u8>::empty().insert(value));
            vstd::set::axiom_set_insert_len(Set::<u8>::empty(), value);
        },
        Node::Internal { left, right, .. } => {
            lemma_sym_set_card(*left);
            lemma_sym_set_card(*right);
            vstd::set_lib::lemma_set_disjoint_lens(sym_set(*left), sym_set(*right));
            assert(sym_set(n).subset_of(byte_range(256)));
            vstd::set_lib::lemma_len_subset(sym_set(n), byte_range(256));
        },
    }
}

/// Every root-to-leaf path is shorter than the number of byte values the
/// subtree covers.
proof fn lemma_code_len_lt_card(n: Node, b: u8)
    requires
        node_wf(n),
    ensures
        code_of(n, b).len() < sym_set(n).len(),
    decreases n,
{
    lemma_sym_set_card(n);
    match n {
        Node::Leaf { .. } => {},
        Node::Internal { left, right, .. } => {
            lemma_sym_set_card(*left);
            lemma_sym_set_card(*right);
            vstd::set_lib::lemma_set_disjoint_lens(sym_set(*left), sym_set(*right));
            if sym_set(*left).contains(b) {
                lemma_code_len_lt_card(*left, b);
            } else {
                lemma_code_len_lt_card(*right, b);
            }
        },
    }
}

/// No code is longer than 256 bits: a prefix tree over at most 256 byte
/// values is no deeper than that.
pub proof fn lemma_code_length_bound(t: &HuffmanTree, b: u8)
    requires
        t.wf(),
    ensures
        t.spec_code(b).len() <= 256,
{
    match t.root {
        Option::None => {},
        Option::Some(r) => {
            match r {
                Node::Leaf { .. } => {},
                Node::Internal { .. } => {
                    lemma_code_len_lt_card(r, b);
                    lemma_sym_set_card(r);
                },
            }
        },
    }
}

/// A message of `n` bytes encodes to at most `256 * n` bits: the bound a
/// caller needs to know the bit count fits the header.
pub proof fn lemma_encoded_bits_len_le(t: &HuffmanTree, msg: Seq<u8>)
    requires
        t.wf(),
    ensures
        t.spec_encoded_bits(msg).len() <= 256 * msg.len(),
    decreases msg.len(),
{
    if msg.len() == 0 {
    } else {
        lemma_encoded_bits_len_le(t, msg.skip(1));
        lemma_code_length_bound(t, msg[0]);
        match t.root {
            Option::None => {},
            Option::Some(r) => {
                assert(encoded_bits(r, msg) == tree_code(r, msg[0]) + encoded_bits(
                    r,
                    msg.skip(1),
                ));
            },
        }
    }
}

/// The height of a subtree: the longest path to a leaf.
pub open spec fn height(n: Node) -> int
    decreases n,
{
    match n {
        Node::Leaf { .. } => 0,
        Node::Internal { left, right, .. } => 1 + if height(*left) >= height(*right) {
            height(*left)
        } else {
            height(*right)
        },
    }
}

/// A well-formed tree is no deeper than the byte values it covers.
proof fn lemma_height_lt_card(n: Node)
    requires
        node_wf(n),
    ensures
        0 <= height(n) < sym_set(n).len(),
    decreases n,
{
    lemma_sym_set_card(n);
    match n {
        Node::Leaf { .. } => {},
        Node::Internal { left, right, .. } => {
            lemma_height_lt_card(*left);
            lemma_height_lt_card(*right);
            lemma_sym_set_card(*left);
            lemma_sym_set_card(*right);
            vstd::set_lib::lemma_set_disjoint_lens(sym_set(*left), sym_set(*right));
        },
    }
}

/// The nodes of a subtree in depth-first order: aggregate frequency, the
/// byte value at a leaf, and the depth below the root.
pub open spec fn spec_rows(n: Node, d: u64) -> Seq<(u64, Option<u8>, u64)>
    decreases n,
{
    match n {
        Node::Leaf { value, frequency } => seq![(frequency, Option::Some(value), d)],
        Node::Internal { frequency, left, right } => seq![(frequency, Option::None, d)]
            + spec_rows(*left, (d + 1) as u64) + spec_rows(*right, (d + 1) as u64),
    }
}

/// Walk a subtree depth first, appending one row per node.
fn push_rows(node: &Node, d: u64, rows: &mut Vec<(u64, Option<u8>, u64)>)
    requires
        node_wf(*node),
        d + height(*node) <= u64::MAX,
    ensures
        final(rows)@ == old(rows)@ + spec_rows(*node, d),
    decreases *node,
{
    match node {
        Node::Leaf { value, frequency } => {
            rows.push((*frequency, Some(*value), d));
            proof {
                assert(rows@ =~= old(rows)@ + spec_rows(*node, d));
            }
        },
        Node::Internal { frequency, left, right } => {
            rows.push((*frequency, None, d));
            let ghost mid0 = rows@;
            proof {
                assert(mid0 =~= old(rows)@ + seq![(*frequency, Option::None::<u8>, d)]);
                lemma_height_lt_card(**left);
                lemma_height_lt_card(**right);
                assert(height(*node) == 1 + if height(**left) >= height(**right) {
                    height(**left)
                } else {
                    height(**right)
                });
            }
            push_rows(&*left, d + 1, rows);
            push_rows(&*right, d + 1, rows);
            proof {
                assert(rows@ =~= old(rows)@ + spec_rows(*node, d));
            }
        },
    }
}

impl HuffmanTree {
    /// The rows of the tree, depth first: every node's aggregate frequency
    /// and depth, and the byte value at each leaf — the tree laid out for a
    /// caller to display.
    pub closed spec fn spec_tree_rows(&self) -> Seq<(u64, Option<u8>, u64)> {
        match self.root {
            Option::None => Seq::empty(),
            Option::Some(r) => spec_rows(r, 0),
        }
    }

    pub fn rows(&self) -> (r: Vec<(u64, Option<u8>, u64)>)
        requires
            self.wf(),
        ensures
            r@ == self.spec_tree_rows(),
    {
        let mut rows: Vec<(u64, Option<u8>, u64)> = Vec::new();
        match &self.root {
            Option::None => {},
            Option::Some(root_node) => {
                proof {
                    lemma_height_lt_card(*root_node);
                    lemma_sym_set_card(*root_node);
                }
                push_rows(root_node, 0, &mut rows);
            },
        }
        proof {
            match &self.root {
                Option::None => {
                    assert(rows@ =~= self.spec_tree_rows());
                },
                Option::Some(r) => {
                    assert(Seq::<(u64, Option<u8>, u64)>::empty() + spec_rows(*r, 0) =~= spec_rows(
                        *r,
                        0,
                    ));
                },
            }
        }
        rows
    }
}

} // verus!
