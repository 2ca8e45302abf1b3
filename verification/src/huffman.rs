//! The Huffman codec: frequency analysis, the level-merge coding tree,
//! per-byte prefix codes, and the serialized dictionary and payload.

use crate::bits::{bit8, byte_bits, byte_of_bits, BitReader, BitWriter};
use vstd::prelude::*;

verus! {

/// The data carried by one coding-tree node: the byte values reachable in
/// its subtree and their total occurrence count in the input.
#[derive(Clone, PartialEq, Debug)]
pub struct NodeData {
    pub chars: Vec<u8>,
    pub weight: usize,
}

/// A prefix code: the low `length` bits of `data`, least significant
/// first, give the root-to-leaf path (`false` = left, `true` = right).
#[derive(Clone, Copy, PartialEq, Eq, Hash, Structural, Debug)]
pub struct Code {
    pub length: u8,
    pub data: u8,
}

/// A coding tree: leaves hold one byte value each, inner nodes merge two
/// subtrees.
#[derive(Debug)]
pub enum Tree {
    Leaf(NodeData),
    Node(NodeData, Box<Tree>, Box<Tree>),
}

/// What failed during compression or decompression.
#[derive(Clone, Copy, PartialEq, Eq, Structural, Debug)]
pub enum HuffmanError {
    /// A code longer than eight bits would be needed: the dictionary
    /// format cannot represent it.
    CodeTooLong,
    /// The serialized header could not be fully read.
    InvalidInput,
    /// The payload ended before the requested number of bytes was decoded.
    Truncated,
}

/// The node data at the root of a tree.
pub open spec fn node_data(t: Tree) -> NodeData {
    match t {
        Tree::Leaf(d) => d,
        Tree::Node(d, _, _) => d,
    }
}

/// No byte value occurs twice.
pub open spec fn no_dup(s: Seq<u8>) -> bool {
    forall|i: int, j: int| 0 <= i < j < s.len() ==> s[i] != s[j]
}

/// Structural soundness of a coding tree: a leaf holds exactly one byte
/// value; an inner node's byte values are its children's in order, without
/// duplicates, and its weight is their sum.
pub open spec fn wf_tree(t: Tree) -> bool
    decreases t,
{
    match t {
        Tree::Leaf(d) => d.chars@.len() == 1,
        Tree::Node(d, l, r) => {
            &&& wf_tree(*l)
            &&& wf_tree(*r)
            &&& d.chars@ == node_data(*l).chars@ + node_data(*r).chars@
            &&& no_dup(d.chars@)
            &&& d.weight == node_data(*l).weight + node_data(*r).weight
        },
    }
}

/// How often `c` occurs in `s`.
pub open spec fn count_of(s: Seq<u8>, c: u8) -> nat
    decreases s.len(),
{
    if s.len() == 0 {
        0
    } else {
        count_of(s.drop_last(), c) + (if s.last() == c {
            1nat
        } else {
            0nat
        })
    }
}

proof fn lemma_count_push(s: Seq<u8>, b: u8, c: u8)
    ensures
        count_of(s.push(b), c) == count_of(s, c) + (if b == c {
            1nat
        } else {
            0nat
        }),
{
    assert(s.push(b).drop_last() =~= s);
    assert(s.push(b).last() == b);
}

/// The bytes that remain in a bit string from position `pos` on, whole
/// bytes only.
pub open spec fn stream_bytes(bits: Seq<bool>, pos: int) -> Seq<u8> {
    Seq::new(
        (((bits.len() - pos) / 8) as nat),
        |i: int| byte_of_bits(bits.subrange(pos + 8 * i, pos + 8 * i + 8)),
    )
}

/// The leaves of a tree, in order: each leaf's byte value and weight.
pub open spec fn tree_leaves(t: Tree) -> Seq<(u8, usize)>
    decreases t,
{
    match t {
        Tree::Leaf(d) => seq![(d.chars@[0], d.weight)],
        Tree::Node(_, l, r) => tree_leaves(*l) + tree_leaves(*r),
    }
}

/// The leaves of all trees of a level, in order.
pub open spec fn level_leaves(ts: Seq<Tree>) -> Seq<(u8, usize)>
    decreases ts.len(),
{
    if ts.len() == 0 {
        Seq::empty()
    } else {
        level_leaves(ts.drop_last()) + tree_leaves(ts.last())
    }
}

/// One leaf entry per byte value below `c` that occurs in `s`, ascending,
/// carrying its occurrence count.
pub open spec fn leaf_entries_below(s: Seq<u8>, c: int) -> Seq<(u8, usize)>
    decreases c,
{
    if c <= 0 {
        Seq::empty()
    } else if count_of(s, (c - 1) as u8) > 0 {
        leaf_entries_below(s, c - 1).push(((c - 1) as u8, count_of(s, (c - 1) as u8) as usize))
    } else {
        leaf_entries_below(s, c - 1)
    }
}

/// The byte values of all trees of a level, in order.
pub open spec fn level_chars(ts: Seq<Tree>) -> Seq<u8>
    decreases ts.len(),
{
    if ts.len() == 0 {
        Seq::empty()
    } else {
        level_chars(ts.drop_last()) + node_data(ts.last()).chars@
    }
}

/// The total weight of all trees of a level.
pub open spec fn weight_sum(ts: Seq<Tree>) -> int
    decreases ts.len(),
{
    if ts.len() == 0 {
        0
    } else {
        weight_sum(ts.drop_last()) + node_data(ts.last()).weight
    }
}

proof fn lemma_level_push(ts: Seq<Tree>, t: Tree)
    ensures
        level_chars(ts.push(t)) == level_chars(ts) + node_data(t).chars@,
        weight_sum(ts.push(t)) == weight_sum(ts) + node_data(t).weight,
        level_leaves(ts.push(t)) == level_leaves(ts) + tree_leaves(t),
{
    assert(ts.push(t).drop_last() =~= ts);
    assert(ts.push(t).last() == t);
}

/// The sum of the first `n` entries of a count table.
pub open spec fn csum(counts: Seq<usize>, n: int) -> int
    decreases n,
{
    if n <= 0 {
        0
    } else {
        csum(counts, n - 1) + counts[n - 1]
    }
}

proof fn lemma_csum_zero(counts: Seq<usize>, n: int)
    requires
        forall|q: int| 0 <= q < n ==> counts[q] == 0,
    ensures
        csum(counts, n) == 0,
    decreases n,
{
    if n > 0 {
        lemma_csum_zero(counts, n - 1);
    }
}

proof fn lemma_csum_update(c1: Seq<usize>, c2: Seq<usize>, b: int, n: int, delta: int)
    requires
        0 <= b < n <= c1.len(),
        c1.len() == c2.len(),
        c2[b] == c1[b] + delta,
        forall|q: int| 0 <= q < c1.len() && q != b ==> c1[q] == c2[q],
    ensures
        csum(c2, n) == csum(c1, n) + delta,
    decreases n,
{
    if n - 1 == b {
        lemma_csum_same(c1, c2, b);
    } else {
        lemma_csum_update(c1, c2, b, n - 1, delta);
    }
}

proof fn lemma_csum_same(c1: Seq<usize>, c2: Seq<usize>, n: int)
    requires
        forall|q: int| 0 <= q < n ==> c1[q] == c2[q],
    ensures
        csum(c1, n) == csum(c2, n),
    decreases n,
{
    if n > 0 {
        lemma_csum_same(c1, c2, n - 1);
    }
}

/// A level splits at any index: its byte values and weights are those of
/// the two parts in order.
proof fn lemma_level_split(ts: Seq<Tree>, i: int)
    requires
        0 <= i <= ts.len(),
    ensures
        level_chars(ts) == level_chars(ts.take(i)) + level_chars(ts.skip(i)),
        weight_sum(ts) == weight_sum(ts.take(i)) + weight_sum(ts.skip(i)),
        level_leaves(ts) == level_leaves(ts.take(i)) + level_leaves(ts.skip(i)),
    decreases ts.len(),
{
    if i == ts.len() {
        assert(ts.take(i) =~= ts);
        assert(ts.skip(i) =~= Seq::<Tree>::empty());
        assert(level_chars(ts) + level_chars(ts.skip(i)) =~= level_chars(ts));
        assert(level_leaves(ts) + level_leaves(ts.skip(i)) =~= level_leaves(ts));
    } else {
        let dl = ts.drop_last();
        lemma_level_split(dl, i);
        assert(dl.take(i) =~= ts.take(i));
        assert(ts.skip(i).drop_last() =~= dl.skip(i));
        assert(ts.skip(i).last() == ts.last());
        assert(level_chars(ts.skip(i)) == level_chars(dl.skip(i)) + node_data(ts.last()).chars@);
        assert(level_chars(ts.take(i)) + (level_chars(dl.skip(i)) + node_data(ts.last()).chars@)
            =~= (level_chars(ts.take(i)) + level_chars(dl.skip(i))) + node_data(ts.last()).chars@);
        assert(level_leaves(ts.skip(i)) == level_leaves(dl.skip(i)) + tree_leaves(ts.last()));
        assert(level_leaves(ts.take(i)) + (level_leaves(dl.skip(i)) + tree_leaves(ts.last()))
            =~= (level_leaves(ts.take(i)) + level_leaves(dl.skip(i))) + tree_leaves(ts.last()));
    }
}

/// A non-empty level's byte values start with those of its first tree.
proof fn lemma_level_first(ts: Seq<Tree>)
    requires
        ts.len() > 0,
    ensures
        level_chars(ts) == node_data(ts[0]).chars@ + level_chars(ts.drop_first()),
        weight_sum(ts) == node_data(ts[0]).weight + weight_sum(ts.drop_first()),
        level_leaves(ts) == tree_leaves(ts[0]) + level_leaves(ts.drop_first()),
    decreases ts.len(),
{
    if ts.len() == 1 {
        assert(ts.drop_last() =~= Seq::<Tree>::empty());
        assert(ts.drop_first() =~= Seq::<Tree>::empty());
        assert(level_chars(ts) =~= node_data(ts[0]).chars@ + level_chars(ts.drop_first()));
        assert(level_leaves(ts) =~= tree_leaves(ts[0]) + level_leaves(ts.drop_first()));
    } else {
        let dl = ts.drop_last();
        lemma_level_first(dl);
        assert(dl[0] == ts[0]);
        assert(ts.drop_first().drop_last() =~= dl.drop_first());
        assert(ts.drop_first().last() == ts.last());
        assert(level_chars(ts.drop_first()) == level_chars(dl.drop_first()) + node_data(
            ts.last(),
        ).chars@);
        assert((node_data(ts[0]).chars@ + level_chars(dl.drop_first())) + node_data(
            ts.last(),
        ).chars@ =~= node_data(ts[0]).chars@ + (level_chars(dl.drop_first()) + node_data(
            ts.last(),
        ).chars@));
        assert(level_leaves(ts.drop_first()) == level_leaves(dl.drop_first()) + tree_leaves(
            ts.last(),
        ));
        assert((tree_leaves(ts[0]) + level_leaves(dl.drop_first())) + tree_leaves(ts.last())
            =~= tree_leaves(ts[0]) + (level_leaves(dl.drop_first()) + tree_leaves(ts.last())));
    }
}

proof fn lemma_ws_nonneg(ts: Seq<Tree>)
    ensures
        weight_sum(ts) >= 0,
    decreases ts.len(),
{
    if ts.len() > 0 {
        lemma_ws_nonneg(ts.drop_last());
    }
}

/// Removing one tree takes away exactly its byte values and weight.
proof fn lemma_level_remove(ts: Seq<Tree>, j: int)
    requires
        0 <= j < ts.len(),
    ensures
        level_chars(ts.remove(j)).to_multiset().add(node_data(ts[j]).chars@.to_multiset())
            == level_chars(ts).to_multiset(),
        weight_sum(ts.remove(j)) == weight_sum(ts) - node_data(ts[j]).weight,
        level_leaves(ts.remove(j)).to_multiset().add(tree_leaves(ts[j]).to_multiset())
            == level_leaves(ts).to_multiset(),
    decreases ts.len(),
{
    let rm = ts.remove(j);
    lemma_level_split(ts, j);
    lemma_level_first(ts.skip(j));
    assert(ts.skip(j)[0] == ts[j]);
    assert(ts.skip(j).drop_first() =~= ts.skip(j + 1));
    lemma_level_split(rm, j);
    assert(rm.take(j) =~= ts.take(j));
    assert(rm.skip(j) =~= ts.skip(j + 1));
    let a = level_chars(ts.take(j));
    let b = node_data(ts[j]).chars@;
    let cc = level_chars(ts.skip(j + 1));
    assert(level_chars(ts) == a + (b + cc));
    assert(level_chars(rm) == a + cc);
    vstd::seq_lib::lemma_multiset_commutative(a, b + cc);
    vstd::seq_lib::lemma_multiset_commutative(b, cc);
    vstd::seq_lib::lemma_multiset_commutative(a, cc);
    assert(level_chars(rm).to_multiset().add(b.to_multiset()) =~= level_chars(ts).to_multiset());
    let la = level_leaves(ts.take(j));
    let lb = tree_leaves(ts[j]);
    let lc = level_leaves(ts.skip(j + 1));
    assert(level_leaves(ts) == la + (lb + lc));
    assert(level_leaves(rm) == la + lc);
    vstd::seq_lib::lemma_multiset_commutative(la, lb + lc);
    vstd::seq_lib::lemma_multiset_commutative(lb, lc);
    vstd::seq_lib::lemma_multiset_commutative(la, lc);
    assert(level_leaves(rm).to_multiset().add(lb.to_multiset()) =~= level_leaves(ts).to_multiset());
}

impl Tree {
    /// Whether this node is a leaf.
    pub fn is_leaf(&self) -> (r: bool)
        ensures
            r == (self is Leaf),
    {
        match self {
            Tree::Leaf(_) => true,
            Tree::Node(..) => false,
        }
    }

    /// The node data at this node.
    pub fn data(&self) -> (r: &NodeData)
        ensures
            *r == node_data(*self),
    {
        match self {
            Tree::Leaf(d) => d,
            Tree::Node(d, _, _) => d,
        }
    }

    /// The left child of an inner node.
    pub fn left(&self) -> (r: &Tree)
        requires
            self is Node,
        ensures
            *self matches Tree::Node(_, l, _) && *r == *l,
    {
        match self {
            Tree::Node(_, l, _) => l,
            Tree::Leaf(_) => vstd::pervasive::unreached(),
        }
    }

    /// The right child of an inner node.
    pub fn right(&self) -> (r: &Tree)
        requires
            self is Node,
        ensures
            *self matches Tree::Node(_, _, rr) && *r == *rr,
    {
        match self {
            Tree::Node(_, _, r) => r,
            Tree::Leaf(_) => vstd::pervasive::unreached(),
        }
    }
}

/// Copies a byte vector.
pub(crate) fn clone_bytes(v: &Vec<u8>) -> (r: Vec<u8>)
    ensures
        r@ == v@,
{
    let mut r: Vec<u8> = Vec::new();
    let mut k: usize = 0;
    while k < v.len()
        invariant
            0 <= k <= v.len(),
            r@ == v@.take(k as int),
        decreases v.len() - k,
    {
        r.push(v[k]);
        proof {
            assert(r@ =~= v@.take(k + 1));
        }
        k = k + 1;
    }
    proof {
        assert(v@.take(v@.len() as int) =~= v@);
    }
    r
}

/// Whether the byte vector holds `x`.
pub(crate) fn contains_byte(v: &Vec<u8>, x: u8) -> (r: bool)
    ensures
        r == v@.contains(x),
{
    let mut k: usize = 0;
    while k < v.len()
        invariant
            0 <= k <= v.len(),
            forall|q: int| 0 <= q < k ==> v@[q] != x,
        decreases v.len() - k,
    {
        if v[k] == x {
            return true;
        }
        k = k + 1;
    }
    false
}

/// Merges two subtrees into a parent whose byte values are theirs in
/// order and whose weight is the sum of theirs.
pub fn new_parent(left: Tree, right: Tree) -> (r: Tree)
    requires
        node_data(left).weight + node_data(right).weight <= usize::MAX,
    ensures
        r matches Tree::Node(d, l, rr) && *l == left && *rr == right && d.chars@ == node_data(
            left,
        ).chars@ + node_data(right).chars@ && d.weight == node_data(left).weight + node_data(
            right,
        ).weight,
        tree_leaves(r) == tree_leaves(left) + tree_leaves(right),
{
    let mut chars = clone_bytes(&left.data().chars);
    let right_chars = &right.data().chars;
    let mut k: usize = 0;
    while k < right_chars.len()
        invariant
            0 <= k <= right_chars@.len(),
            chars@ == node_data(left).chars@ + right_chars@.take(k as int),
            right_chars@ == node_data(right).chars@,
        decreases right_chars.len() - k,
    {
        chars.push(right_chars[k]);
        proof {
            assert(node_data(left).chars@ + right_chars@.take(k + 1) =~= (node_data(left).chars@
                + right_chars@.take(k as int)).push(right_chars@[k as int]));
        }
        k = k + 1;
    }
    proof {
        assert(right_chars@.take(right_chars@.len() as int) =~= right_chars@);
    }
    let weight = left.data().weight + right.data().weight;
    Tree::Node(NodeData { chars, weight }, Box::new(left), Box::new(right))
}

/// Scans the remaining whole bytes of the input once and produces one
/// leaf per distinct byte value, in ascending byte order, weighted by its
/// occurrence count.
pub fn compute_leaves(input: &mut BitReader) -> (r: Vec<Tree>)
    requires
        old(input).wf(),
    ensures
        final(input).wf(),
        final(input).bits() == old(input).bits(),
        final(input).pos() == old(input).pos() + 8 * stream_bytes(
            old(input).bits(),
            old(input).pos(),
        ).len(),
        leaves_describe(r@, stream_bytes(old(input).bits(), old(input).pos())),
        weight_sum(r@) == stream_bytes(old(input).bits(), old(input).pos()).len(),
        level_leaves(r@) == leaf_entries_below(
            stream_bytes(old(input).bits(), old(input).pos()),
            256,
        ),
        r@.len() <= 256,
{
    proof {
        input.lemma_bits_len_bound();
    }
    let ghost bits = input.bits();
    let ghost p0 = input.pos();
    let ghost s = stream_bytes(bits, p0);

    let mut counts: Vec<usize> = Vec::new();
    let mut c: usize = 0;
    while c < 256
        invariant
            0 <= c <= 256,
            counts@.len() == c,
            forall|q: int| 0 <= q < c ==> counts@[q] == 0,
        decreases 256 - c,
    {
        counts.push(0);
        c = c + 1;
    }

    let ghost mut done: Seq<u8> = Seq::empty();
    proof {
        assert forall|cc: u8| count_of(done, cc) == 0nat by {}
        assert(done =~= s.take(0));
        lemma_csum_zero(counts@, 256);
    }
    let mut m: usize = 0;
    loop
        invariant_except_break
            input.wf(),
            input.bits() == bits,
            0 <= p0 <= bits.len(),
            input.pos() == p0 + 8 * m,
            0 <= m <= s.len(),
            s == stream_bytes(bits, p0),
            done == s.take(m as int),
            counts@.len() == 256,
            forall|cc: u8| #[trigger] count_of(done, cc) == counts@[cc as int],
            m <= (bits.len() - p0) / 8,
            csum(counts@, 256) == m as int,
        ensures
            input.wf(),
            input.bits() == bits,
            input.pos() == p0 + 8 * stream_bytes(bits, p0).len(),
            counts@.len() == 256,
            forall|cc: u8| #[trigger] count_of(s, cc) == counts@[cc as int],
            csum(counts@, 256) == stream_bytes(bits, p0).len(),
        decreases bits.len() - input.pos(),
    {
        let next = input.read_byte();
        match next {
            Some(b) => {
                proof {
                    lemma_stream_bytes_index(bits, p0, m as int);
                    assert(s[m as int] == byte_of_bits(bits.subrange(p0 + 8 * m, p0 + 8 * m + 8)));
                    crate::bits::lemma_byte_of_bits_roundtrip(
                        b,
                        bits.subrange(p0 + 8 * m, p0 + 8 * m + 8),
                    );
                    assert(b == s[m as int]);
                }
                let old_count = counts[b as usize];
                proof {
                    input.lemma_bits_len_bound();
                    assert(count_of(done, b) == counts@[b as int]);
                    lemma_count_le_len(done, b);
                    assert(done.len() <= s.len());
                    lemma_stream_bytes_len_bound(bits, p0);
                    assert(8 * m <= bits.len());
                }
                let ghost c_old = counts@;
                counts.set(b as usize, old_count + 1);
                proof {
                    lemma_csum_update(c_old, counts@, b as int, 256, 1);
                    let done2 = done.push(b);
                    assert forall|cc: u8| #[trigger] count_of(done2, cc) == counts@[cc as int] by {
                        lemma_count_push(done, b, cc);
                    }
                    assert(done2 =~= s.take(m + 1));
                    done = done2;
                }
                m = m + 1;
            },
            None => {
                proof {
                    assert(bits.len() - input.pos() < 8);
                    assert(m == (bits.len() - p0) / 8) by {
                        assert(input.pos() == p0 + 8 * m);
                        assert(bits.len() - (p0 + 8 * m) < 8);
                    }
                    assert(done =~= s);
                }
                break ;
            },
        }
    }

    let mut result: Vec<Tree> = Vec::new();
    let mut c: usize = 0;
    while c < 256
        invariant
            0 <= c <= 256,
            counts@.len() == 256,
            forall|cc: u8| #[trigger] count_of(s, cc) == counts@[cc as int],
            forall|k: int|
                0 <= k < result@.len() ==> leaf_shape(#[trigger] result@[k]) && count_of(
                    s,
                    node_data(result@[k]).chars@[0],
                ) == node_data(result@[k]).weight && node_data(result@[k]).weight > 0
                    && node_data(result@[k]).chars@[0] < c,
            forall|k1: int, k2: int|
                0 <= k1 < k2 < result@.len() ==> node_data(#[trigger] result@[k1]).chars@[0]
                    < node_data(#[trigger] result@[k2]).chars@[0],
            forall|cc: u8|
                cc < c && count_of(s, cc) > 0 ==> exists|k: int|
                    0 <= k < result@.len() && node_data(#[trigger] result@[k]).chars@[0] == cc,
            weight_sum(result@) == csum(counts@, c as int),
            csum(counts@, 256) == s.len(),
            level_leaves(result@) == leaf_entries_below(s, c as int),
            result@.len() <= c,
        decreases 256 - c,
    {
        let w = counts[c];
        if w > 0 {
            let mut chars: Vec<u8> = Vec::new();
            chars.push(c as u8);
            let leaf = Tree::Leaf(NodeData { chars, weight: w });
            let ghost prev = result@;
            result.push(leaf);
            proof {
                lemma_level_push(prev, leaf);
                assert(tree_leaves(leaf) =~= seq![(c as u8, w)]);
                assert(level_leaves(result@) =~= leaf_entries_below(s, c + 1));
                assert(node_data(result@[prev.len() as int]).chars@[0] == c as u8);
                assert forall|cc: u8|
                    cc < c + 1 && count_of(s, cc) > 0 implies exists|k: int|
                    0 <= k < result@.len() && node_data(#[trigger] result@[k]).chars@[0] == cc by {
                    if cc < c {
                        let k0 = choose|k: int|
                            0 <= k < prev.len() && node_data(#[trigger] prev[k]).chars@[0] == cc;
                        assert(result@[k0] == prev[k0]);
                        assert(node_data(result@[k0]).chars@[0] == cc);
                    } else {
                        assert(node_data(result@[prev.len() as int]).chars@[0] == cc);
                    }
                }
            }
        }
        c = c + 1;
    }
    result
}

/// Every tree of a level is well formed.
pub open spec fn all_wf(ts: Seq<Tree>) -> bool {
    forall|k: int| 0 <= k < ts.len() ==> wf_tree(#[trigger] ts[k])
}

/// The trees of a level, in non-decreasing order of weight.
pub open spec fn sorted_by_weight(ts: Seq<Tree>) -> bool {
    forall|k1: int, k2: int|
        0 <= k1 < k2 < ts.len() ==> node_data(#[trigger] ts[k1]).weight <= node_data(
            #[trigger] ts[k2],
        ).weight
}

/// Trees of equal weight stand in ascending order of their first byte
/// value: the tie-break a stable weight sort of byte-ascending leaves
/// leaves behind.
pub open spec fn ties_byte_ascending(ts: Seq<Tree>) -> bool {
    forall|k1: int, k2: int|
        0 <= k1 < k2 < ts.len() && node_data(#[trigger] ts[k1]).weight == node_data(
            #[trigger] ts[k2],
        ).weight ==> node_data(ts[k1]).chars@[0] < node_data(ts[k2]).chars@[0]
}

/// Sorts a level of trees by ascending weight, by repeatedly extracting
/// the first tree of least weight.
fn sort_leaves(level: Vec<Tree>) -> (r: Vec<Tree>)
    requires
        all_wf(level@),
        forall|k1: int, k2: int|
            0 <= k1 < k2 < level@.len() ==> node_data(#[trigger] level@[k1]).chars@[0] < node_data(
                #[trigger] level@[k2],
            ).chars@[0],
    ensures
        r@.len() == level@.len(),
        all_wf(r@),
        sorted_by_weight(r@),
        ties_byte_ascending(r@),
        level_chars(r@).to_multiset() == level_chars(level@).to_multiset(),
        level_leaves(r@).to_multiset() == level_leaves(level@).to_multiset(),
        weight_sum(r@) == weight_sum(level@),
{
    let ghost l0 = level@;
    let mut rem = level;
    let mut out: Vec<Tree> = Vec::new();
    proof {
        assert(level_chars(out@) =~= Seq::<u8>::empty());
        assert(level_chars(out@) + level_chars(rem@) =~= level_chars(rem@));
        vstd::seq_lib::lemma_multiset_commutative(level_chars(out@), level_chars(rem@));
        assert(level_leaves(out@) =~= Seq::<(u8, usize)>::empty());
        assert(level_leaves(out@) + level_leaves(rem@) =~= level_leaves(rem@));
        vstd::seq_lib::lemma_multiset_commutative(level_leaves(out@), level_leaves(rem@));
    }
    while rem.len() > 0
        invariant
            all_wf(out@),
            all_wf(rem@),
            sorted_by_weight(out@),
            out@.len() + rem@.len() == l0.len(),
            level_chars(out@).to_multiset().add(level_chars(rem@).to_multiset()) == level_chars(
                l0,
            ).to_multiset(),
            level_leaves(out@).to_multiset().add(level_leaves(rem@).to_multiset()) == level_leaves(
                l0,
            ).to_multiset(),
            weight_sum(out@) + weight_sum(rem@) == weight_sum(l0),
            forall|p: int, q: int|
                0 <= p < out@.len() && 0 <= q < rem@.len() ==> node_data(#[trigger] out@[p]).weight
                    <= node_data(#[trigger] rem@[q]).weight,
            forall|k1: int, k2: int|
                0 <= k1 < k2 < rem@.len() ==> node_data(#[trigger] rem@[k1]).chars@[0] < node_data(
                    #[trigger] rem@[k2],
                ).chars@[0],
            ties_byte_ascending(out@),
            forall|p: int, q: int|
                0 <= p < out@.len() && 0 <= q < rem@.len() && node_data(#[trigger] out@[p]).weight
                    == node_data(#[trigger] rem@[q]).weight ==> node_data(out@[p]).chars@[0]
                    < node_data(rem@[q]).chars@[0],
        decreases rem.len(),
    {
        let mut j: usize = 1;
        let mut best: usize = 0;
        while j < rem.len()
            invariant
                0 <= best < rem@.len(),
                1 <= j <= rem@.len(),
                forall|q: int|
                    0 <= q < j ==> node_data(rem@[best as int]).weight <= node_data(
                        #[trigger] rem@[q],
                    ).weight,
                forall|q: int|
                    0 <= q < best ==> node_data(#[trigger] rem@[q]).weight > node_data(
                        rem@[best as int],
                    ).weight,
            decreases rem.len() - j,
        {
            if rem[j].data().weight < rem[best].data().weight {
                best = j;
            }
            j = j + 1;
        }
        let ghost rem_old = rem@;
        let t = rem.remove(best);
        proof {
            lemma_level_remove(rem_old, best as int);
            lemma_level_push(out@, t);
            let lo = level_chars(out@);
            let lt = node_data(t).chars@;
            let lr = level_chars(rem@);
            vstd::seq_lib::lemma_multiset_commutative(lo, lt);
            assert(level_chars(out@.push(t)).to_multiset() == lo.to_multiset().add(
                lt.to_multiset(),
            ));
            assert(lo.to_multiset().add(lt.to_multiset()).add(lr.to_multiset()) =~= lo.to_multiset().add(
                lr.to_multiset().add(lt.to_multiset()),
            ));
            assert(lr.to_multiset().add(lt.to_multiset()) =~= lt.to_multiset().add(
                lr.to_multiset(),
            ));
            let vo = level_leaves(out@);
            let vt = tree_leaves(t);
            let vr = level_leaves(rem@);
            vstd::seq_lib::lemma_multiset_commutative(vo, vt);
            assert(level_leaves(out@.push(t)).to_multiset() == vo.to_multiset().add(
                vt.to_multiset(),
            ));
            assert(vo.to_multiset().add(vt.to_multiset()).add(vr.to_multiset()) =~= vo.to_multiset().add(
                vr.to_multiset().add(vt.to_multiset()),
            ));
            assert(vr.to_multiset().add(vt.to_multiset()) =~= vt.to_multiset().add(
                vr.to_multiset(),
            ));
            assert forall|q: int| 0 <= q < rem@.len() implies node_data(t).weight <= node_data(
                #[trigger] rem@[q],
            ).weight by {
                assert(rem@ == rem_old.remove(best as int));
                if q < best {
                    assert(rem@[q] == rem_old[q]);
                } else {
                    assert(rem@[q] == rem_old[q + 1]);
                }
            }
            assert forall|q: int|
                0 <= q < rem@.len() && node_data(t).weight == node_data(
                    #[trigger] rem@[q],
                ).weight implies node_data(t).chars@[0] < node_data(rem@[q]).chars@[0] by {
                if q < best {
                    assert(rem@[q] == rem_old[q]);
                    assert(node_data(rem_old[q]).weight > node_data(t).weight);
                } else {
                    assert(rem@[q] == rem_old[q + 1]);
                    assert(node_data(rem_old[best as int]).chars@[0] < node_data(
                        rem_old[q + 1],
                    ).chars@[0]);
                }
            }
            assert forall|k1: int, k2: int|
                0 <= k1 < k2 < rem@.len() implies node_data(#[trigger] rem@[k1]).chars@[0]
                < node_data(#[trigger] rem@[k2]).chars@[0] by {
                let o1 = if k1 < best {
                    k1
                } else {
                    k1 + 1
                };
                let o2 = if k2 < best {
                    k2
                } else {
                    k2 + 1
                };
                assert(rem@[k1] == rem_old[o1]);
                assert(rem@[k2] == rem_old[o2]);
            }
        }
        out.push(t);
    }
    proof {
        assert(level_chars(rem@) =~= Seq::<u8>::empty());
        assert(level_chars(out@).to_multiset().add(Seq::<u8>::empty().to_multiset())
            =~= level_chars(out@).to_multiset());
        assert(level_leaves(rem@) =~= Seq::<(u8, usize)>::empty());
        assert(level_leaves(out@).to_multiset().add(Seq::<(u8, usize)>::empty().to_multiset())
            =~= level_leaves(out@).to_multiset());
    }
    out
}

/// The shape of a coding tree: its byte values, weights and structure,
/// free of the executable containers.
pub enum TreeShape {
    Leaf(Seq<u8>, int),
    Node(Seq<u8>, int, Box<TreeShape>, Box<TreeShape>),
}

/// The shape of a tree.
pub open spec fn shape_of(t: Tree) -> TreeShape
    decreases t,
{
    match t {
        Tree::Leaf(d) => TreeShape::Leaf(d.chars@, d.weight as int),
        Tree::Node(d, l, r) => TreeShape::Node(
            d.chars@,
            d.weight as int,
            Box::new(shape_of(*l)),
            Box::new(shape_of(*r)),
        ),
    }
}

/// The weight at the root of a shape.
pub open spec fn shape_weight(t: TreeShape) -> int {
    match t {
        TreeShape::Leaf(_, w) => w,
        TreeShape::Node(_, w, _, _) => w,
    }
}

/// The byte values at the root of a shape.
pub open spec fn shape_chars(t: TreeShape) -> Seq<u8> {
    match t {
        TreeShape::Leaf(cs, _) => cs,
        TreeShape::Node(cs, _, _, _) => cs,
    }
}

/// The shape a merge of two subtrees produces.
pub open spec fn shape_parent(a: TreeShape, b: TreeShape) -> TreeShape {
    TreeShape::Node(
        shape_chars(a) + shape_chars(b),
        shape_weight(a) + shape_weight(b),
        Box::new(a),
        Box::new(b),
    )
}

/// The shapes of the trees of a level.
pub open spec fn level_shapes(ts: Seq<Tree>) -> Seq<TreeShape> {
    Seq::new(ts.len(), |i: int| shape_of(ts[i]))
}

/// One left-to-right pass of the level-synchronized merge, with `acc` the
/// next level built so far: the head of `level` is absorbed into the most
/// recently built parent when it is the last node or that parent is not
/// heavier; otherwise it is paired with its right neighbour.
pub open spec fn merge_level(level: Seq<TreeShape>, acc: Seq<TreeShape>) -> Seq<TreeShape>
    decreases level.len(),
{
    if level.len() == 0 {
        acc
    } else if level.len() == 1 || (acc.len() > 0 && shape_weight(acc.last()) <= shape_weight(
        level[0],
    )) {
        if acc.len() == 0 {
            acc
        } else {
            merge_level(level.skip(1), acc.drop_last().push(shape_parent(acc.last(), level[0])))
        }
    } else {
        merge_level(level.skip(2), acc.push(shape_parent(level[0], level[1])))
    }
}

proof fn lemma_merge_level_min(level: Seq<TreeShape>, acc: Seq<TreeShape>)
    ensures
        acc.len() >= 1 ==> merge_level(level, acc).len() >= 1,
        acc.len() == 0 && level.len() >= 2 ==> merge_level(level, acc).len() >= 1,
    decreases level.len(),
{
    if level.len() == 0 {
    } else if level.len() == 1 || (acc.len() > 0 && shape_weight(acc.last()) <= shape_weight(
        level[0],
    )) {
        if acc.len() > 0 {
            lemma_merge_level_min(
                level.skip(1),
                acc.drop_last().push(shape_parent(acc.last(), level[0])),
            );
        }
    } else {
        lemma_merge_level_min(level.skip(2), acc.push(shape_parent(level[0], level[1])));
    }
}

proof fn lemma_merge_level_max(level: Seq<TreeShape>, acc: Seq<TreeShape>)
    ensures
        2 * merge_level(level, acc).len() <= 2 * acc.len() + level.len() + 1,
    decreases level.len(),
{
    if level.len() == 0 {
    } else if level.len() == 1 || (acc.len() > 0 && shape_weight(acc.last()) <= shape_weight(
        level[0],
    )) {
        if acc.len() > 0 {
            lemma_merge_level_max(
                level.skip(1),
                acc.drop_last().push(shape_parent(acc.last(), level[0])),
            );
        }
    } else {
        lemma_merge_level_max(level.skip(2), acc.push(shape_parent(level[0], level[1])));
    }
}

/// The root shape reached by repeating the level-synchronized merge pass
/// until one tree remains.
pub open spec fn merge_to_root(level: Seq<TreeShape>) -> TreeShape
    decreases level.len(),
    when level.len() >= 1
    via merge_to_root_decreases
{
    if level.len() == 1 {
        level[0]
    } else {
        merge_to_root(merge_level(level, Seq::<TreeShape>::empty()))
    }
}

#[via_fn]
proof fn merge_to_root_decreases(level: Seq<TreeShape>) {
    if level.len() >= 2 {
        lemma_merge_level_min(level, Seq::<TreeShape>::empty());
        lemma_merge_level_max(level, Seq::<TreeShape>::empty());
    }
}

/// Bytes that occur once in a no-duplicate string stay without duplicates
/// in any contiguous piece of it.
proof fn lemma_no_dup_middle(x: Seq<u8>, y: Seq<u8>, z: Seq<u8>)
    requires
        no_dup(x + y + z),
    ensures
        no_dup(y),
{
    assert forall|i: int, j: int| 0 <= i < j < y.len() implies y[i] != y[j] by {
        assert((x + y + z)[x.len() + i] == y[i]);
        assert((x + y + z)[x.len() + j] == y[j]);
    }
}

/// Builds the next tree level from the current one, scanning left to
/// right: a node is absorbed into the most recently built parent when that
/// parent is not heavier, or when it is the last node of the level;
/// otherwise it is paired with its right neighbour.
#[verifier::rlimit(100)]
pub fn build_next_level(level: Vec<Tree>, next_level: &mut Vec<Tree>)
    requires
        level@.len() >= 2,
        old(next_level)@.len() == 0,
        all_wf(level@),
        no_dup(level_chars(level@)),
        weight_sum(level@) <= usize::MAX,
    ensures
        1 <= final(next_level)@.len(),
        2 * final(next_level)@.len() <= level@.len(),
        all_wf(final(next_level)@),
        level_chars(final(next_level)@) == level_chars(level@),
        level_leaves(final(next_level)@) == level_leaves(level@),
        weight_sum(final(next_level)@) == weight_sum(level@),
        level_shapes(final(next_level)@) == merge_level(
            level_shapes(level@),
            Seq::<TreeShape>::empty(),
        ),
{
    let ghost lv = level@;
    let mut rem = level;
    proof {
        assert(level_chars(next_level@) =~= Seq::<u8>::empty());
        assert(level_chars(next_level@) + level_chars(rem@) =~= level_chars(rem@));
        assert(level_leaves(next_level@) =~= Seq::<(u8, usize)>::empty());
        assert(level_leaves(next_level@) + level_leaves(rem@) =~= level_leaves(rem@));
        assert(level_shapes(next_level@) =~= Seq::<TreeShape>::empty());
        assert(level_shapes(rem@) =~= level_shapes(lv));
    }
    while rem.len() > 0
        invariant
            all_wf(next_level@),
            all_wf(rem@),
            next_level@.len() == 0 ==> rem@ == lv,
            lv.len() >= 2,
            2 * next_level@.len() <= lv.len() - rem@.len(),
            lv.len() > rem@.len() ==> next_level@.len() >= 1,
            level_chars(next_level@) + level_chars(rem@) == level_chars(lv),
            level_leaves(next_level@) + level_leaves(rem@) == level_leaves(lv),
            weight_sum(next_level@) + weight_sum(rem@) == weight_sum(lv),
            merge_level(level_shapes(rem@), level_shapes(next_level@)) == merge_level(
                level_shapes(lv),
                Seq::<TreeShape>::empty(),
            ),
            weight_sum(lv) <= usize::MAX,
            no_dup(level_chars(lv)),
        decreases rem.len(),
    {
        let last_node = rem.len() == 1;
        let absorb = if next_level.len() > 0 {
            next_level[next_level.len() - 1].data().weight <= rem[0].data().weight
        } else {
            false
        };
        if last_node || absorb {
            let ghost next_old = next_level@;
            let ghost rem_old = rem@;
            let left = next_level.pop().unwrap();
            let cur = rem.remove(0);
            proof {
                assert(next_old =~= next_level@.push(left));
                lemma_level_push(next_level@, left);
                lemma_level_first(rem_old);
                assert(rem@ =~= rem_old.drop_first());
                lemma_ws_nonneg(next_level@);
                lemma_ws_nonneg(rem@);
            }
            let parent = new_parent(left, cur);
            proof {
                let a = level_chars(next_level@);
                let b = node_data(parent).chars@;
                let cc = level_chars(rem@);
                assert(level_chars(lv) =~= a + b + cc);
                lemma_no_dup_middle(a, b, cc);
                lemma_level_push(next_level@, parent);
                assert(level_chars(next_level@.push(parent)) + level_chars(rem@)
                    =~= level_chars(lv));
                assert(level_leaves(next_level@.push(parent)) + level_leaves(rem@)
                    =~= level_leaves(lv));
                assert(shape_of(parent) == shape_parent(shape_of(left), shape_of(cur)));
                assert(level_shapes(rem_old)[0] == shape_of(cur));
                assert(level_shapes(rem_old).skip(1) =~= level_shapes(rem@));
                assert(level_shapes(next_old).last() == shape_of(left));
                assert(level_shapes(next_old).drop_last() =~= level_shapes(next_level@));
                assert(level_shapes(next_level@.push(parent)) =~= level_shapes(
                    next_level@,
                ).push(shape_of(parent)));
                assert(merge_level(level_shapes(rem_old), level_shapes(next_old)) == merge_level(
                    level_shapes(rem@),
                    level_shapes(next_level@).push(shape_of(parent)),
                ));
            }
            next_level.push(parent);
        } else {
            let ghost rem_old = rem@;
            let first = rem.remove(0);
            let ghost rem_mid = rem@;
            let second = rem.remove(0);
            proof {
                lemma_level_first(rem_old);
                assert(rem_mid =~= rem_old.drop_first());
                lemma_level_first(rem_mid);
                assert(rem@ =~= rem_mid.drop_first());
                lemma_ws_nonneg(next_level@);
                lemma_ws_nonneg(rem@);
            }
            let parent = new_parent(first, second);
            proof {
                let a = level_chars(next_level@);
                let b = node_data(parent).chars@;
                let cc = level_chars(rem@);
                assert(level_chars(lv) =~= a + b + cc);
                lemma_no_dup_middle(a, b, cc);
                lemma_level_push(next_level@, parent);
                assert(level_chars(next_level@.push(parent)) + level_chars(rem@)
                    =~= level_chars(lv));
                assert(level_leaves(next_level@.push(parent)) + level_leaves(rem@)
                    =~= level_leaves(lv));
                assert(shape_of(parent) == shape_parent(shape_of(first), shape_of(second)));
                assert(level_shapes(rem_old)[0] == shape_of(first));
                assert(level_shapes(rem_old)[1] == shape_of(second));
                assert(level_shapes(rem_old).skip(2) =~= level_shapes(rem@));
                assert(level_shapes(next_level@.push(parent)) =~= level_shapes(
                    next_level@,
                ).push(shape_of(parent)));
                assert(merge_level(level_shapes(rem_old), level_shapes(next_level@)) == merge_level(
                    level_shapes(rem@),
                    level_shapes(next_level@).push(shape_of(parent)),
                ));
            }
            next_level.push(parent);
        }
    }
    proof {
        assert(level_chars(rem@) =~= Seq::<u8>::empty());
        assert(level_chars(next_level@) + level_chars(rem@) =~= level_chars(next_level@));
        assert(level_leaves(rem@) =~= Seq::<(u8, usize)>::empty());
        assert(level_leaves(next_level@) + level_leaves(rem@) =~= level_leaves(next_level@));
        assert(level_shapes(rem@) =~= Seq::<TreeShape>::empty());
        assert(merge_level(level_shapes(rem@), level_shapes(next_level@)) == level_shapes(
            next_level@,
        ));
    }
}

/// Reads the remaining whole bytes of the input and builds the coding
/// tree: one leaf per distinct byte value, weighted by occurrence count,
/// sorted by ascending weight with ties kept in byte order, then merged
/// level by level under the `merge_level` policy until one root remains.
pub fn build_tree(chars: &mut BitReader) -> (r: Tree)
    requires
        old(chars).wf(),
        stream_bytes(old(chars).bits(), old(chars).pos()).len() >= 1,
    ensures
        final(chars).wf(),
        final(chars).bits() == old(chars).bits(),
        final(chars).pos() == old(chars).pos() + 8 * stream_bytes(
            old(chars).bits(),
            old(chars).pos(),
        ).len(),
        wf_tree(r),
        no_dup(node_data(r).chars@),
        1 <= node_data(r).chars@.len() <= 256,
        node_data(r).weight == stream_bytes(old(chars).bits(), old(chars).pos()).len(),
        forall|c: u8|
            node_data(r).chars@.contains(c) <==> count_of(
                stream_bytes(old(chars).bits(), old(chars).pos()),
                c,
            ) > 0,
        tree_leaves(r).to_multiset() == leaf_entries_below(
            stream_bytes(old(chars).bits(), old(chars).pos()),
            256,
        ).to_multiset(),
        exists|sorted: Seq<Tree>|
            {
                &&& all_wf(sorted)
                &&& sorted_by_weight(sorted)
                &&& ties_byte_ascending(sorted)
                &&& level_leaves(sorted).len() == sorted.len()
                &&& level_leaves(sorted).to_multiset() == leaf_entries_below(
                    stream_bytes(old(chars).bits(), old(chars).pos()),
                    256,
                ).to_multiset()
                &&& shape_of(r) == merge_to_root(#[trigger] level_shapes(sorted))
            },
{
    let ghost s = stream_bytes(old(chars).bits(), old(chars).pos());
    proof {
        chars.lemma_bits_len_bound();
    }
    let leaves = compute_leaves(chars);
    proof {
        assert(count_of(s, s.last()) > 0);
        lemma_leaves_chars(leaves@, s);
        assert(level_chars(leaves@).len() >= 1) by {
            assert(level_chars(leaves@).contains(s.last()));
        }
    }
    let ghost lc0 = level_chars(leaves@);
    let ghost ll0 = level_leaves(leaves@);
    let ghost n_leaves = leaves@.len();
    proof {
        lemma_ll_singleton(leaves@);
    }
    let mut level = sort_leaves(leaves);
    let ghost sorted0 = level@;
    proof {
        lemma_no_dup_transfer(lc0, level_chars(level@));
        broadcast use vstd::seq_lib::group_to_multiset_ensures;

        assert(level_leaves(sorted0).to_multiset().len() == level_leaves(sorted0).len());
        assert(ll0.to_multiset().len() == ll0.len());
        assert(level_leaves(sorted0).len() == sorted0.len());
    }
    while level.len() != 1
        invariant
            level@.len() >= 1,
            all_wf(level@),
            level_chars(level@).to_multiset() == lc0.to_multiset(),
            level_leaves(level@).to_multiset() == ll0.to_multiset(),
            no_dup(level_chars(level@)),
            weight_sum(level@) == s.len(),
            s.len() <= usize::MAX,
            ll0 == leaf_entries_below(s, 256),
            all_wf(sorted0),
            sorted_by_weight(sorted0),
            ties_byte_ascending(sorted0),
            level_leaves(sorted0).len() == sorted0.len(),
            level_leaves(sorted0).to_multiset() == ll0.to_multiset(),
            merge_to_root(level_shapes(level@)) == merge_to_root(level_shapes(sorted0)),
            sorted0.len() >= 1,
        decreases level@.len(),
    {
        let mut next_level: Vec<Tree> = Vec::new();
        let ghost lvc = level_shapes(level@);
        build_next_level(level, &mut next_level);
        proof {
            assert(lvc.len() >= 2);
            assert(merge_to_root(lvc) == merge_to_root(merge_level(lvc, Seq::<TreeShape>::empty())));
            assert(level_shapes(next_level@) == merge_level(lvc, Seq::<TreeShape>::empty()));
        }
        level = next_level;
    }
    let ghost final_level = level@;
    let root = level.pop().unwrap();
    proof {
        assert(final_level =~= level@.push(root));
        assert(level@.len() == 0);
        lemma_level_push(level@, root);
        assert(level_chars(level@) =~= Seq::<u8>::empty());
        assert(level_chars(level@) + node_data(root).chars@ =~= node_data(root).chars@);
        assert(level_leaves(level@) =~= Seq::<(u8, usize)>::empty());
        assert(level_leaves(level@) + tree_leaves(root) =~= tree_leaves(root));
        assert(level_leaves(final_level) == tree_leaves(root));
        assert(level_shapes(final_level).len() == 1);
        assert(merge_to_root(level_shapes(final_level)) == level_shapes(final_level)[0]);
        assert(level_shapes(final_level)[0] == shape_of(root)) by {
            assert(final_level[0] == root);
        }
        assert(shape_of(root) == merge_to_root(level_shapes(sorted0)));
        assert(node_data(root).chars@.to_multiset() == lc0.to_multiset());
        lemma_no_dup_transfer(lc0, node_data(root).chars@);
        assert(1 <= node_data(root).chars@.len() <= 256) by {
            broadcast use vstd::seq_lib::group_to_multiset_ensures;

            assert(node_data(root).chars@.to_multiset().len() == node_data(root).chars@.len());
            assert(lc0.to_multiset().len() == lc0.len());
        }
        assert forall|c: u8| node_data(root).chars@.contains(c) <==> count_of(s, c) > 0 by {
            broadcast use vstd::seq_lib::group_to_multiset_ensures;

            assert(node_data(root).chars@.contains(c) <==> node_data(
                root,
            ).chars@.to_multiset().count(c) > 0);
            assert(lc0.contains(c) <==> lc0.to_multiset().count(c) > 0);
        }
    }
    root
}

proof fn lemma_count_zero(s: Seq<u8>, c: u8)
    requires
        forall|q: int| 0 <= q < s.len() ==> s[q] != c,
    ensures
        count_of(s, c) == 0,
    decreases s.len(),
{
    if s.len() > 0 {
        lemma_count_zero(s.drop_last(), c);
    }
}

proof fn lemma_count_multiset(s: Seq<u8>, c: u8)
    ensures
        count_of(s, c) == s.to_multiset().count(c),
    decreases s.len(),
{
    broadcast use vstd::multiset::group_multiset_axioms;
    broadcast use vstd::seq_lib::group_to_multiset_ensures;

    if s.len() == 0 {
        assert(!s.contains(c));
        assert(s.to_multiset().count(c) == 0);
    } else {
        lemma_count_multiset(s.drop_last(), c);
        assert(s =~= s.drop_last().push(s.last()));
        vstd::seq_lib::to_multiset_build(s.drop_last(), s.last());
        assert(s.to_multiset() == s.drop_last().to_multiset().insert(s.last()));
    }
}

proof fn lemma_count_pos(s: Seq<u8>, i: int, c: u8)
    requires
        0 <= i < s.len(),
        s[i] == c,
    ensures
        count_of(s, c) >= 1,
    decreases s.len(),
{
    if i == s.len() - 1 {
    } else {
        lemma_count_pos(s.drop_last(), i, c);
    }
}

proof fn lemma_no_dup_count(s: Seq<u8>)
    ensures
        no_dup(s) <==> (forall|c: u8| count_of(s, c) <= 1),
    decreases s.len(),
{
    if s.len() == 0 {
        assert forall|c: u8| count_of(s, c) <= 1 by {}
    } else {
        lemma_no_dup_count(s.drop_last());
        if no_dup(s) {
            assert forall|c: u8| count_of(s, c) <= 1 by {
                assert(no_dup(s.drop_last())) by {
                    assert forall|i: int, j: int|
                        0 <= i < j < s.drop_last().len() implies s.drop_last()[i] != s.drop_last()[j] by {
                        assert(s[i] != s[j]);
                        assert(s[i] == s.drop_last()[i]);
                        assert(s[j] == s.drop_last()[j]);
                    }
                }
                assert(count_of(s.drop_last(), c) <= 1);
                if s.last() == c {
                    assert(count_of(s.drop_last(), c) == 0) by {
                        assert forall|q: int| 0 <= q < s.drop_last().len() implies s.drop_last()[q]
                            != c by {
                            assert(s[q] != s[s.len() - 1]);
                        }
                        lemma_count_zero(s.drop_last(), c);
                    }
                }
            }
        }
        if forall|c: u8| count_of(s, c) <= 1 {
            assert forall|i: int, j: int| 0 <= i < j < s.len() implies s[i] != s[j] by {
                if s[i] == s[j] {
                    let c = s[i];
                    assert(count_of(s, c) >= 2) by {
                        if j == s.len() - 1 {
                            lemma_count_pos(s.drop_last(), i, c);
                        } else {
                            lemma_count_two(s.drop_last(), i, j, c);
                        }
                    }
                }
            }
        }
    }
}

proof fn lemma_count_two(s: Seq<u8>, i: int, j: int, c: u8)
    requires
        0 <= i < j < s.len(),
        s[i] == c,
        s[j] == c,
    ensures
        count_of(s, c) >= 2,
    decreases s.len(),
{
    if j == s.len() - 1 {
        lemma_count_pos(s.drop_last(), i, c);
    } else {
        lemma_count_two(s.drop_last(), i, j, c);
    }
}

/// A permutation of a string without duplicate bytes has none either.
proof fn lemma_no_dup_transfer(s1: Seq<u8>, s2: Seq<u8>)
    requires
        s1.to_multiset() == s2.to_multiset(),
        no_dup(s1),
    ensures
        no_dup(s2),
{
    lemma_no_dup_count(s1);
    lemma_no_dup_count(s2);
    assert forall|c: u8| count_of(s2, c) <= 1 by {
        lemma_count_multiset(s1, c);
        lemma_count_multiset(s2, c);
    }
}

proof fn lemma_leaves_chars(ts: Seq<Tree>, s: Seq<u8>)
    requires
        leaves_describe(ts, s),
    ensures
        level_chars(ts).len() == ts.len(),
        forall|k: int| 0 <= k < ts.len() ==> level_chars(ts)[k] == node_data(#[trigger] ts[k]).chars@[0],
        no_dup(level_chars(ts)),
        all_wf(ts),
        forall|c: u8| level_chars(ts).contains(c) <==> count_of(s, c) > 0,
{
    lemma_lc_singleton(ts);
    let lc = level_chars(ts);
    assert forall|i: int, j: int| 0 <= i < j < lc.len() implies lc[i] != lc[j] by {
        assert(lc[i] == node_data(ts[i]).chars@[0]);
        assert(lc[j] == node_data(ts[j]).chars@[0]);
        assert(node_data(ts[i]).chars@[0] < node_data(ts[j]).chars@[0]);
    }
    assert forall|c: u8| level_chars(ts).contains(c) <==> count_of(s, c) > 0 by {
        if level_chars(ts).contains(c) {
            let k = choose|k: int| 0 <= k < level_chars(ts).len() && level_chars(ts)[k] == c;
            assert(node_data(ts[k]).chars@[0] == c);
            assert(count_of(s, c) > 0);
        }
        if count_of(s, c) > 0 {
            let k = choose|k: int| 0 <= k < ts.len() && node_data(#[trigger] ts[k]).chars@[0] == c;
            assert(level_chars(ts)[k] == c);
            assert(level_chars(ts).contains(c));
        }
    }
    assert forall|k: int| 0 <= k < ts.len() implies wf_tree(#[trigger] ts[k]) by {
        assert(leaf_shape(ts[k]));
    }
}

proof fn lemma_ll_singleton(ts: Seq<Tree>)
    requires
        forall|k: int| 0 <= k < ts.len() ==> leaf_shape(#[trigger] ts[k]),
    ensures
        level_leaves(ts).len() == ts.len(),
    decreases ts.len(),
{
    if ts.len() > 0 {
        lemma_ll_singleton(ts.drop_last());
        assert(leaf_shape(ts.last())) by {
            assert(ts[ts.len() - 1] == ts.last());
        }
    }
}

proof fn lemma_lc_singleton(ts: Seq<Tree>)
    requires
        forall|k: int| 0 <= k < ts.len() ==> leaf_shape(#[trigger] ts[k]),
    ensures
        level_chars(ts).len() == ts.len(),
        forall|k: int| 0 <= k < ts.len() ==> level_chars(ts)[k] == node_data(#[trigger] ts[k]).chars@[0],
    decreases ts.len(),
{
    if ts.len() > 0 {
        lemma_lc_singleton(ts.drop_last());
        assert forall|k: int| 0 <= k < ts.len() implies level_chars(ts)[k] == node_data(
            #[trigger] ts[k],
        ).chars@[0] by {
            if k < ts.len() - 1 {
                assert(ts.drop_last()[k] == ts[k]);
                assert(level_chars(ts)[k] == level_chars(ts.drop_last())[k]);
            } else {
                assert(level_chars(ts)[k] == node_data(ts.last()).chars@[0]);
            }
        }
    }
}

/// A leaf holding exactly one byte value.
pub open spec fn leaf_shape(t: Tree) -> bool {
    t is Leaf && node_data(t).chars@.len() == 1
}

/// The leaves describe the byte string `s`: one leaf per distinct byte
/// value of `s`, in ascending byte order, weighted by occurrence count.
pub open spec fn leaves_describe(ts: Seq<Tree>, s: Seq<u8>) -> bool {
    &&& forall|k: int|
        0 <= k < ts.len() ==> leaf_shape(#[trigger] ts[k]) && count_of(s, node_data(ts[k]).chars@[0])
            == node_data(ts[k]).weight && node_data(ts[k]).weight > 0
    &&& forall|k1: int, k2: int|
        0 <= k1 < k2 < ts.len() ==> node_data(#[trigger] ts[k1]).chars@[0] < node_data(
            #[trigger] ts[k2],
        ).chars@[0]
    &&& forall|cc: u8|
        count_of(s, cc) > 0 ==> exists|k: int|
            0 <= k < ts.len() && node_data(#[trigger] ts[k]).chars@[0] == cc
}

proof fn lemma_stream_bytes_index(bits: Seq<bool>, pos: int, i: int)
    requires
        0 <= pos,
        0 <= i < (bits.len() - pos) / 8,
    ensures
        stream_bytes(bits, pos)[i] == byte_of_bits(bits.subrange(pos + 8 * i, pos + 8 * i + 8)),
{
}

proof fn lemma_stream_bytes_len_bound(bits: Seq<bool>, pos: int)
    requires
        0 <= pos <= bits.len(),
    ensures
        pos + 8 * stream_bytes(bits, pos).len() <= bits.len(),
{
}

proof fn lemma_count_le_len(s: Seq<u8>, c: u8)
    ensures
        count_of(s, c) <= s.len(),
    decreases s.len(),
{
    if s.len() > 0 {
        lemma_count_le_len(s.drop_last(), c);
    }
}

/// The bits of a code, least significant first.
pub open spec fn code_bits(c: Code) -> Seq<bool> {
    Seq::new(c.length as nat, |i: int| bit8(c.data, i))
}

/// A usable dictionary code: one to eight bits, with the unused high bits
/// of `data` clear.
pub open spec fn code_wf(c: Code) -> bool {
    &&& 1 <= c.length <= 8
    &&& forall|i: int| c.length <= i < 8 ==> !bit8(c.data, i)
}

/// The root-to-leaf path of byte value `c`: `false` steps left, `true`
/// steps right, first step first.
pub open spec fn path_of(t: Tree, c: u8) -> Seq<bool>
    decreases t,
{
    match t {
        Tree::Leaf(_) => Seq::empty(),
        Tree::Node(_, l, r) => {
            if node_data(*l).chars@.contains(c) {
                seq![false] + path_of(*l, c)
            } else {
                seq![true] + path_of(*r, c)
            }
        },
    }
}

/// Derives the code of byte value `ch` by walking the tree from the root;
/// fails if the path is longer than the eight bits the format can hold.
pub fn compute_code(ch: u8, tree: &Tree) -> (r: Option<Code>)
    requires
        wf_tree(*tree),
        node_data(*tree).chars@.contains(ch),
    ensures
        path_of(*tree, ch).len() <= 8 ==> (r matches Some(code) && code.length == path_of(
            *tree,
            ch,
        ).len() && code_bits(code) == path_of(*tree, ch) && (forall|i: int|
            code.length <= i < 8 ==> !bit8(code.data, i))),
        path_of(*tree, ch).len() > 8 ==> r == None::<Code>,
{
    let mut cur = tree;
    let mut length: u8 = 0;
    let mut data: u8 = 0;
    let ghost full_path = path_of(*tree, ch);
    proof {
        crate::bits::lemma_zero_bits2();
        assert(full_path.take(0) =~= Seq::<bool>::empty());
        assert(Seq::<bool>::empty() + path_of(*cur, ch) =~= path_of(*cur, ch));
    }
    loop
        invariant_except_break
            wf_tree(*cur),
            node_data(*cur).chars@.contains(ch),
            0 <= length <= 8,
            length as int <= full_path.len(),
            full_path == path_of(*tree, ch),
            full_path == full_path.take(length as int) + path_of(*cur, ch),
            forall|i: int| 0 <= i < length ==> #[trigger] bit8(data, i) == full_path[i],
            forall|i: int| length <= i ==> !(#[trigger] bit8(data, i)),
        ensures
            0 <= length <= 8,
            cur is Leaf,
            full_path.len() == length,
            forall|i: int| 0 <= i < length ==> #[trigger] bit8(data, i) == full_path[i],
            forall|i: int| length <= i ==> !(#[trigger] bit8(data, i)),
        decreases height(*cur),
    {
        match cur {
            Tree::Leaf(_) => {
                proof {
                    assert(path_of(*cur, ch) =~= Seq::<bool>::empty());
                    assert(full_path =~= full_path.take(length as int));
                }
                break ;
            },
            Tree::Node(_, l, r) => {
                proof {
                    if node_data(**l).chars@.contains(ch) {
                        assert(path_of(*cur, ch) == seq![false] + path_of(**l, ch));
                    } else {
                        assert(path_of(*cur, ch) == seq![true] + path_of(**r, ch));
                    }
                    assert(path_of(*cur, ch).len() >= 1);
                    assert(full_path.len() == length + path_of(*cur, ch).len());
                }
                if length == 8 {
                    proof {
                        assert(full_path.len() >= length + 1);
                    }
                    return None;
                }
                let go_left = contains_byte(&l.data().chars, ch);
                proof {
                    lemma_height_child(*cur);
                    if !node_data(**l).chars@.contains(ch) {
                        assert(node_data(*cur).chars@ == node_data(**l).chars@ + node_data(
                            **r,
                        ).chars@);
                        let k = choose|k: int|
                            0 <= k < node_data(*cur).chars@.len() && node_data(*cur).chars@[k]
                                == ch;
                        assert(node_data(**r).chars@.contains(ch)) by {
                            assert(k >= node_data(**l).chars@.len());
                            assert(node_data(**r).chars@[k - node_data(**l).chars@.len()] == ch);
                        }
                    }
                }
                let ghost len0 = length as int;
                let ghost data0 = data;
                if go_left {
                    proof {
                        assert(path_of(*cur, ch) == seq![false] + path_of(**l, ch));
                        assert(full_path[len0] == false);
                        assert(full_path.take(len0 + 1) =~= full_path.take(len0).push(false));
                        assert(full_path.take(len0 + 1) + path_of(**l, ch) =~= full_path.take(
                            len0,
                        ) + path_of(*cur, ch));
                    }
                    cur = l;
                } else {
                    let bit: u8 = 1u8 << length;
                    let ghost nd = data | bit;
                    data = data | bit;
                    proof {
                        crate::bits::lemma_or_bit_set2(data0, length, data);
                        assert(path_of(*cur, ch) == seq![true] + path_of(**r, ch));
                        assert(full_path[len0] == true);
                        assert(full_path.take(len0 + 1) =~= full_path.take(len0).push(true));
                        assert(full_path.take(len0 + 1) + path_of(**r, ch) =~= full_path.take(
                            len0,
                        ) + path_of(*cur, ch));
                    }
                    cur = r;
                }
                length = length + 1;
            },
        }
    }
    let code = Code { length, data };
    proof {
        assert(code_bits(code) =~= full_path);
    }
    Some(code)
}

/// The height of a tree: a leaf has height zero.
pub open spec fn height(t: Tree) -> nat
    decreases t,
{
    match t {
        Tree::Leaf(_) => 0,
        Tree::Node(_, l, r) => 1 + if height(*l) >= height(*r) {
            height(*l)
        } else {
            height(*r)
        },
    }
}

proof fn lemma_height_child(t: Tree)
    requires
        t is Node,
    ensures
        t matches Tree::Node(_, l, r) && (height(*l) < height(t)) && (height(*r) < height(t)),
{
}


/// The code assigned to byte value `c`, if any: first matching entry.
pub open spec fn lookup_code(es: Seq<(u8, Code)>, c: u8) -> Option<Code>
    decreases es.len(),
{
    if es.len() == 0 {
        None
    } else if es[0].0 == c {
        Some(es[0].1)
    } else {
        lookup_code(es.drop_first(), c)
    }
}

/// The byte value a code decodes to, if any. The last matching entry
/// wins: a later header record carrying an already-seen code overrides the
/// earlier one.
pub open spec fn lookup_char(es: Seq<(Code, u8)>, k: Code) -> Option<u8>
    decreases es.len(),
{
    if es.len() == 0 {
        None
    } else if es.last().0 == k {
        Some(es.last().1)
    } else {
        lookup_char(es.drop_last(), k)
    }
}

/// The byte-value-to-code dictionary of one compression session.
pub struct CharsToCodes {
    pub entries: Vec<(u8, Code)>,
}

impl CharsToCodes {
    /// The code of byte value `c`, if the dictionary holds one.
    pub fn get(&self, c: u8) -> (r: Option<Code>)
        ensures
            r == lookup_code(self.entries@, c),
    {
        let mut k: usize = 0;
        proof {
            assert(self.entries@.skip(0) =~= self.entries@);
        }
        while k < self.entries.len()
            invariant
                0 <= k <= self.entries@.len(),
                lookup_code(self.entries@, c) == lookup_code(self.entries@.skip(k as int), c),
            decreases self.entries@.len() - k,
        {
            proof {
                assert(self.entries@.skip(k as int)[0] == self.entries@[k as int]);
                assert(self.entries@.skip(k as int).drop_first() =~= self.entries@.skip(k + 1));
            }
            if self.entries[k].0 == c {
                return Some(self.entries[k].1);
            }
            k = k + 1;
        }
        proof {
            assert(self.entries@.skip(self.entries@.len() as int) =~= Seq::<(u8, Code)>::empty());
        }
        None
    }
}

/// The code-to-byte-value dictionary of one decompression session.
pub struct CodesToChars {
    pub entries: Vec<(Code, u8)>,
}

impl CodesToChars {
    /// The byte value of `k`, if the dictionary holds that code; of two
    /// records with one code, the later one decides.
    pub fn get(&self, k0: Code) -> (r: Option<u8>)
        ensures
            r == lookup_char(self.entries@, k0),
    {
        let mut k: usize = self.entries.len();
        proof {
            assert(self.entries@.take(k as int) =~= self.entries@);
        }
        while k > 0
            invariant
                0 <= k <= self.entries@.len(),
                lookup_char(self.entries@, k0) == lookup_char(self.entries@.take(k as int), k0),
            decreases k,
        {
            k = k - 1;
            proof {
                assert(self.entries@.take(k + 1).last() == self.entries@[k as int]);
                assert(self.entries@.take(k + 1).drop_last() =~= self.entries@.take(k as int));
            }
            if self.entries[k].0 == k0 {
                return Some(self.entries[k].1);
            }
        }
        proof {
            assert(self.entries@.take(0) =~= Seq::<(Code, u8)>::empty());
        }
        None
    }
}

/// Derives the dictionary of a built tree: one code per byte value at the
/// root, in the root's order; fails if any path is longer than eight bits.
pub fn build_dictionary(tree: &Tree) -> (r: Option<CharsToCodes>)
    requires
        wf_tree(*tree),
    ensures
        (r matches Some(d) && d.entries@.len() == node_data(*tree).chars@.len() && (forall|k: int|
            0 <= k < d.entries@.len() ==> (#[trigger] d.entries@[k]).0 == node_data(
                *tree,
            ).chars@[k] && d.entries@[k].1.length == path_of(*tree, node_data(*tree).chars@[k]).len()
                && code_bits(d.entries@[k].1) == path_of(*tree, node_data(*tree).chars@[k]) && (
            forall|i: int|
                d.entries@[k].1.length <= i < 8 ==> !bit8(d.entries@[k].1.data, i)))) <==> (
        forall|k: int|
            0 <= k < node_data(*tree).chars@.len() ==> path_of(
                *tree,
                #[trigger] node_data(*tree).chars@[k],
            ).len() <= 8),
        r is None <==> (exists|k: int|
            0 <= k < node_data(*tree).chars@.len() && path_of(
                *tree,
                #[trigger] node_data(*tree).chars@[k],
            ).len() > 8),
{
    let chars = &tree.data().chars;
    let mut entries: Vec<(u8, Code)> = Vec::new();
    let mut k: usize = 0;
    while k < chars.len()
        invariant
            0 <= k <= chars@.len(),
            chars@ == node_data(*tree).chars@,
            wf_tree(*tree),
            entries@.len() == k,
            forall|q: int|
                0 <= q < k ==> (#[trigger] entries@[q]).0 == chars@[q] && entries@[q].1.length
                    == path_of(*tree, chars@[q]).len() && code_bits(entries@[q].1) == path_of(
                    *tree,
                    chars@[q],
                ) && (forall|i: int|
                    entries@[q].1.length <= i < 8 ==> !bit8(entries@[q].1.data, i)),
            forall|q: int| 0 <= q < k ==> path_of(*tree, #[trigger] chars@[q]).len() <= 8,
        decreases chars@.len() - k,
    {
        let ch = chars[k];
        proof {
            assert(node_data(*tree).chars@.contains(ch)) by {
                assert(node_data(*tree).chars@[k as int] == ch);
            }
        }
        let code = compute_code(ch, tree);
        match code {
            Some(code) => {
                entries.push((ch, code));
            },
            None => {
                return None;
            },
        }
        k = k + 1;
    }
    Some(CharsToCodes { entries })
}

/// The serialized bits of the dictionary entries, three bytes per entry:
/// code length, code data, byte value.
pub open spec fn entries_bits(es: Seq<(u8, Code)>) -> Seq<bool>
    decreases es.len(),
{
    if es.len() == 0 {
        Seq::empty()
    } else {
        entries_bits(es.drop_last()) + byte_bits(es.last().1.length) + byte_bits(es.last().1.data)
            + byte_bits(es.last().0)
    }
}

/// The serialized bits of a whole dictionary: one byte holding one less
/// than the entry count, then the entries.
pub open spec fn dict_bits(es: Seq<(u8, Code)>) -> Seq<bool> {
    byte_bits((es.len() - 1) as u8) + entries_bits(es)
}

/// Writes the dictionary header: the entry count less one as a single
/// byte, then three bytes per entry.
pub fn write_dictionary(output: &mut BitWriter, chars_to_codes: &CharsToCodes)
    requires
        1 <= chars_to_codes.entries@.len() <= 256,
    ensures
        final(output)@ == old(output)@ + dict_bits(chars_to_codes.entries@),
{
    let ghost w0 = output@;
    let ghost es = chars_to_codes.entries@;
    let max_index = (chars_to_codes.entries.len() - 1) as u8;
    output.write_byte(max_index);
    let mut k: usize = 0;
    proof {
        assert(entries_bits(es.take(0)) =~= Seq::<bool>::empty());
        assert(w0 + byte_bits(max_index) + entries_bits(es.take(0)) =~= w0 + byte_bits(max_index));
    }
    while k < chars_to_codes.entries.len()
        invariant
            0 <= k <= es.len(),
            es == chars_to_codes.entries@,
            1 <= es.len() <= 256,
            max_index as int == es.len() - 1,
            output@ == w0 + byte_bits(max_index) + entries_bits(es.take(k as int)),
        decreases es.len() - k,
    {
        let (ch, code) = chars_to_codes.entries[k];
        output.write_byte(code.length);
        output.write_byte(code.data);
        output.write_byte(ch);
        proof {
            assert(es.take(k + 1).drop_last() =~= es.take(k as int));
            assert(es.take(k + 1).last() == es[k as int]);
            assert(output@ =~= w0 + byte_bits(max_index) + entries_bits(es.take(k + 1)));
        }
        k = k + 1;
    }
    proof {
        assert(es.take(es.len() as int) =~= es);
    }
}

/// The payload bits of a byte string: each byte's code in order, least
/// significant bit of each code first.
pub open spec fn encode_bits(s: Seq<u8>, es: Seq<(u8, Code)>) -> Seq<bool>
    decreases s.len(),
{
    if s.len() == 0 {
        Seq::empty()
    } else {
        encode_bits(s.drop_last(), es) + (match lookup_code(es, s.last()) {
            Some(code) => code_bits(code),
            None => Seq::empty(),
        })
    }
}

proof fn lemma_lookup_length(es: Seq<(u8, Code)>, c: u8)
    requires
        forall|k: int| 0 <= k < es.len() ==> (#[trigger] es[k]).1.length <= 8,
        lookup_code(es, c) is Some,
    ensures
        lookup_code(es, c).unwrap().length <= 8,
    decreases es.len(),
{
    if es.len() > 0 && es[0].0 != c {
        assert forall|k: int| 0 <= k < es.drop_first().len() implies (#[trigger] es.drop_first()[k]).1.length
            <= 8 by {
            assert(es.drop_first()[k] == es[k + 1]);
        }
        lemma_lookup_length(es.drop_first(), c);
    }
}

/// Rewinds the input to its start and writes the code of every byte of
/// the stream to the output; gives back the number of payload bits
/// written.
pub fn write_compressed(input: &mut BitReader, output: &mut BitWriter, chars_to_codes: &CharsToCodes) -> (r: usize)
    requires
        old(input).wf(),
        old(input).bits().len() <= usize::MAX / 8,
        forall|k: int|
            0 <= k < chars_to_codes.entries@.len() ==> (#[trigger] chars_to_codes.entries@[k]).1.length
                <= 8,
        forall|c: u8|
            count_of(stream_bytes(old(input).bits(), 0), c) > 0 ==> lookup_code(
                chars_to_codes.entries@,
                c,
            ) is Some,
    ensures
        final(input).wf(),
        final(input).bits() == old(input).bits(),
        final(output)@ == old(output)@ + encode_bits(
            stream_bytes(old(input).bits(), 0),
            chars_to_codes.entries@,
        ),
        r == encode_bits(stream_bytes(old(input).bits(), 0), chars_to_codes.entries@).len(),
        final(input).pos() == 8 * (old(input).bits().len() / 8),
{
    let ghost bits = old(input).bits();
    let ghost s = stream_bytes(bits, 0);
    let ghost es = chars_to_codes.entries@;
    let ghost w0 = output@;
    let seek = input.set_position(0);
    proof {
        input.lemma_bits_len_bound();
        assert(seek is Ok);
    }
    let mut bits_written: usize = 0;
    let mut m: usize = 0;
    let ghost mut done: Seq<u8> = Seq::empty();
    proof {
        assert(done =~= s.take(0));
        assert(encode_bits(done, es) =~= Seq::<bool>::empty());
        assert(w0 + encode_bits(done, es) =~= w0);
    }
    loop
        invariant_except_break
            input.wf(),
            input.bits() == bits,
            bits.len() <= usize::MAX / 8,
            input.pos() == 8 * m,
            0 <= m <= s.len(),
            s == stream_bytes(bits, 0),
            es == chars_to_codes.entries@,
            done == s.take(m as int),
            forall|c: u8| count_of(s, c) > 0 ==> lookup_code(es, c) is Some,
            forall|k: int| 0 <= k < es.len() ==> (#[trigger] es[k]).1.length <= 8,
            output@ == w0 + encode_bits(done, es),
            bits_written == encode_bits(done, es).len(),
            bits_written <= 8 * m,
        ensures
            input.wf(),
            input.bits() == bits,
            input.pos() == 8 * (bits.len() / 8),
            output@ == w0 + encode_bits(s, es),
            bits_written == encode_bits(s, es).len(),
        decreases bits.len() - input.pos(),
    {
        let next = input.read_byte();
        match next {
            Some(b) => {
                proof {
                    lemma_stream_bytes_index(bits, 0, m as int);
                    crate::bits::lemma_byte_of_bits_roundtrip(
                        b,
                        bits.subrange(8 * m, 8 * m + 8),
                    );
                    assert(b == s[m as int]);
                    lemma_count_pos(s, m as int, b);
                }
                let code = chars_to_codes.get(b).unwrap();
                proof {
                    lemma_lookup_length(es, b);
                }
                let ghost done2 = done.push(b);
                proof {
                    assert(done2.drop_last() =~= done);
                    assert(done2 =~= s.take(m + 1));
                    assert(encode_bits(done2, es) == encode_bits(done, es) + code_bits(code));
                }
                let mut i: u8 = 0;
                let ghost wmid = output@;
                while i < code.length
                    invariant
                        0 <= i <= code.length,
                        code.length <= 8,
                        output@ == wmid + code_bits(code).take(i as int),
                    decreases code.length - i,
                {
                    let bitval = (code.data >> i) & 1u8 == 1u8;
                    output.write_bit(bitval);
                    proof {
                        assert(code_bits(code)[i as int] == bit8(code.data, i as int));
                        assert(wmid + code_bits(code).take(i + 1) =~= (wmid + code_bits(
                            code,
                        ).take(i as int)).push(bit8(code.data, i as int)));
                    }
                    i = i + 1;
                }
                proof {
                    assert(code_bits(code).take(code.length as int) =~= code_bits(code));
                    assert(output@ =~= w0 + encode_bits(done2, es));
                    assert(encode_bits(done2, es).len() == bits_written + code.length);
                    done = done2;
                }
                bits_written = bits_written + code.length as usize;
                m = m + 1;
            },
            None => {
                proof {
                    assert(bits.len() - input.pos() < 8);
                    assert(m == bits.len() / 8);
                    assert(done =~= s);
                }
                break ;
            },
        }
    }
    bits_written
}

/// The code accumulated from a run of bits, least significant bit first.
pub open spec fn code_of_bits(bs: Seq<bool>) -> Code {
    Code { length: bs.len() as u8, data: byte_of_bits(bs) }
}

/// The shortest run of one to eight bits at the head of `w` that is a
/// dictionary code, starting the search at run length `l`.
pub open spec fn first_match(w: Seq<bool>, es: Seq<(Code, u8)>, l: int) -> Option<(u8, int)>
    decreases 9 - l,
{
    if l > 8 || l > w.len() || l < 1 {
        None
    } else {
        match lookup_char(es, code_of_bits(w.take(l))) {
            Some(ch) => Some((ch, l)),
            None => first_match(w, es, l + 1),
        }
    }
}

/// A found match starts no earlier than the search start and fits within
/// eight bits and the string.
pub proof fn lemma_first_match_bounds2(w: Seq<bool>, es: Seq<(Code, u8)>, l: int)
    requires
        1 <= l <= 9,
        first_match(w, es, l) is Some,
    ensures
        l <= first_match(w, es, l).unwrap().1 <= 8,
        first_match(w, es, l).unwrap().1 <= w.len(),
    decreases 9 - l,
{
    if !(l > 8 || l > w.len() || l < 1) && lookup_char(es, code_of_bits(w.take(l))) is None {
        lemma_first_match_bounds2(w, es, l + 1);
    }
}

/// The bytes decoded from a bit string by repeatedly taking the shortest
/// run of bits that is a dictionary code; decoding stops at the first run
/// of bits that matches no code.
pub open spec fn spec_decode(w: Seq<bool>, es: Seq<(Code, u8)>) -> Seq<u8>
    decreases w.len(),
{
    match first_match(w, es, 1) {
        None => Seq::empty(),
        Some((ch, l)) => {
            if 1 <= l <= w.len() {
                seq![ch] + spec_decode(w.skip(l), es)
            } else {
                seq![ch]
            }
        },
    }
}

/// Reads bits one at a time, accumulating a candidate code, until the
/// accumulated code is in the dictionary; gives back its byte value. Gives
/// back `None` either when the bits run out mid-code (cursor at the end of
/// the stream) or when eight accumulated bits match no code, the longest
/// code the format can hold (cursor eight bits past where it started).
pub fn read_char(input: &mut BitReader, codes_to_chars: &CodesToChars) -> (r: Option<u8>)
    requires
        old(input).wf(),
    ensures
        final(input).wf(),
        final(input).bits() == old(input).bits(),
        match first_match(
            old(input).bits().skip(old(input).pos()),
            codes_to_chars.entries@,
            1,
        ) {
            Some((ch, l)) => r == Some(ch) && final(input).pos() == old(input).pos() + l,
            None => r == None::<u8> && final(input).pos() == (if old(input).pos() + 8 <= old(
                input,
            ).bits().len() {
                old(input).pos() + 8
            } else {
                old(input).bits().len() as int
            }),
        },
{
    let ghost w = old(input).bits().skip(old(input).pos());
    let ghost es = codes_to_chars.entries@;
    let ghost p0 = old(input).pos();
    let mut length: u8 = 0;
    let mut data: u8 = 0;
    proof {
        crate::bits::lemma_zero_bits2();
        input.lemma_bits_len_bound();
    }
    while length < 8
        invariant
            input.wf(),
            input.bits() == old(input).bits(),
            w == old(input).bits().skip(p0),
            p0 == old(input).pos(),
            es == codes_to_chars.entries@,
            0 <= length <= 8,
            0 <= p0 <= input.bits().len(),
            input.pos() == p0 + length,
            length <= w.len(),
            forall|i: int| 0 <= i < length ==> #[trigger] bit8(data, i) == w[i],
            forall|i: int| length <= i ==> !(#[trigger] bit8(data, i)),
            first_match(w, es, 1) == first_match(w, es, length + 1),
        decreases 8 - length,
    {
        let next = input.read_bit();
        match next {
            Some(bitval) => {
                proof {
                    assert(w[length as int] == old(input).bits()[p0 + length]);
                }
                let ghost d0 = data;
                if bitval {
                    data = data | (1u8 << length);
                    proof {
                        crate::bits::lemma_or_bit_set2(d0, length, data);
                    }
                }
                length = length + 1;
                let code = Code { length, data };
                proof {
                    let taken = w.take(length as int);
                    crate::bits::lemma_byte_of_bits_bit(taken);
                    assert(byte_bits(data) =~= byte_bits(byte_of_bits(taken)));
                    crate::bits::lemma_byte_bits_injective(data, byte_of_bits(taken));
                    assert(code == code_of_bits(taken));
                }
                let found = codes_to_chars.get(code);
                match found {
                    Some(ch) => {
                        proof {
                            assert(first_match(w, es, length as int) == Some((ch, length as int)));
                        }
                        return Some(ch);
                    },
                    None => {
                        proof {
                            assert(first_match(w, es, length as int) == first_match(
                                w,
                                es,
                                length + 1,
                            ));
                        }
                    },
                }
            },
            None => {
                proof {
                    assert(w.len() == length);
                    assert(first_match(w, es, length + 1) is None);
                }
                return None;
            },
        }
    }
    proof {
        assert(first_match(w, es, 9) is None);
    }
    None
}

/// Decodes the rest of the input, one code at a time, appending each byte
/// to the output until the bits run out mid-code; trailing bits that match
/// no code are discarded. Gives back eight times the number of bytes
/// written.
pub fn read_compressed(input: &mut BitReader, output: &mut Vec<u8>, codes_to_chars: &CodesToChars) -> (r: usize)
    requires
        old(input).wf(),
        old(input).bits().len() <= usize::MAX / 8,
    ensures
        final(input).wf(),
        final(input).bits() == old(input).bits(),
        final(output)@ == old(output)@ + spec_decode(
            old(input).bits().skip(old(input).pos()),
            codes_to_chars.entries@,
        ),
        r == 8 * spec_decode(
            old(input).bits().skip(old(input).pos()),
            codes_to_chars.entries@,
        ).len(),
{
    let ghost bits = old(input).bits();
    let ghost es = codes_to_chars.entries@;
    let ghost p0 = old(input).pos();
    let ghost w0 = bits.skip(p0);
    let ghost out0 = old(output)@;
    let mut read_bytes: usize = 0;
    proof {
        input.lemma_bits_len_bound();
        assert(out0 + spec_decode(w0, es).take(0) =~= out0);
    }
    loop
        invariant_except_break
            input.wf(),
            input.bits() == bits,
            bits.len() <= usize::MAX / 8,
            es == codes_to_chars.entries@,
            w0 == bits.skip(p0),
            0 <= p0 <= input.pos() <= bits.len(),
            read_bytes <= input.pos() - p0,
            output@ == out0 + spec_decode(w0, es).take(read_bytes as int),
            read_bytes <= spec_decode(w0, es).len(),
            spec_decode(bits.skip(input.pos()), es) == spec_decode(w0, es).skip(read_bytes as int),
        ensures
            input.wf(),
            input.bits() == bits,
            output@ == out0 + spec_decode(w0, es),
            read_bytes == spec_decode(w0, es).len(),
            8 * read_bytes <= usize::MAX,
        decreases spec_decode(w0, es).len() - read_bytes,
    {
        let ghost pos_before = input.pos();
        let ghost w_cur = bits.skip(pos_before);
        let next = read_char(input, codes_to_chars);
        match next {
            Some(ch) => {
                proof {
                    let fm = first_match(w_cur, es, 1);
                    lemma_first_match_bounds2(w_cur, es, 1);
                    let l = fm.unwrap().1;
                    assert(spec_decode(w_cur, es) == seq![ch] + spec_decode(w_cur.skip(l), es));
                    assert(w_cur.skip(l) =~= bits.skip(pos_before + l));
                    assert(spec_decode(w_cur, es) == spec_decode(w0, es).skip(read_bytes as int));
                    lemma_decode_skip_step(spec_decode(w0, es), read_bytes as int, ch, spec_decode(
                        bits.skip(pos_before + l),
                        es,
                    ));
                }
                output.push(ch);
                read_bytes = read_bytes + 1;
            },
            None => {
                proof {
                    assert(first_match(w_cur, es, 1) is None);
                    assert(spec_decode(w_cur, es) =~= Seq::<u8>::empty());
                    assert(spec_decode(w0, es).skip(read_bytes as int) =~= Seq::<u8>::empty());
                    assert(spec_decode(w0, es).take(read_bytes as int) =~= spec_decode(w0, es));
                }
                break ;
            },
        }
    }
    read_bytes * 8
}

/// If the part of a sequence after `n` starts with `ch` followed by
/// `rest`, then one more step of the prefix picks up `ch`.
pub(crate) proof fn lemma_decode_skip_step(s: Seq<u8>, n: int, ch: u8, rest: Seq<u8>)
    requires
        0 <= n <= s.len(),
        s.skip(n) == seq![ch] + rest,
    ensures
        n + 1 <= s.len(),
        s.take(n + 1) == s.take(n).push(ch),
        s.skip(n + 1) == rest,
{
    assert(s.skip(n).len() == seq![ch].len() + rest.len());
    assert(s[n] == s.skip(n)[0]);
    assert(s.take(n + 1) =~= s.take(n).push(s[n]));
    assert(s.skip(n + 1) =~= rest) by {
        assert forall|q: int| 0 <= q < s.len() - n - 1 implies s.skip(n + 1)[q] == rest[q] by {
            assert(s.skip(n + 1)[q] == s[n + 1 + q]);
            assert(s.skip(n)[q + 1] == s[n + 1 + q]);
            assert((seq![ch] + rest)[q + 1] == rest[q]);
            assert(s.skip(n)[q + 1] == (seq![ch] + rest)[q + 1]);
        }
    }
}

/// The serialized dictionary at the head of a bit string, one byte
/// holding the entry count less one: the parsed code table and the
/// position just past it, or `None` if the bits run out inside it.
pub open spec fn parse_dict(bits: Seq<bool>, pos: int) -> Option<(Seq<(Code, u8)>, int)> {
    if pos + 8 > bits.len() {
        None
    } else {
        let cnt = byte_of_bits(bits.subrange(pos, pos + 8)) + 1;
        if pos + 8 + 24 * cnt > bits.len() {
            None
        } else {
            Some((parsed_entries(bits, pos + 8, cnt as nat), pos + 8 + 24 * cnt))
        }
    }
}

/// `cnt` three-byte records parsed from `bits` at `pos`: code length,
/// code data, byte value.
pub open spec fn parsed_entries(bits: Seq<bool>, pos: int, cnt: nat) -> Seq<(Code, u8)> {
    Seq::new(
        cnt,
        |i: int|
            (
                Code {
                    length: byte_of_bits(bits.subrange(pos + 24 * i, pos + 24 * i + 8)),
                    data: byte_of_bits(bits.subrange(pos + 24 * i + 8, pos + 24 * i + 16)),
                },
                byte_of_bits(bits.subrange(pos + 24 * i + 16, pos + 24 * i + 24)),
            ),
    )
}

/// Reads the dictionary header written by `write_dictionary`: the entry
/// count less one, then three bytes per entry; fails without a usable
/// dictionary if the input ends inside the header.
pub fn read_dictionary(input: &mut BitReader) -> (r: Result<CodesToChars, HuffmanError>)
    requires
        old(input).wf(),
    ensures
        final(input).wf(),
        final(input).bits() == old(input).bits(),
        match parse_dict(old(input).bits(), old(input).pos()) {
            Some((es, p2)) => (r matches Ok(d) && d.entries@ == es && final(input).pos() == p2),
            None => r == Err::<CodesToChars, HuffmanError>(HuffmanError::InvalidInput),
        },
{
    let ghost bits = old(input).bits();
    let ghost p0 = old(input).pos();
    proof {
        input.lemma_bits_len_bound();
    }
    let max_index = match input.read_byte() {
        Some(b) => b,
        None => {
            return Err(HuffmanError::InvalidInput);
        },
    };
    proof {
        crate::bits::lemma_byte_of_bits_roundtrip(max_index, bits.subrange(p0, p0 + 8));
    }
    let len: usize = max_index as usize + 1;
    let ghost cnt = len as int;
    let mut entries: Vec<(Code, u8)> = Vec::new();
    let mut k: usize = 0;
    while k < len
        invariant
            input.wf(),
            input.bits() == bits,
            bits == old(input).bits(),
            p0 == old(input).pos(),
            0 <= p0,
            p0 + 8 <= bits.len(),
            cnt == len as int,
            1 <= cnt <= 256,
            cnt == byte_of_bits(bits.subrange(p0, p0 + 8)) + 1,
            0 <= k <= len,
            input.pos() == p0 + 8 + 24 * k,
            entries@.len() == k,
            forall|q: int|
                0 <= q < k ==> #[trigger] entries@[q] == parsed_entries(bits, p0 + 8, cnt as nat)[q],
        decreases len - k,
    {
        let code_length = match input.read_byte() {
            Some(b) => b,
            None => {
                proof {
                    lemma_parse_dict_short(bits, p0, cnt, 8 + 24 * k);
                }
                return Err(HuffmanError::InvalidInput);
            },
        };
        let code_data = match input.read_byte() {
            Some(b) => b,
            None => {
                proof {
                    lemma_parse_dict_short(bits, p0, cnt, 8 + 24 * k + 8);
                }
                return Err(HuffmanError::InvalidInput);
            },
        };
        let ch = match input.read_byte() {
            Some(b) => b,
            None => {
                proof {
                    lemma_parse_dict_short(bits, p0, cnt, 8 + 24 * k + 16);
                }
                return Err(HuffmanError::InvalidInput);
            },
        };
        proof {
            crate::bits::lemma_byte_of_bits_roundtrip(
                code_length,
                bits.subrange(p0 + 8 + 24 * k, p0 + 8 + 24 * k + 8),
            );
            crate::bits::lemma_byte_of_bits_roundtrip(
                code_data,
                bits.subrange(p0 + 8 + 24 * k + 8, p0 + 8 + 24 * k + 16),
            );
            crate::bits::lemma_byte_of_bits_roundtrip(
                ch,
                bits.subrange(p0 + 8 + 24 * k + 16, p0 + 8 + 24 * k + 24),
            );
        }
        entries.push((Code { length: code_length, data: code_data }, ch));
        k = k + 1;
    }
    proof {
        assert(entries@ =~= parsed_entries(bits, p0 + 8, cnt as nat));
        input.lemma_bits_len_bound();
        assert(p0 + 8 + 24 * cnt <= bits.len());
        assert(parse_dict(bits, p0) == Some((parsed_entries(bits, p0 + 8, cnt as nat), p0 + 8 + 24
            * cnt)));
    }
    Ok(CodesToChars { entries })
}

/// If the bits end before `off` more bits past `pos`, the dictionary does
/// not parse.
proof fn lemma_parse_dict_short(bits: Seq<bool>, pos: int, cnt: int, off: int)
    requires
        pos + 8 <= bits.len(),
        cnt == byte_of_bits(bits.subrange(pos, pos + 8)) + 1,
        off <= 8 + 24 * (cnt - 1) + 16,
        pos + off + 8 > bits.len(),
    ensures
        parse_dict(bits, pos) is None,
{
}

/// Reads the dictionary and then decodes the whole payload, appending the
/// decoded bytes to the output; gives back eight times their number.
pub fn decompress(input: &mut BitReader, output: &mut Vec<u8>) -> (r: Result<usize, HuffmanError>)
    requires
        old(input).wf(),
        old(input).bits().len() <= usize::MAX / 8,
    ensures
        final(input).wf(),
        final(input).bits() == old(input).bits(),
        match parse_dict(old(input).bits(), old(input).pos()) {
            Some((es, p2)) => (r matches Ok(n) && final(output)@ == old(output)@ + spec_decode(
                old(input).bits().skip(p2),
                es,
            ) && n == 8 * spec_decode(old(input).bits().skip(p2), es).len()),
            None => r == Err::<usize, HuffmanError>(HuffmanError::InvalidInput) && final(output)@
                == old(output)@,
        },
{
    let codes_to_chars = match read_dictionary(input) {
        Ok(d) => d,
        Err(e) => {
            return Err(e);
        },
    };
    let n = read_compressed(input, output, &codes_to_chars);
    Ok(n)
}

proof fn lemma_lookup_exists(es: Seq<(u8, Code)>, c: u8)
    requires
        exists|k: int| 0 <= k < es.len() && (#[trigger] es[k]).0 == c,
    ensures
        lookup_code(es, c) is Some,
    decreases es.len(),
{
    if es[0].0 != c {
        let k = choose|k: int| 0 <= k < es.len() && (#[trigger] es[k]).0 == c;
        assert(es.drop_first()[k - 1] == es[k]);
        lemma_lookup_exists(es.drop_first(), c);
    }
}

/// A byte with a positive count occurs at some index.
proof fn lemma_count_index(s: Seq<u8>, c: u8)
    requires
        count_of(s, c) > 0,
    ensures
        exists|q: int| 0 <= q < s.len() && s[q] == c,
    decreases s.len(),
{
    if s.last() == c {
        assert(s[s.len() - 1] == c);
    } else {
        lemma_count_index(s.drop_last(), c);
        let q = choose|q: int| 0 <= q < s.drop_last().len() && s.drop_last()[q] == c;
        assert(s[q] == c);
    }
}

/// A well-formed tree covers at least one byte value.
proof fn lemma_wf_chars_nonempty(t: Tree)
    requires
        wf_tree(t),
    ensures
        node_data(t).chars@.len() >= 1,
    decreases t,
{
    if let Tree::Node(_, l, _) = t {
        lemma_wf_chars_nonempty(*l);
    }
}

/// A root-to-leaf path is strictly shorter than the number of byte values
/// at the root: each step leaves a non-empty sibling behind.
proof fn lemma_path_shorter_than_chars(t: Tree, c: u8)
    requires
        wf_tree(t),
        node_data(t).chars@.contains(c),
    ensures
        path_of(t, c).len() + 1 <= node_data(t).chars@.len(),
    decreases t,
{
    if let Tree::Node(d, l, r) = t {
        lemma_child_membership(node_data(*l).chars@, node_data(*r).chars@, c);
        if node_data(*l).chars@.contains(c) {
            lemma_path_shorter_than_chars(*l, c);
            lemma_wf_chars_nonempty(*r);
        } else {
            assert(node_data(*r).chars@.contains(c)) by {
                let k = choose|k: int| 0 <= k < d.chars@.len() && d.chars@[k] == c;
                assert(k >= node_data(*l).chars@.len());
                assert(node_data(*r).chars@[k - node_data(*l).chars@.len()] == c);
            }
            lemma_path_shorter_than_chars(*r, c);
            lemma_wf_chars_nonempty(*l);
        }
    }
}

/// With codes of at most eight bits, the payload is at most eight bits
/// per input byte.
proof fn lemma_encode_len_bound(s: Seq<u8>, es: Seq<(u8, Code)>)
    requires
        forall|k: int| 0 <= k < es.len() ==> (#[trigger] es[k]).1.length <= 8,
    ensures
        encode_bits(s, es).len() <= 8 * s.len(),
    decreases s.len(),
{
    if s.len() > 0 {
        lemma_encode_len_bound(s.drop_last(), es);
        if lookup_code(es, s.last()) is Some {
            lemma_lookup_length(es, s.last());
        }
    }
}

/// With one-bit codes throughout, the payload is exactly one bit per
/// input byte.
proof fn lemma_encode_len_unit(s: Seq<u8>, es: Seq<(u8, Code)>)
    requires
        forall|c: u8|
            s.contains(c) ==> ((#[trigger] lookup_code(es, c)) matches Some(k) && k.length == 1),
    ensures
        encode_bits(s, es).len() == s.len(),
    decreases s.len(),
{
    if s.len() > 0 {
        assert(s.contains(s.last())) by {
            assert(s[s.len() - 1] == s.last());
        }
        assert forall|c: u8|
            s.drop_last().contains(c) implies ((#[trigger] lookup_code(es, c)) matches Some(k)
            && k.length == 1) by {
            let q = choose|q: int| 0 <= q < s.drop_last().len() && s.drop_last()[q] == c;
            assert(s[q] == c);
            assert(s.contains(c));
        }
        lemma_encode_len_unit(s.drop_last(), es);
    }
}

/// The dictionary written for an empty or single-valued stream: one entry
/// with a one-bit, all-zero code.
pub open spec fn trivial_dictionary(c: u8) -> Seq<(u8, Code)> {
    seq![(c, Code { length: 1, data: 0 })]
}

/// Compresses the whole input: builds the coding tree over the byte
/// stream, writes the dictionary, rewinds, and writes every byte's code.
/// Gives back the number of payload bits written, or fails, with nothing
/// written, when some byte would need a code longer than eight bits.
pub fn compress(input: &mut BitReader, output: &mut BitWriter) -> (r: Result<usize, HuffmanError>)
    requires
        old(input).wf(),
        old(input).pos() == 0,
        old(input).bits().len() <= usize::MAX / 8,
    ensures
        final(input).wf(),
        final(input).bits() == old(input).bits(),
        (r matches Ok(n) ==> exists|es: Seq<(u8, Code)>|
            {
                &&& 1 <= es.len() <= 256
                &&& (forall|i: int| 0 <= i < es.len() ==> code_wf((#[trigger] es[i]).1))
                &&& (forall|i: int, j: int|
                    0 <= i < es.len() && 0 <= j < es.len() && i != j ==> !code_bits(
                        (#[trigger] es[i]).1,
                    ).is_prefix_of(code_bits((#[trigger] es[j]).1)))
                &&& (forall|c: u8|
                    count_of(stream_bytes(old(input).bits(), 0), c) > 0 ==> lookup_code(es, c) is Some)
                &&& final(output)@ == old(output)@ + dict_bits(es) + #[trigger] encode_bits(
                    stream_bytes(old(input).bits(), 0),
                    es,
                )
                &&& n == encode_bits(stream_bytes(old(input).bits(), 0), es).len()
            }),
        r is Err ==> r == Err::<usize, HuffmanError>(HuffmanError::CodeTooLong) && final(output)@
            == old(output)@,
        r is Err ==> exists|cs: Seq<u8>|
            cs.len() >= 10 && no_dup(cs) && (forall|i: int|
                0 <= i < cs.len() ==> count_of(stream_bytes(old(input).bits(), 0), #[trigger] cs[i])
                    > 0),
        r matches Ok(n) ==> n <= 8 * stream_bytes(old(input).bits(), 0).len(),
        stream_bytes(old(input).bits(), 0).len() == 0 ==> r == Ok::<usize, HuffmanError>(0)
            && final(output)@ == old(output)@ + dict_bits(trivial_dictionary(0)),
        stream_bytes(old(input).bits(), 0).len() > 0 && (forall|i: int|
            0 <= i < stream_bytes(old(input).bits(), 0).len() ==> #[trigger] stream_bytes(
                old(input).bits(),
                0,
            )[i] == stream_bytes(old(input).bits(), 0)[0]) ==> (r matches Ok(n) && n == stream_bytes(
            old(input).bits(),
            0,
        ).len()),
        final(input).pos() == 8 * (old(input).bits().len() / 8),
{
    let ghost bits = old(input).bits();
    let ghost s = stream_bytes(bits, 0);
    proof {
        input.lemma_bits_len_bound();
    }
    if input.remaining() < 8 {
        let mut entries: Vec<(u8, Code)> = Vec::new();
        entries.push((0u8, Code { length: 1, data: 0 }));
        let trivial = CharsToCodes { entries };
        write_dictionary(output, &trivial);
        proof {
            let es = trivial.entries@;
            crate::bits::lemma_zero_bits2();
            assert(code_wf(es[0].1));
            assert(s.len() == 0);
            assert(encode_bits(s, es) =~= Seq::<bool>::empty());
            assert(old(output)@ + dict_bits(es) + encode_bits(s, es) =~= old(output)@ + dict_bits(
                es,
            ));
            assert forall|c: u8| count_of(s, c) > 0 implies lookup_code(es, c) is Some by {
                assert(count_of(s, c) == 0);
            }
            assert(es =~= trivial_dictionary(0));
            assert(bits.len() < 8);
            assert(8 * (bits.len() / 8) == 0);
        }
        return Ok(0);
    }
    let tree = build_tree(input);
    if tree.is_leaf() {
        let c = tree.data().chars[0];
        let mut entries: Vec<(u8, Code)> = Vec::new();
        entries.push((c, Code { length: 1, data: 0 }));
        let trivial = CharsToCodes { entries };
        write_dictionary(output, &trivial);
        proof {
            let es = trivial.entries@;
            crate::bits::lemma_zero_bits2();
            assert(code_wf(es[0].1));
            assert forall|cc: u8| count_of(s, cc) > 0 implies lookup_code(es, cc) is Some by {
                assert(node_data(tree).chars@.contains(cc));
                let k = choose|k: int|
                    0 <= k < node_data(tree).chars@.len() && node_data(tree).chars@[k] == cc;
                assert(k == 0);
                assert(cc == c);
                assert(es[0].0 == cc);
            }
        }
        let n = write_compressed(input, output, &trivial);
        proof {
            let es = trivial.entries@;
            assert(old(output)@ + dict_bits(es) + encode_bits(s, es) =~= (old(output)@ + dict_bits(
                es,
            )) + encode_bits(s, es));
            assert forall|cc: u8|
                s.contains(cc) implies ((#[trigger] lookup_code(es, cc)) matches Some(k)
                && k.length == 1) by {
                let q = choose|q: int| 0 <= q < s.len() && s[q] == cc;
                lemma_count_pos(s, q, cc);
                assert(node_data(tree).chars@.contains(cc));
                let k = choose|k: int|
                    0 <= k < node_data(tree).chars@.len() && node_data(tree).chars@[k] == cc;
                assert(cc == c);
            }
            lemma_encode_len_unit(s, es);
        }
        return Ok(n);
    }
    let dictionary = match build_dictionary(&tree) {
        Some(d) => d,
        None => {
            proof {
                let chars = node_data(tree).chars@;
                let k = choose|k: int|
                    0 <= k < chars.len() && path_of(tree, #[trigger] chars[k]).len() > 8;
                assert(chars.contains(chars[k])) by {
                    assert(chars[k] == chars[k]);
                }
                lemma_path_shorter_than_chars(tree, chars[k]);
                assert(chars.len() >= 10);
                assert forall|i: int| 0 <= i < chars.len() implies count_of(s, #[trigger] chars[i])
                    > 0 by {
                    assert(chars.contains(chars[i]));
                }
                assert(8 * (bits.len() / 8) == 8 * s.len());
                if s.len() > 0 && (forall|i: int| 0 <= i < s.len() ==> #[trigger] s[i] == s[0]) {
                    assert(chars[0] == s[0] && chars[1] == s[0]) by {
                        lemma_count_index(s, chars[0]);
                        lemma_count_index(s, chars[1]);
                    }
                    assert(false);
                }
            }
            return Err(HuffmanError::CodeTooLong);
        },
    };
    proof {
        let es = dictionary.entries@;
        assert forall|cc: u8| count_of(s, cc) > 0 implies lookup_code(es, cc) is Some by {
            assert(node_data(tree).chars@.contains(cc));
            let k = choose|k: int|
                0 <= k < node_data(tree).chars@.len() && node_data(tree).chars@[k] == cc;
            assert(es[k].0 == cc);
            lemma_lookup_exists(es, cc);
        }
        lemma_dictionary_prefix_free(tree, es);
        assert forall|i: int| 0 <= i < es.len() implies code_wf((#[trigger] es[i]).1) by {
            assert(node_data(tree).chars@.contains(node_data(tree).chars@[i]));
            assert(path_of(tree, node_data(tree).chars@[i]).len() >= 1) by {
                if let Tree::Node(_, l, r) = tree {
                    if node_data(*l).chars@.contains(node_data(tree).chars@[i]) {
                        assert(path_of(tree, node_data(tree).chars@[i]) == seq![false] + path_of(
                            *l,
                            node_data(tree).chars@[i],
                        ));
                    } else {
                        assert(path_of(tree, node_data(tree).chars@[i]) == seq![true] + path_of(
                            *r,
                            node_data(tree).chars@[i],
                        ));
                    }
                }
            }
        }
    }
    write_dictionary(output, &dictionary);
    let n = write_compressed(input, output, &dictionary);
    proof {
        let es = dictionary.entries@;
        assert(old(output)@ + dict_bits(es) + encode_bits(s, es) =~= (old(output)@ + dict_bits(es))
            + encode_bits(s, es));
        assert forall|k: int| 0 <= k < es.len() implies (#[trigger] es[k]).1.length <= 8 by {
            assert(code_wf(es[k].1));
        }
        lemma_encode_len_bound(s, es);
        if s.len() > 0 && (forall|i: int| 0 <= i < s.len() ==> #[trigger] s[i] == s[0]) {
            let chars = node_data(tree).chars@;
            assert(chars.len() >= 2) by {
                if let Tree::Node(_, l, r) = tree {
                    lemma_wf_chars_nonempty(*l);
                    lemma_wf_chars_nonempty(*r);
                }
            }
            assert(chars[0] == s[0] && chars[1] == s[0]) by {
                assert(chars.contains(chars[0]));
                assert(chars.contains(chars[1]));
                assert(count_of(s, chars[0]) > 0);
                assert(count_of(s, chars[1]) > 0);
                lemma_count_index(s, chars[0]);
                lemma_count_index(s, chars[1]);
            }
            assert(false);
        }
    }
    Ok(n)
}

/// A byte value at the root of a well-formed inner node lives in exactly
/// one of the two children.
proof fn lemma_child_membership(x: Seq<u8>, y: Seq<u8>, c: u8)
    requires
        no_dup(x + y),
        (x + y).contains(c),
    ensures
        x.contains(c) <==> !y.contains(c),
{
    if x.contains(c) && y.contains(c) {
        let i = choose|i: int| 0 <= i < x.len() && x[i] == c;
        let j = choose|j: int| 0 <= j < y.len() && y[j] == c;
        assert((x + y)[i] == c);
        assert((x + y)[x.len() + j] == c);
    }
    if !x.contains(c) && !y.contains(c) {
        let k = choose|k: int| 0 <= k < (x + y).len() && (x + y)[k] == c;
        if k < x.len() {
            assert(x[k] == c);
        } else {
            assert(y[k - x.len()] == c);
        }
    }
}

/// Code uniqueness and prefix-freeness at the tree level: in a
/// well-formed coding tree with at least two leaves, the root-to-leaf path
/// of one byte value is never a bit-prefix of the path of another.
pub proof fn lemma_paths_prefix_free(t: Tree, c1: u8, c2: u8)
    requires
        wf_tree(t),
        t is Node,
        node_data(t).chars@.contains(c1),
        node_data(t).chars@.contains(c2),
        c1 != c2,
    ensures
        !path_of(t, c1).is_prefix_of(path_of(t, c2)),
    decreases t,
{
    let p1 = path_of(t, c1);
    let p2 = path_of(t, c2);
    if let Tree::Node(d, l, r) = t {
        lemma_child_membership(node_data(*l).chars@, node_data(*r).chars@, c1);
        lemma_child_membership(node_data(*l).chars@, node_data(*r).chars@, c2);
        let in_l1 = node_data(*l).chars@.contains(c1);
        let in_l2 = node_data(*l).chars@.contains(c2);
        if in_l1 != in_l2 {
            assert(p1[0] != p2[0]);
            assert(!p1.is_prefix_of(p2));
        } else {
            let child = if in_l1 {
                *l
            } else {
                *r
            };
            assert(node_data(child).chars@.contains(c1));
            assert(node_data(child).chars@.contains(c2));
            if child is Leaf {
                assert(wf_tree(child));
                assert(node_data(child).chars@.len() == 1);
                assert(node_data(child).chars@[0] == c1 && node_data(child).chars@[0] == c2) by {
                    let i = choose|i: int|
                        0 <= i < node_data(child).chars@.len() && node_data(child).chars@[i] == c1;
                    assert(node_data(child).chars@[i] == c1);
                    assert(i == 0);
                    let j = choose|j: int|
                        0 <= j < node_data(child).chars@.len() && node_data(child).chars@[j] == c2;
                    assert(node_data(child).chars@[j] == c2);
                    assert(j == 0);
                }
            } else {
                lemma_paths_prefix_free(child, c1, c2);
                let q1 = path_of(child, c1);
                let q2 = path_of(child, c2);
                let b = !in_l1;
                assert(p1 == seq![b] + q1);
                assert(p2 == seq![b] + q2);
                if p1.is_prefix_of(p2) {
                    assert(q1.is_prefix_of(q2)) by {
                        assert forall|k: int| 0 <= k < q1.len() implies q1[k] == q2[k] by {
                            assert(p1[k + 1] == q1[k]);
                            assert(p2[k + 1] == q2[k]);
                            assert(p1[k + 1] == p2[k + 1]);
                        }
                        assert(q1 =~= q2.subrange(0, q1.len() as int));
                    }
                }
            }
        }
    }
}

/// Code uniqueness and prefix-freeness at the dictionary level: in a
/// dictionary whose codes are the root-to-leaf paths of a well-formed
/// coding tree with at least two leaves, no two entries carry the same
/// code, and no entry's code is a bit-prefix of a longer entry's code.
pub proof fn lemma_dictionary_prefix_free(t: Tree, es: Seq<(u8, Code)>)
    requires
        wf_tree(t),
        t is Node,
        es.len() == node_data(t).chars@.len(),
        forall|k: int|
            0 <= k < es.len() ==> (#[trigger] es[k]).0 == node_data(t).chars@[k] && code_bits(
                es[k].1,
            ) == path_of(t, node_data(t).chars@[k]),
    ensures
        forall|i: int, j: int|
            0 <= i < es.len() && 0 <= j < es.len() && i != j ==> !code_bits(
                (#[trigger] es[i]).1,
            ).is_prefix_of(code_bits((#[trigger] es[j]).1)),
        forall|i: int, j: int| 0 <= i < j < es.len() ==> (#[trigger] es[i]).1 != (#[trigger] es[j]).1,
{
    let chars = node_data(t).chars@;
    assert forall|i: int, j: int|
        0 <= i < es.len() && 0 <= j < es.len() && i != j implies !code_bits(
        (#[trigger] es[i]).1,
    ).is_prefix_of(code_bits((#[trigger] es[j]).1)) by {
        assert(chars.contains(chars[i])) by {
            assert(chars[i] == chars[i]);
        }
        assert(chars.contains(chars[j]));
        assert(chars[i] != chars[j]) by {
            if i < j {
                assert(no_dup(chars));
            }
        }
        lemma_paths_prefix_free(t, chars[i], chars[j]);
    }
    assert forall|i: int, j: int| 0 <= i < j < es.len() implies (#[trigger] es[i]).1 != (
    #[trigger] es[j]).1 by {
        if es[i].1 == es[j].1 {
            assert(code_bits(es[i].1).is_prefix_of(code_bits(es[j].1))) by {
                assert(code_bits(es[i].1) =~= code_bits(es[j].1).subrange(
                    0,
                    code_bits(es[i].1).len() as int,
                ));
            }
        }
    }
}

/// A run of at most eight bits is recovered exactly from the code
/// accumulated over it.
proof fn lemma_code_bits_of_bits(bs: Seq<bool>)
    requires
        bs.len() <= 8,
    ensures
        code_of_bits(bs).length == bs.len(),
        code_bits(code_of_bits(bs)) == bs,
{
    crate::bits::lemma_byte_of_bits_bit(bs);
    assert(code_bits(code_of_bits(bs)) =~= bs);
}

/// A usable code is recovered exactly from its own bits.
proof fn lemma_code_roundtrip(k: Code)
    requires
        code_wf(k),
    ensures
        code_of_bits(code_bits(k)) == k,
{
    crate::bits::lemma_byte_of_bits_bit(code_bits(k));
    assert(crate::bits::byte_bits(byte_of_bits(code_bits(k))) =~= crate::bits::byte_bits(k.data));
    crate::bits::lemma_byte_bits_injective(byte_of_bits(code_bits(k)), k.data);
}

proof fn lemma_lookup_code_member(es: Seq<(u8, Code)>, c: u8)
    requires
        lookup_code(es, c) is Some,
    ensures
        exists|i: int|
            0 <= i < es.len() && #[trigger] es[i] == (c, lookup_code(es, c).unwrap()),
    decreases es.len(),
{
    if es[0].0 == c {
        assert(es[0] == (c, lookup_code(es, c).unwrap()));
    } else {
        lemma_lookup_code_member(es.drop_first(), c);
        let i = choose|i: int|
            0 <= i < es.drop_first().len() && #[trigger] es.drop_first()[i] == (
                c,
                lookup_code(es.drop_first(), c).unwrap(),
            );
        assert(es[i + 1] == (c, lookup_code(es, c).unwrap()));
    }
}

proof fn lemma_first_match_exact(w: Seq<bool>, dec: Seq<(Code, u8)>, l: int, ll: int, ch: u8)
    requires
        1 <= l <= ll <= 8,
        ll <= w.len(),
        lookup_char(dec, code_of_bits(w.take(ll))) == Some(ch),
        forall|q: int| l <= q < ll ==> lookup_char(dec, code_of_bits(w.take(q))) is None,
    ensures
        first_match(w, dec, l) == Some((ch, ll)),
    decreases ll - l,
{
    if l < ll {
        lemma_first_match_exact(w, dec, l + 1, ll, ch);
    }
}

/// The decoding dictionary `dec` inverts the encoding dictionary `enc`:
/// every encoding entry's code maps back to its byte value, every usable
/// encoding code is well formed and none is a bit-prefix of another, and
/// `dec` holds no code from outside `enc`.
pub open spec fn dictionaries_invert(enc: Seq<(u8, Code)>, dec: Seq<(Code, u8)>) -> bool {
    &&& forall|i: int| 0 <= i < enc.len() ==> code_wf((#[trigger] enc[i]).1)
    &&& forall|i: int, j: int|
        0 <= i < enc.len() && 0 <= j < enc.len() && i != j ==> !code_bits(
            (#[trigger] enc[i]).1,
        ).is_prefix_of(code_bits((#[trigger] enc[j]).1))
    &&& forall|i: int|
        0 <= i < enc.len() ==> lookup_char(dec, (#[trigger] enc[i]).1) == Some(enc[i].0)
    &&& forall|k: Code|
        #[trigger] lookup_char(dec, k) is Some ==> exists|i: int|
            0 <= i < enc.len() && (#[trigger] enc[i]).1 == k
}

proof fn lemma_encode_first(s: Seq<u8>, enc: Seq<(u8, Code)>)
    requires
        s.len() > 0,
        lookup_code(enc, s[0]) is Some,
    ensures
        encode_bits(s, enc) == code_bits(lookup_code(enc, s[0]).unwrap()) + encode_bits(
            s.drop_first(),
            enc,
        ),
    decreases s.len(),
{
    if s.len() == 1 {
        assert(s.drop_last() =~= Seq::<u8>::empty());
        assert(s.drop_first() =~= Seq::<u8>::empty());
        assert(s.last() == s[0]);
        assert(code_bits(lookup_code(enc, s[0]).unwrap()) + encode_bits(s.drop_first(), enc)
            =~= encode_bits(s.drop_last(), enc) + code_bits(lookup_code(enc, s.last()).unwrap()));
    } else {
        let dl = s.drop_last();
        lemma_encode_first(dl, enc);
        assert(dl[0] == s[0]);
        assert(s.drop_first().drop_last() =~= dl.drop_first());
        assert(s.drop_first().last() == s.last());
        let k0 = code_bits(lookup_code(enc, s[0]).unwrap());
        assert(encode_bits(s, enc) == (k0 + encode_bits(dl.drop_first(), enc)) + (match lookup_code(
            enc,
            s.last(),
        ) {
            Some(code) => code_bits(code),
            None => Seq::empty(),
        }));
        assert(encode_bits(s.drop_first(), enc) == encode_bits(dl.drop_first(), enc) + (match
            lookup_code(enc, s.last()) {
            Some(code) => code_bits(code),
            None => Seq::empty(),
        }));
        assert((k0 + encode_bits(dl.drop_first(), enc)) + (match lookup_code(enc, s.last()) {
            Some(code) => code_bits(code),
            None => Seq::empty(),
        }) =~= k0 + encode_bits(s.drop_first(), enc));
    }
}

/// Round trip: decoding an encoded byte string through any pair of
/// inverse dictionaries gives the string back, and decoding then goes on
/// into whatever bits follow the payload.
pub proof fn lemma_round_trip(
    s: Seq<u8>,
    enc: Seq<(u8, Code)>,
    dec: Seq<(Code, u8)>,
    tail: Seq<bool>,
)
    requires
        dictionaries_invert(enc, dec),
        forall|c: u8| s.contains(c) ==> #[trigger] lookup_code(enc, c) is Some,
    ensures
        spec_decode(encode_bits(s, enc) + tail, dec) == s + spec_decode(tail, dec),
    decreases s.len(),
{
    if s.len() == 0 {
        assert(encode_bits(s, enc) + tail =~= tail);
        assert(s + spec_decode(tail, dec) =~= spec_decode(tail, dec));
    } else {
        let c = s[0];
        assert(s.contains(c)) by {
            assert(s[0] == c);
        }
        let k = lookup_code(enc, c).unwrap();
        lemma_lookup_code_member(enc, c);
        let i0 = choose|i: int| 0 <= i < enc.len() && #[trigger] enc[i] == (c, k);
        assert(code_wf(k));
        lemma_encode_first(s, enc);
        let w = encode_bits(s, enc) + tail;
        let kb = code_bits(k);
        assert(kb.len() == k.length);
        assert(w.take(k.length as int) =~= kb);
        lemma_code_roundtrip(k);
        assert(lookup_char(dec, code_of_bits(w.take(k.length as int))) == Some(c));
        assert forall|q: int|
            1 <= q < k.length implies lookup_char(dec, code_of_bits(#[trigger] w.take(q))) is None by {
            if lookup_char(dec, code_of_bits(w.take(q))) is Some {
                let i = choose|i: int|
                    0 <= i < enc.len() && (#[trigger] enc[i]).1 == code_of_bits(w.take(q));
                lemma_code_bits_of_bits(w.take(q));
                assert(code_bits(enc[i].1) == w.take(q));
                assert(w.take(q) =~= kb.subrange(0, q));
                assert(code_bits(enc[i].1).is_prefix_of(kb)) by {
                    assert(code_bits(enc[i].1) =~= kb.subrange(0, code_bits(enc[i].1).len() as int));
                }
                if i == i0 {
                    assert(code_bits(enc[i].1).len() == q);
                    assert(kb.len() == k.length);
                } else {
                    assert(!code_bits(enc[i].1).is_prefix_of(code_bits(enc[i0].1)));
                }
            }
        }
        lemma_first_match_exact(w, dec, 1, k.length as int, c);
        assert(first_match(w, dec, 1) == Some((c, k.length as int)));
        assert(spec_decode(w, dec) == seq![c] + spec_decode(w.skip(k.length as int), dec));
        assert(w.skip(k.length as int) =~= encode_bits(s.drop_first(), enc) + tail);
        assert forall|cc: u8|
            s.drop_first().contains(cc) implies #[trigger] lookup_code(enc, cc) is Some by {
            let q = choose|q: int| 0 <= q < s.drop_first().len() && s.drop_first()[q] == cc;
            assert(s[q + 1] == cc);
            assert(s.contains(cc));
        }
        lemma_round_trip(s.drop_first(), enc, dec, tail);
        assert(seq![c] + (s.drop_first() + spec_decode(tail, dec)) =~= s + spec_decode(tail, dec));
    }
}

/// Decoding a fixed number of symbols gives exactly that prefix of the
/// full decode, when enough symbols are there.
proof fn lemma_decode_n_take(w: Seq<bool>, dec: Seq<(Code, u8)>, n: nat)
    requires
        n <= spec_decode(w, dec).len(),
    ensures
        crate::huffman_decoder::spec_decode_n(w, dec, n) == Some(spec_decode(w, dec).take(n as int)),
    decreases n,
{
    if n == 0 {
        assert(spec_decode(w, dec).take(0) =~= Seq::<u8>::empty());
    } else {
        let fm = first_match(w, dec, 1);
        assert(fm is Some);
        lemma_first_match_bounds2(w, dec, 1);
        let ch = fm.unwrap().0;
        let l = fm.unwrap().1;
        assert(spec_decode(w, dec) == seq![ch] + spec_decode(w.skip(l), dec));
        lemma_decode_n_take(w.skip(l), dec, (n - 1) as nat);
        assert(spec_decode(w, dec).take(n as int) =~= seq![ch] + spec_decode(w.skip(l), dec).take(
            n - 1,
        ));
    }
}

/// Random-access equivalence: decoding `n` whole symbols from the bit
/// offset where the codes of `s[a..]` begin gives exactly the slice
/// `s[a..a + n]` of the full decoded stream, whatever bits follow the
/// payload.
pub proof fn lemma_random_access_window(
    s: Seq<u8>,
    enc: Seq<(u8, Code)>,
    dec: Seq<(Code, u8)>,
    tail: Seq<bool>,
    a: int,
    n: nat,
)
    requires
        dictionaries_invert(enc, dec),
        forall|c: u8| s.contains(c) ==> #[trigger] lookup_code(enc, c) is Some,
        0 <= a <= s.len(),
        a + n <= s.len(),
    ensures
        crate::huffman_decoder::spec_decode_n(encode_bits(s.skip(a), enc) + tail, dec, n) == Some(
            s.subrange(a, a + n),
        ),
{
    let suffix = s.skip(a);
    assert forall|cc: u8| suffix.contains(cc) implies #[trigger] lookup_code(enc, cc) is Some by {
        let q = choose|q: int| 0 <= q < suffix.len() && suffix[q] == cc;
        assert(s[a + q] == cc);
        assert(s.contains(cc));
    }
    lemma_round_trip(suffix, enc, dec, tail);
    let w = encode_bits(suffix, enc) + tail;
    assert(spec_decode(w, dec) == suffix + spec_decode(tail, dec));
    lemma_decode_n_take(w, dec, n);
    assert(spec_decode(w, dec).take(n as int) =~= s.subrange(a, a + n));
}

/// Idempotent dictionary read: the serialized dictionary parses to one
/// code table only, so two reads of the same bytes agree entry for entry.
pub proof fn lemma_dictionary_read_idempotent(
    bits: Seq<bool>,
    pos: int,
    es1: Seq<(Code, u8)>,
    p1: int,
    es2: Seq<(Code, u8)>,
    p2: int,
)
    requires
        parse_dict(bits, pos) == Some((es1, p1)),
        parse_dict(bits, pos) == Some((es2, p2)),
    ensures
        es1 == es2,
        p1 == p2,
{
}

/// The decoding entries that mirror the encoding entries, code first.
pub open spec fn swapped_entries(es: Seq<(u8, Code)>) -> Seq<(Code, u8)> {
    Seq::new(es.len(), |i: int| (es[i].1, es[i].0))
}

proof fn lemma_entries_bits_len(es: Seq<(u8, Code)>)
    ensures
        entries_bits(es).len() == 24 * es.len(),
    decreases es.len(),
{
    if es.len() > 0 {
        lemma_entries_bits_len(es.drop_last());
    }
}

proof fn lemma_entries_bits_at(es: Seq<(u8, Code)>, k: int)
    requires
        0 <= k < es.len(),
    ensures
        entries_bits(es).subrange(24 * k, 24 * k + 8) == byte_bits(es[k].1.length),
        entries_bits(es).subrange(24 * k + 8, 24 * k + 16) == byte_bits(es[k].1.data),
        entries_bits(es).subrange(24 * k + 16, 24 * k + 24) == byte_bits(es[k].0),
    decreases es.len(),
{
    lemma_entries_bits_len(es);
    if k == es.len() - 1 {
        lemma_entries_bits_len(es.drop_last());
        assert(entries_bits(es).subrange(24 * k, 24 * k + 8) =~= byte_bits(es[k].1.length));
        assert(entries_bits(es).subrange(24 * k + 8, 24 * k + 16) =~= byte_bits(es[k].1.data));
        assert(entries_bits(es).subrange(24 * k + 16, 24 * k + 24) =~= byte_bits(es[k].0));
    } else {
        lemma_entries_bits_at(es.drop_last(), k);
        lemma_entries_bits_len(es.drop_last());
        assert(es.drop_last()[k] == es[k]);
        assert(entries_bits(es).subrange(24 * k, 24 * k + 8) =~= entries_bits(
            es.drop_last(),
        ).subrange(24 * k, 24 * k + 8));
        assert(entries_bits(es).subrange(24 * k + 8, 24 * k + 16) =~= entries_bits(
            es.drop_last(),
        ).subrange(24 * k + 8, 24 * k + 16));
        assert(entries_bits(es).subrange(24 * k + 16, 24 * k + 24) =~= entries_bits(
            es.drop_last(),
        ).subrange(24 * k + 16, 24 * k + 24));
    }
}

proof fn lemma_lookup_char_swapped(es: Seq<(u8, Code)>, i: int)
    requires
        0 <= i < es.len(),
        forall|p: int, q: int| 0 <= p < q < es.len() ==> (#[trigger] es[p]).1 != (#[trigger] es[q]).1,
    ensures
        lookup_char(swapped_entries(es), es[i].1) == Some(es[i].0),
    decreases es.len(),
{
    let sw = swapped_entries(es);
    assert(sw.last() == (es.last().1, es.last().0));
    if i == es.len() - 1 {
    } else {
        assert(es.last().1 != es[i].1) by {
            assert((es[i]).1 != (es[es.len() - 1]).1);
        }
        assert(sw.drop_last() =~= swapped_entries(es.drop_last()));
        assert forall|p: int, q: int|
            0 <= p < q < es.drop_last().len() implies (#[trigger] es.drop_last()[p]).1 != (
        #[trigger] es.drop_last()[q]).1 by {
            assert(es.drop_last()[p] == es[p]);
            assert(es.drop_last()[q] == es[q]);
        }
        lemma_lookup_char_swapped(es.drop_last(), i);
        assert(es.drop_last()[i] == es[i]);
    }
}

proof fn lemma_lookup_char_swapped_member(es: Seq<(u8, Code)>, k: Code)
    requires
        lookup_char(swapped_entries(es), k) is Some,
    ensures
        exists|i: int| 0 <= i < es.len() && (#[trigger] es[i]).1 == k,
    decreases es.len(),
{
    let sw = swapped_entries(es);
    assert(es.len() > 0);
    assert(sw.last() == (es.last().1, es.last().0));
    if es.last().1 == k {
        assert((es[es.len() - 1]).1 == k);
    } else {
        assert(sw.drop_last() =~= swapped_entries(es.drop_last()));
        lemma_lookup_char_swapped_member(es.drop_last(), k);
        let i = choose|i: int| 0 <= i < es.drop_last().len() && (#[trigger] es.drop_last()[i]).1 == k;
        assert(es[i] == es.drop_last()[i]);
        assert((es[i]).1 == k);
    }
}

/// The dictionary header written by `write_dictionary` parses back, in
/// front of any payload, to the code-first mirror of what was written; and
/// for a dictionary of well-formed, mutually prefix-free codes that mirror
/// inverts the dictionary, so `lemma_round_trip` applies to the whole
/// serialized stream.
pub proof fn lemma_dictionary_serialization_inverts(es: Seq<(u8, Code)>, rest: Seq<bool>)
    requires
        1 <= es.len() <= 256,
        forall|i: int| 0 <= i < es.len() ==> code_wf((#[trigger] es[i]).1),
        forall|i: int, j: int|
            0 <= i < es.len() && 0 <= j < es.len() && i != j ==> !code_bits(
                (#[trigger] es[i]).1,
            ).is_prefix_of(code_bits((#[trigger] es[j]).1)),
    ensures
        parse_dict(dict_bits(es) + rest, 0) == Some(
            (swapped_entries(es), 8 + 24 * es.len() as int),
        ),
        dictionaries_invert(es, swapped_entries(es)),
{
    let bits = dict_bits(es) + rest;
    lemma_entries_bits_len(es);
    let mi = (es.len() - 1) as u8;
    assert(bits.subrange(0, 8) =~= byte_bits(mi));
    crate::bits::lemma_byte_of_byte_bits(mi);
    assert(byte_of_bits(bits.subrange(0, 8)) + 1 == es.len());
    assert forall|k: int| 0 <= k < es.len() implies parsed_entries(bits, 8, es.len() as nat)[k]
        == swapped_entries(es)[k] by {
        lemma_entries_bits_at(es, k);
        assert(bits.subrange(8 + 24 * k, 8 + 24 * k + 8) =~= entries_bits(es).subrange(
            24 * k,
            24 * k + 8,
        ));
        assert(bits.subrange(8 + 24 * k + 8, 8 + 24 * k + 16) =~= entries_bits(es).subrange(
            24 * k + 8,
            24 * k + 16,
        ));
        assert(bits.subrange(8 + 24 * k + 16, 8 + 24 * k + 24) =~= entries_bits(es).subrange(
            24 * k + 16,
            24 * k + 24,
        ));
        crate::bits::lemma_byte_of_byte_bits(es[k].1.length);
        crate::bits::lemma_byte_of_byte_bits(es[k].1.data);
        crate::bits::lemma_byte_of_byte_bits(es[k].0);
    }
    assert(parsed_entries(bits, 8, es.len() as nat) =~= swapped_entries(es));
    assert forall|p: int, q: int| 0 <= p < q < es.len() implies (#[trigger] es[p]).1 != (
    #[trigger] es[q]).1 by {
        if es[p].1 == es[q].1 {
            assert(code_bits(es[p].1).is_prefix_of(code_bits(es[q].1))) by {
                assert(code_bits(es[p].1) =~= code_bits(es[q].1).subrange(
                    0,
                    code_bits(es[p].1).len() as int,
                ));
            }
        }
    }
    assert forall|i: int|
        0 <= i < es.len() implies lookup_char(swapped_entries(es), (#[trigger] es[i]).1) == Some(
        es[i].0,
    ) by {
        lemma_lookup_char_swapped(es, i);
    }
    assert forall|k: Code| #[trigger]
        lookup_char(swapped_entries(es), k) is Some implies exists|i: int|
        0 <= i < es.len() && (#[trigger] es[i]).1 == k by {
        lemma_lookup_char_swapped_member(es, k);
    }
}

} // verus!
