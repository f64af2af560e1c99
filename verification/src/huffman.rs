use vstd::prelude::*;
use vstd::arithmetic::power2::*;
use vstd::bits::*;
use vstd::seq_lib::group_to_multiset_ensures;
use vstd::multiset::Multiset;

use crate::CodecError;
use crate::bitstream::{BitReader, BitWriter, low_bits, bits_val, saturating_window};

verus! {

broadcast use group_to_multiset_ensures;

/// Widest alphabet a table can describe: bytes plus an extended range for
/// length/offset symbols.
pub const HUFFMAN_MAX_SYMBOLS: usize = 512;

/// Bits used on the wire for a symbol and for the entry count.
const HUFFMAN_MAX_SYMBOLS_SIZE: usize = 9;

/// Bits used on the wire for the symbol count of a chunk.
pub const HUFFMAN_CHUNK_SIZE_BITS: usize = 32;

/// Longest code length a table may assign; also sizes the decode lookup.
pub const MAX_CODE_LEN: usize = 12;

/// Largest admissible normalized Kraft sum: `2^MAX_CODE_LEN`, a full code.
pub const KRAFT_MAX: usize = 4096;

/// Default chunk length for chunked encoding.
pub const HUFFMAN_DEFAULT_CHUNK_SIZE: usize = 1 << 18;

pub type HuffmanSymbol = u16;

pub type HuffmanPath = u32;

/// One table entry: a symbol and its code length (depth in the tree).
#[derive(Clone, Copy, Debug, PartialEq, Eq, Structural)]
pub struct HuffmanTableData {
    pub symbol: HuffmanSymbol,
    pub level: usize,
}

/// Entry order: by level, then by symbol.
pub open spec fn td_le(a: HuffmanTableData, b: HuffmanTableData) -> bool {
    a.level < b.level || (a.level == b.level && a.symbol <= b.symbol)
}

/// Every level is a usable code length.
pub open spec fn levels_wf(t: Seq<HuffmanTableData>) -> bool {
    forall|i: int| 0 <= i < t.len() ==> 1 <= (#[trigger] t[i]).level <= MAX_CODE_LEN
}

/// Levels never decrease along the table.
pub open spec fn levels_sorted(t: Seq<HuffmanTableData>) -> bool {
    forall|i: int, j: int| 0 <= i < j < t.len() ==> (#[trigger] t[i]).level <= (#[trigger] t[j]).level
}

/// The normalized Kraft sum: each entry contributes `2^(MAX_CODE_LEN - level)`
/// codeword slots out of `2^MAX_CODE_LEN`.
pub open spec fn kraft_sum(t: Seq<HuffmanTableData>) -> int
    decreases t.len(),
{
    if t.len() == 0 {
        0
    } else {
        kraft_sum(t.drop_last()) + pow2((MAX_CODE_LEN - t.last().level) as nat)
    }
}

/// The canonical code of entry `i`: codes of one length count up by one, and
/// the first code of a longer length is the previous code plus one, shifted
/// left by the length difference.
pub open spec fn canonical_code(t: Seq<HuffmanTableData>, i: int) -> int
    decreases i,
{
    if i <= 0 {
        0
    } else if t[i].level == t[i - 1].level {
        canonical_code(t, i - 1) + 1
    } else {
        (canonical_code(t, i - 1) + 1) * pow2((t[i].level - t[i - 1].level) as nat)
    }
}

/// Whether some entry carries symbol `s`.
pub open spec fn table_has_symbol(t: Seq<HuffmanTableData>, s: HuffmanSymbol) -> bool {
    exists|i: int| 0 <= i < t.len() && (#[trigger] t[i]).symbol == s
}

proof fn lemma_kraft_sum_nonneg(t: Seq<HuffmanTableData>)
    ensures
        kraft_sum(t) >= 0,
    decreases t.len(),
{
    if t.len() > 0 {
        lemma_kraft_sum_nonneg(t.drop_last());
        lemma_pow2_pos((MAX_CODE_LEN - t.last().level) as nat);
    }
}

/// A prefix never outweighs the whole sum.
proof fn lemma_kraft_prefix(t: Seq<HuffmanTableData>, n: int)
    requires
        0 <= n <= t.len(),
    ensures
        kraft_sum(t.take(n)) <= kraft_sum(t),
    decreases t.len() - n,
{
    if n == t.len() {
        assert(t.take(n) =~= t);
    } else {
        lemma_kraft_prefix(t, n + 1);
        assert(t.take(n + 1).drop_last() =~= t.take(n));
        lemma_pow2_pos((MAX_CODE_LEN - t.take(n + 1).last().level) as nat);
    }
}

/// Each entry's own contribution is at most the whole sum.
proof fn lemma_kraft_term_le_sum(t: Seq<HuffmanTableData>, i: int)
    requires
        0 <= i < t.len(),
    ensures
        pow2((MAX_CODE_LEN - t[i].level) as nat) <= kraft_sum(t),
    decreases t.len(),
{
    lemma_kraft_sum_nonneg(t.drop_last());
    if i == t.len() - 1 {
    } else {
        lemma_kraft_term_le_sum(t.drop_last(), i);
        lemma_pow2_pos((MAX_CODE_LEN - t.last().level) as nat);
    }
}

/// With every level at least one, the sum is at most `len * 2^(MAX_CODE_LEN-1)`.
proof fn lemma_kraft_sum_bound(t: Seq<HuffmanTableData>)
    requires
        levels_wf(t),
    ensures
        kraft_sum(t) <= t.len() * 2048,
    decreases t.len(),
{
    if t.len() > 0 {
        assert(levels_wf(t.drop_last())) by {
            assert(forall|i: int|
                0 <= i < t.len() - 1 ==> t.drop_last()[i] == #[trigger] t[i]);
        }
        lemma_kraft_sum_bound(t.drop_last());
        lemma2_to64();
        lemma_pow2_strictly_increases((MAX_CODE_LEN - t.last().level) as nat, 12);
        assert((t.len() - 1) * 2048 + 2048 == t.len() * 2048) by (nonlinear_arith);
    }
}

/// Changing one entry's level moves the sum by the difference of the two
/// contributions.
proof fn lemma_kraft_sum_update(t: Seq<HuffmanTableData>, i: int, e: HuffmanTableData)
    requires
        0 <= i < t.len(),
        1 <= t[i].level <= MAX_CODE_LEN,
        1 <= e.level <= MAX_CODE_LEN,
    ensures
        kraft_sum(t.update(i, e)) == kraft_sum(t) - pow2((MAX_CODE_LEN - t[i].level) as nat)
            + pow2((MAX_CODE_LEN - e.level) as nat),
    decreases t.len(),
{
    if i == t.len() - 1 {
        assert(t.update(i, e).drop_last() =~= t.drop_last());
    } else {
        assert(t.update(i, e).drop_last() =~= t.drop_last().update(i, e));
        lemma_kraft_sum_update(t.drop_last(), i, e);
    }
}

/// When every level is maximal, each entry contributes exactly one slot.
proof fn lemma_kraft_sum_all_max(t: Seq<HuffmanTableData>)
    requires
        forall|i: int| 0 <= i < t.len() ==> (#[trigger] t[i]).level == MAX_CODE_LEN,
    ensures
        kraft_sum(t) == t.len(),
    decreases t.len(),
{
    if t.len() > 0 {
        lemma_kraft_sum_all_max(t.drop_last());
        lemma2_to64();
    }
}

/// The canonical interval fact: entry `i`'s code, placed at the top of a
/// `MAX_CODE_LEN`-bit window, starts exactly at the Kraft mass of the entries
/// before it.
proof fn lemma_canonical_interval(t: Seq<HuffmanTableData>, i: int)
    requires
        levels_wf(t),
        levels_sorted(t),
        0 <= i < t.len(),
    ensures
        canonical_code(t, i) * pow2((MAX_CODE_LEN - t[i].level) as nat) == kraft_sum(t.take(i)),
        canonical_code(t, i) >= 0,
    decreases i,
{
    lemma2_to64();
    if i == 0 {
        assert(t.take(0) =~= Seq::<HuffmanTableData>::empty());
    } else {
        lemma_canonical_interval(t, i - 1);
        let c = canonical_code(t, i - 1);
        let l1 = t[i - 1].level as int;
        let l2 = t[i].level as int;
        assert(t.take(i).drop_last() =~= t.take(i - 1));
        assert(kraft_sum(t.take(i)) == kraft_sum(t.take(i - 1)) + pow2((MAX_CODE_LEN - l1) as nat));
        assert((c + 1) * pow2((MAX_CODE_LEN - l1) as nat) == c * pow2((MAX_CODE_LEN - l1) as nat)
            + pow2((MAX_CODE_LEN - l1) as nat)) by (nonlinear_arith);
        if l2 == l1 {
        } else {
            assert(l1 <= l2);
            lemma_pow2_adds((l2 - l1) as nat, (MAX_CODE_LEN - l2) as nat);
            assert(((c + 1) * pow2((l2 - l1) as nat)) * pow2((MAX_CODE_LEN - l2) as nat) == (c + 1)
                * (pow2((l2 - l1) as nat) * pow2((MAX_CODE_LEN - l2) as nat))) by (nonlinear_arith);
        }
        lemma_pow2_pos((MAX_CODE_LEN - l2) as nat);
        assert(canonical_code(t, i) >= 0) by (nonlinear_arith)
            requires
                canonical_code(t, i) * pow2((MAX_CODE_LEN - t[i].level) as nat) == kraft_sum(
                    t.take(i),
                ),
                kraft_sum(t.take(i)) >= 0,
                pow2((MAX_CODE_LEN - t[i].level) as nat) > 0,
        {
            lemma_kraft_sum_nonneg(t.take(i));
        }
    }
}

/// Under the Kraft bound every canonical code fits in its own length.
proof fn lemma_canonical_code_bound(t: Seq<HuffmanTableData>, i: int)
    requires
        levels_wf(t),
        levels_sorted(t),
        kraft_sum(t) <= 4096,
        0 <= i < t.len(),
    ensures
        0 <= canonical_code(t, i) < pow2(t[i].level as nat),
        canonical_code(t, i) * pow2((MAX_CODE_LEN - t[i].level) as nat) + pow2(
            (MAX_CODE_LEN - t[i].level) as nat,
        ) <= kraft_sum(t.take(i + 1)),
{
    lemma_canonical_interval(t, i);
    assert(t.take(i + 1).drop_last() =~= t.take(i));
    lemma_kraft_prefix(t, i + 1);
    let l = t[i].level as int;
    let c = canonical_code(t, i);
    let w = pow2((MAX_CODE_LEN - l) as nat) as int;
    lemma_pow2_adds(l as nat, (MAX_CODE_LEN - l) as nat);
    lemma2_to64();
    assert(pow2(l as nat) * w == 4096);
    assert(c * w + w <= 4096);
    assert(c < pow2(l as nat)) by (nonlinear_arith)
        requires
            c * w + w <= 4096,
            pow2(l as nat) * w == 4096,
            w > 0,
            c >= 0,
    ;
}

/// A node of the transient tree: a leaf with a symbol, or an inner node with
/// two children; always with the weight of its subtree.
#[derive(Debug)]
pub enum HuffmanNodeData {
    Node(Box<HuffmanNode>, Box<HuffmanNode>),
    Leaf(HuffmanSymbol),
}

#[derive(Debug)]
pub struct HuffmanNode {
    pub freq: u64,
    pub data: HuffmanNodeData,
}

/// Number of nodes in a subtree.
pub open spec fn node_count(n: HuffmanNode) -> int
    decreases n,
{
    match n.data {
        HuffmanNodeData::Leaf(_) => 1,
        HuffmanNodeData::Node(l, r) => 1 + node_count(*l) + node_count(*r),
    }
}

/// Height of a subtree; a leaf has height zero.
pub open spec fn node_height(n: HuffmanNode) -> int
    decreases n,
{
    match n.data {
        HuffmanNodeData::Leaf(_) => 0,
        HuffmanNodeData::Node(l, r) => 1 + if node_height(*l) >= node_height(*r) {
            node_height(*l)
        } else {
            node_height(*r)
        },
    }
}

/// Whether symbol `s` sits at some leaf of the subtree.
pub open spec fn node_has_sym(n: HuffmanNode, s: HuffmanSymbol) -> bool
    decreases n,
{
    match n.data {
        HuffmanNodeData::Leaf(x) => x == s,
        HuffmanNodeData::Node(l, r) => node_has_sym(*l, s) || node_has_sym(*r, s),
    }
}

/// The leaves of a subtree rooted at depth `level`, in depth-first order.
pub open spec fn spec_leaves(n: HuffmanNode, level: int) -> Seq<HuffmanTableData>
    decreases n,
{
    match n.data {
        HuffmanNodeData::Leaf(x) => seq![HuffmanTableData { symbol: x, level: level as usize }],
        HuffmanNodeData::Node(l, r) => spec_leaves(*l, level + 1) + spec_leaves(*r, level + 1),
    }
}

proof fn lemma_node_count_pos(n: HuffmanNode)
    ensures
        node_count(n) >= 1,
        0 <= node_height(n) < node_count(n),
    decreases n,
{
    match n.data {
        HuffmanNodeData::Leaf(_) => {},
        HuffmanNodeData::Node(l, r) => {
            lemma_node_count_pos(*l);
            lemma_node_count_pos(*r);
        },
    }
}

/// What `spec_leaves` produces: at most one entry per node, every entry's
/// level between the root depth and depth plus height, and exactly the
/// subtree's symbols.
proof fn lemma_spec_leaves(n: HuffmanNode, level: int)
    requires
        0 <= level,
        level + node_height(n) <= usize::MAX,
    ensures
        spec_leaves(n, level).len() <= node_count(n),
        spec_leaves(n, level).len() >= 1,
        forall|i: int|
            0 <= i < spec_leaves(n, level).len() ==> level <= (#[trigger] spec_leaves(
                n,
                level,
            )[i]).level <= level + node_height(n),
        forall|s: HuffmanSymbol| table_has_symbol(spec_leaves(n, level), s) <==> node_has_sym(n, s),
    decreases n,
{
    match n.data {
        HuffmanNodeData::Leaf(x) => {
            assert(spec_leaves(n, level)[0].symbol == x);
        },
        HuffmanNodeData::Node(l, r) => {
            lemma_node_count_pos(*l);
            lemma_node_count_pos(*r);
            lemma_spec_leaves(*l, level + 1);
            lemma_spec_leaves(*r, level + 1);
            let ls = spec_leaves(*l, level + 1);
            let rs = spec_leaves(*r, level + 1);
            assert(spec_leaves(n, level) == ls + rs);
            assert forall|s: HuffmanSymbol|
                table_has_symbol(ls + rs, s) <==> node_has_sym(n, s) by {
                assert(node_has_sym(n, s) == (node_has_sym(*l, s) || node_has_sym(*r, s)));
                if node_has_sym(*l, s) {
                    let i = choose|i: int| 0 <= i < ls.len() && (#[trigger] ls[i]).symbol == s;
                    assert(0 <= i < (ls + rs).len() && (ls + rs)[i].symbol == s);
                    assert(table_has_symbol(ls + rs, s));
                }
                if node_has_sym(*r, s) {
                    let i = choose|i: int| 0 <= i < rs.len() && (#[trigger] rs[i]).symbol == s;
                    assert(0 <= ls.len() + i < (ls + rs).len() && (ls + rs)[ls.len() + i].symbol
                        == s);
                    assert(table_has_symbol(ls + rs, s));
                }
                if table_has_symbol(ls + rs, s) {
                    let i = choose|i: int|
                        0 <= i < (ls + rs).len() && (#[trigger] (ls + rs)[i]).symbol == s;
                    if i < ls.len() {
                        assert(ls[i].symbol == s);
                        assert(table_has_symbol(ls, s));
                    } else {
                        assert(rs[i - ls.len()].symbol == s);
                        assert(table_has_symbol(rs, s));
                    }
                    assert(node_has_sym(n, s));
                }
            }
        },
    }
}

impl HuffmanNode {
    /// A leaf for `symbol` with weight `freq`.
    pub fn leaf(symbol: HuffmanSymbol, freq: u64) -> (r: Self)
        ensures
            r.freq == freq,
            r.data matches HuffmanNodeData::Leaf(s) && s == symbol,
            node_count(r) == 1,
    {
        HuffmanNode { freq, data: HuffmanNodeData::Leaf(symbol) }
    }

    /// An inner node over two finished subtrees; its weight is their sum.
    pub fn node(left: HuffmanNode, right: HuffmanNode) -> (r: Self)
        requires
            left.freq + right.freq <= u64::MAX,
        ensures
            r.freq == left.freq + right.freq,
            node_count(r) == 1 + node_count(left) + node_count(right),
            node_leaf_count(r) == node_leaf_count(left) + node_leaf_count(right),
            forall|s: HuffmanSymbol|
                node_has_sym(r, s) <==> node_has_sym(left, s) || node_has_sym(right, s),
            spec_leaves(r, 0) == spec_leaves(left, 1) + spec_leaves(right, 1),
    {
        let freq = left.freq + right.freq;
        HuffmanNode { freq, data: HuffmanNodeData::Node(Box::new(left), Box::new(right)) }
    }

    fn leaves_helper(&self, leaves: &mut Vec<HuffmanTableData>, level: usize)
        requires
            level + node_height(*self) <= usize::MAX,
        ensures
            final(leaves)@ == old(leaves)@ + spec_leaves(*self, level as int),
        decreases *self,
    {
        match &self.data {
            HuffmanNodeData::Node(left, right) => {
                proof {
                    lemma_node_count_pos(**left);
                    lemma_node_count_pos(**right);
                    assert(node_height(**left) < node_height(*self));
                    assert(node_height(**right) < node_height(*self));
                }
                left.leaves_helper(leaves, level + 1);
                right.leaves_helper(leaves, level + 1);
                proof {
                    assert(old(leaves)@ + spec_leaves(**left, level + 1) + spec_leaves(
                        **right,
                        level + 1,
                    ) =~= old(leaves)@ + spec_leaves(*self, level as int));
                }
            },
            HuffmanNodeData::Leaf(symbol) => {
                let s: HuffmanSymbol = *symbol;
                leaves.push(HuffmanTableData { symbol: s, level });
                proof {
                    assert(old(leaves)@ + spec_leaves(*self, level as int) =~= old(
                        leaves,
                    )@.push(HuffmanTableData { symbol: s, level }));
                }
            },
        }
    }

    /// Appends the table entries of this tree: a lone leaf is written at
    /// depth one so that its symbol still gets a one-bit code.
    pub fn leaves(&self, leaves: &mut Vec<HuffmanTableData>)
        requires
            node_height(*self) + 1 <= usize::MAX,
        ensures
            final(leaves)@ == old(leaves)@ + (match self.data {
                HuffmanNodeData::Leaf(s) => seq![HuffmanTableData { symbol: s, level: 1 }],
                HuffmanNodeData::Node(_, _) => spec_leaves(*self, 0),
            }),
    {
        match &self.data {
            HuffmanNodeData::Leaf(symbol) => {
                let s: HuffmanSymbol = *symbol;
                leaves.push(HuffmanTableData { symbol: s, level: 1 });
                proof {
                    assert(old(leaves)@ + seq![HuffmanTableData { symbol: s, level: 1 }] =~= old(
                        leaves,
                    )@.push(HuffmanTableData { symbol: s, level: 1 }));
                }
            },
            HuffmanNodeData::Node(_, _) => {
                self.leaves_helper(leaves, 0);
            },
        }
    }
}

/// Sorts table entries by level, then by symbol; keeps exactly the same
/// entries.
fn sort_table(v: &mut Vec<HuffmanTableData>)
    ensures
        final(v)@.len() == old(v)@.len(),
        final(v)@.to_multiset() == old(v)@.to_multiset(),
        forall|i: int, j: int| 0 <= i < j < final(v)@.len() ==> td_le(final(v)@[i], final(v)@[j]),
{
    let ghost orig = v@;
    let mut out: Vec<HuffmanTableData> = Vec::new();
    while v.len() > 0
        invariant
            out@.to_multiset().add(v@.to_multiset()) =~= orig.to_multiset(),
            out@.len() + v@.len() == orig.len(),
            forall|i: int, j: int| 0 <= i < j < out@.len() ==> td_le(out@[i], out@[j]),
            forall|i: int, j: int|
                0 <= i < out@.len() && 0 <= j < v@.len() ==> td_le(
                    #[trigger] out@[i],
                    #[trigger] v@[j],
                ),
        decreases v@.len(),
    {
        let mut m: usize = 0;
        let mut k: usize = 1;
        while k < v.len()
            invariant
                0 <= m < k <= v@.len(),
                forall|j: int| 0 <= j < k ==> td_le(v@[m as int], #[trigger] v@[j]),
            decreases v@.len() - k,
        {
            let a = v[k];
            let b = v[m];
            if a.level < b.level || (a.level == b.level && a.symbol < b.symbol) {
                m = k;
            }
            k = k + 1;
        }
        let ghost vpre = v@;
        let e = v.remove(m);
        out.push(e);
        proof {
            assert(v@.to_multiset() =~= vpre.to_multiset().remove(e));
            assert(vpre.to_multiset().count(e) > 0);
            assert(out@.to_multiset().add(v@.to_multiset()) =~= orig.to_multiset());
            assert forall|i: int, j: int|
                0 <= i < out@.len() && 0 <= j < v@.len() implies td_le(
                #[trigger] out@[i],
                #[trigger] v@[j],
            ) by {
                if j < m {
                    assert(v@[j] == vpre[j]);
                } else {
                    assert(v@[j] == vpre[j + 1]);
                }
            }
        }
    }
    proof {
        assert(v@.to_multiset() =~= Multiset::<HuffmanTableData>::empty());
        assert(out@.to_multiset() =~= orig.to_multiset());
    }
    *v = out;
}


/// Occurrences of symbol `x` in `s`.
pub open spec fn count_sym(s: Seq<HuffmanSymbol>, x: int) -> int
    decreases s.len(),
{
    if s.len() == 0 {
        0
    } else {
        count_sym(s.drop_last(), x) + if s.last() == x {
            1int
        } else {
            0int
        }
    }
}

proof fn lemma_count_sym_bound(s: Seq<HuffmanSymbol>, x: int)
    ensures
        0 <= count_sym(s, x) <= s.len(),
    decreases s.len(),
{
    if s.len() > 0 {
        lemma_count_sym_bound(s.drop_last(), x);
    }
}

/// Sum of a frequency histogram.
pub open spec fn sum_freqs(s: Seq<u64>) -> int
    decreases s.len(),
{
    if s.len() == 0 {
        0
    } else {
        sum_freqs(s.drop_last()) + s.last()
    }
}

/// How many histogram cells are nonzero.
pub open spec fn count_nonzero(s: Seq<u64>) -> int
    decreases s.len(),
{
    if s.len() == 0 {
        0
    } else {
        count_nonzero(s.drop_last()) + if s.last() > 0 {
            1int
        } else {
            0int
        }
    }
}

proof fn lemma_sum_freqs_update(s: Seq<u64>, i: int, v: u64)
    requires
        0 <= i < s.len(),
    ensures
        sum_freqs(s.update(i, v)) == sum_freqs(s) - s[i] + v,
    decreases s.len(),
{
    if i == s.len() - 1 {
        assert(s.update(i, v).drop_last() =~= s.drop_last());
    } else {
        assert(s.update(i, v).drop_last() =~= s.drop_last().update(i, v));
        lemma_sum_freqs_update(s.drop_last(), i, v);
    }
}

proof fn lemma_sum_freqs_zero(s: Seq<u64>)
    requires
        forall|i: int| 0 <= i < s.len() ==> s[i] == 0,
    ensures
        sum_freqs(s) == 0,
    decreases s.len(),
{
    if s.len() > 0 {
        lemma_sum_freqs_zero(s.drop_last());
    }
}

proof fn lemma_sum_freqs_term(s: Seq<u64>, i: int)
    requires
        0 <= i < s.len(),
    ensures
        s[i] <= sum_freqs(s),
        sum_freqs(s) >= 0,
    decreases s.len(),
{
    if s.len() > 0 {
        if i == s.len() - 1 {
            lemma_sum_freqs_nonneg(s.drop_last());
        } else {
            lemma_sum_freqs_term(s.drop_last(), i);
        }
    }
}

proof fn lemma_sum_freqs_nonneg(s: Seq<u64>)
    ensures
        sum_freqs(s) >= 0,
    decreases s.len(),
{
    if s.len() > 0 {
        lemma_sum_freqs_nonneg(s.drop_last());
    }
}

/// Leaves of a subtree.
pub open spec fn node_leaf_count(n: HuffmanNode) -> int
    decreases n,
{
    match n.data {
        HuffmanNodeData::Leaf(_) => 1,
        HuffmanNodeData::Node(l, r) => node_leaf_count(*l) + node_leaf_count(*r),
    }
}

/// Sums over a worklist of subtrees.
pub open spec fn nodes_freq_sum(v: Seq<HuffmanNode>) -> int
    decreases v.len(),
{
    if v.len() == 0 {
        0
    } else {
        nodes_freq_sum(v.drop_last()) + v.last().freq
    }
}

pub open spec fn nodes_count_sum(v: Seq<HuffmanNode>) -> int
    decreases v.len(),
{
    if v.len() == 0 {
        0
    } else {
        nodes_count_sum(v.drop_last()) + node_count(v.last())
    }
}

pub open spec fn nodes_leaf_sum(v: Seq<HuffmanNode>) -> int
    decreases v.len(),
{
    if v.len() == 0 {
        0
    } else {
        nodes_leaf_sum(v.drop_last()) + node_leaf_count(v.last())
    }
}

/// Some subtree in the worklist carries symbol `s`.
pub open spec fn worklist_has_sym(v: Seq<HuffmanNode>, s: HuffmanSymbol) -> bool {
    exists|k: int| 0 <= k < v.len() && node_has_sym(#[trigger] v[k], s)
}

proof fn lemma_node_leaf_count_pos(n: HuffmanNode)
    ensures
        1 <= node_leaf_count(n) <= node_count(n),
    decreases n,
{
    match n.data {
        HuffmanNodeData::Leaf(_) => {},
        HuffmanNodeData::Node(l, r) => {
            lemma_node_leaf_count_pos(*l);
            lemma_node_leaf_count_pos(*r);
        },
    }
}

proof fn lemma_nodes_sums_nonneg(v: Seq<HuffmanNode>)
    ensures
        nodes_freq_sum(v) >= 0,
        nodes_count_sum(v) >= 0,
        nodes_leaf_sum(v) >= 0,
    decreases v.len(),
{
    if v.len() > 0 {
        lemma_nodes_sums_nonneg(v.drop_last());
        lemma_node_count_pos(v.last());
        lemma_node_leaf_count_pos(v.last());
    }
}

/// Removing one subtree takes exactly its own share out of each sum, and out
/// of the symbol union.
proof fn lemma_nodes_sums_remove(v: Seq<HuffmanNode>, i: int)
    requires
        0 <= i < v.len(),
    ensures
        nodes_freq_sum(v.remove(i)) == nodes_freq_sum(v) - v[i].freq,
        nodes_count_sum(v.remove(i)) == nodes_count_sum(v) - node_count(v[i]),
        nodes_leaf_sum(v.remove(i)) == nodes_leaf_sum(v) - node_leaf_count(v[i]),
        forall|s: HuffmanSymbol|
            #[trigger] worklist_has_sym(v, s) <==> worklist_has_sym(v.remove(i), s)
                || node_has_sym(v[i], s),
    decreases v.len(),
{
    let w = v.remove(i);
    if i == v.len() - 1 {
        assert(w =~= v.drop_last());
    } else {
        assert(w.drop_last() =~= v.drop_last().remove(i));
        assert(w.last() == v.last());
        lemma_nodes_sums_remove(v.drop_last(), i);
        assert(forall|s: HuffmanSymbol|
            #[trigger] worklist_has_sym(v.drop_last(), s) <==> worklist_has_sym(
                v.drop_last().remove(i),
                s,
            ) || node_has_sym(v.drop_last()[i], s));
    }
    assert forall|s: HuffmanSymbol|
        #[trigger] worklist_has_sym(v, s) <==> worklist_has_sym(w, s) || node_has_sym(
        v[i],
        s,
    ) by {
        if worklist_has_sym(v, s) {
            let k = choose|k: int| 0 <= k < v.len() && node_has_sym(#[trigger] v[k], s);
            if k < i {
                assert(node_has_sym(w[k], s));
            } else if k > i {
                assert(node_has_sym(w[k - 1], s));
            }
        }
        if worklist_has_sym(w, s) {
            let k = choose|k: int| 0 <= k < w.len() && node_has_sym(#[trigger] w[k], s);
            if k < i {
                assert(node_has_sym(v[k], s));
            } else {
                assert(node_has_sym(v[k + 1], s));
            }
        }
        if node_has_sym(v[i], s) {
            assert(0 <= i < v.len() && node_has_sym(v[i], s));
        }
    }
}

proof fn lemma_nodes_sums_push(v: Seq<HuffmanNode>, n: HuffmanNode)
    ensures
        nodes_freq_sum(v.push(n)) == nodes_freq_sum(v) + n.freq,
        nodes_count_sum(v.push(n)) == nodes_count_sum(v) + node_count(n),
        nodes_leaf_sum(v.push(n)) == nodes_leaf_sum(v) + node_leaf_count(n),
        forall|s: HuffmanSymbol|
            #[trigger] worklist_has_sym(v.push(n), s) <==> worklist_has_sym(v, s) || node_has_sym(
                n,
                s,
            ),
{
    assert(v.push(n).drop_last() =~= v);
    assert forall|s: HuffmanSymbol|
        #[trigger] worklist_has_sym(v.push(n), s) <==> worklist_has_sym(v, s) || node_has_sym(
        n,
        s,
    ) by {
        if worklist_has_sym(v.push(n), s) {
            let k = choose|k: int| 0 <= k < v.push(n).len() && node_has_sym(#[trigger] v.push(n)[k], s);
            if k < v.len() {
                assert(node_has_sym(v[k], s));
            }
        }
        if worklist_has_sym(v, s) {
            let k = choose|k: int| 0 <= k < v.len() && node_has_sym(#[trigger] v[k], s);
            assert(node_has_sym(v.push(n)[k], s));
        }
        if node_has_sym(n, s) {
            assert(node_has_sym(v.push(n)[v.len() as int], s));
        }
    }
}

/// Two tables with the same entries describe the same symbols with the same
/// admissible levels.
proof fn lemma_table_permutation(t1: Seq<HuffmanTableData>, t2: Seq<HuffmanTableData>, bound: int)
    requires
        t1.to_multiset() == t2.to_multiset(),
    ensures
        forall|s: HuffmanSymbol| table_has_symbol(t1, s) <==> table_has_symbol(t2, s),
        (forall|i: int| 0 <= i < t1.len() ==> 1 <= (#[trigger] t1[i]).level) ==> (forall|i: int|
            0 <= i < t2.len() ==> 1 <= (#[trigger] t2[i]).level),
        (forall|i: int| 0 <= i < t1.len() ==> (#[trigger] t1[i]).symbol < bound) ==> (forall|i: int|
            0 <= i < t2.len() ==> (#[trigger] t2[i]).symbol < bound),
        levels_wf(t1) ==> levels_wf(t2),
{
    assert forall|s: HuffmanSymbol| table_has_symbol(t1, s) <==> table_has_symbol(t2, s) by {
        if table_has_symbol(t1, s) {
            let i = choose|i: int| 0 <= i < t1.len() && (#[trigger] t1[i]).symbol == s;
            assert(t1.contains(t1[i]));
            assert(t1.to_multiset().count(t1[i]) > 0);
            assert(t2.to_multiset().count(t1[i]) > 0);
            assert(t2.contains(t1[i]));
            let j = choose|j: int| 0 <= j < t2.len() && t2[j] == t1[i];
            assert(t2[j].symbol == s);
        }
        if table_has_symbol(t2, s) {
            let i = choose|i: int| 0 <= i < t2.len() && (#[trigger] t2[i]).symbol == s;
            assert(t2.contains(t2[i]));
            assert(t2.to_multiset().count(t2[i]) > 0);
            assert(t1.to_multiset().count(t2[i]) > 0);
            assert(t1.contains(t2[i]));
            let j = choose|j: int| 0 <= j < t1.len() && t1[j] == t2[i];
            assert(t1[j].symbol == s);
        }
    }
    if forall|i: int| 0 <= i < t1.len() ==> 1 <= (#[trigger] t1[i]).level {
        assert forall|i: int| 0 <= i < t2.len() implies 1 <= (#[trigger] t2[i]).level by {
            assert(t2.contains(t2[i]));
            assert(t2.to_multiset().count(t2[i]) > 0);
            assert(t1.to_multiset().count(t2[i]) > 0);
            assert(t1.contains(t2[i]));
            let j = choose|j: int| 0 <= j < t1.len() && t1[j] == t2[i];
        }
    }
    if forall|i: int| 0 <= i < t1.len() ==> (#[trigger] t1[i]).symbol < bound {
        assert forall|i: int| 0 <= i < t2.len() implies (#[trigger] t2[i]).symbol < bound by {
            assert(t2.contains(t2[i]));
            assert(t2.to_multiset().count(t2[i]) > 0);
            assert(t1.to_multiset().count(t2[i]) > 0);
            assert(t1.contains(t2[i]));
            let j = choose|j: int| 0 <= j < t1.len() && t1[j] == t2[i];
        }
    }
    if levels_wf(t1) {
        assert forall|i: int| 0 <= i < t2.len() implies 1 <= (#[trigger] t2[i]).level
            <= MAX_CODE_LEN by {
            assert(t2.contains(t2[i]));
            assert(t2.to_multiset().count(t2[i]) > 0);
            assert(t1.to_multiset().count(t2[i]) > 0);
            assert(t1.contains(t2[i]));
            let j = choose|j: int| 0 <= j < t1.len() && t1[j] == t2[i];
        }
    }
}

/// Removing one entry takes exactly its own contribution out of the sum.
proof fn lemma_kraft_sum_remove(t: Seq<HuffmanTableData>, i: int)
    requires
        0 <= i < t.len(),
    ensures
        kraft_sum(t.remove(i)) == kraft_sum(t) - pow2((MAX_CODE_LEN - t[i].level) as nat),
    decreases t.len(),
{
    let w = t.remove(i);
    if i == t.len() - 1 {
        assert(w =~= t.drop_last());
    } else {
        assert(w.drop_last() =~= t.drop_last().remove(i));
        assert(w.last() == t.last());
        lemma_kraft_sum_remove(t.drop_last(), i);
    }
}

/// The Kraft sum depends only on which entries a table holds.
proof fn lemma_kraft_sum_permutation(t1: Seq<HuffmanTableData>, t2: Seq<HuffmanTableData>)
    requires
        t1.to_multiset() == t2.to_multiset(),
    ensures
        kraft_sum(t1) == kraft_sum(t2),
    decreases t1.len(),
{
    if t1.len() == 0 {
        assert(t1.to_multiset().len() == 0);
        assert(t2.to_multiset().len() == 0);
        assert(t2.len() == 0);
    } else {
        let e = t1.last();
        assert(t1.contains(e));
        assert(t1.to_multiset().count(e) > 0);
        assert(t2.to_multiset().count(e) > 0);
        assert(t2.contains(e));
        let j = choose|j: int| 0 <= j < t2.len() && t2[j] == e;
        lemma_kraft_sum_remove(t2, j);
        assert(t1.drop_last().push(e) =~= t1);
        assert(t1.drop_last().to_multiset() =~= t2.remove(j).to_multiset());
        lemma_kraft_sum_permutation(t1.drop_last(), t2.remove(j));
    }
}

/// The encoder: a frequency histogram, the canonical table built from it, and
/// the symbol-indexed code map used while emitting.
pub struct HuffmanEncoder {
    freq_table: Vec<u64>,
    max_symbols: usize,
    table: Vec<HuffmanTableData>,
    code_map: Vec<Option<(HuffmanPath, usize)>>,
}

impl HuffmanEncoder {
    /// The histogram.
    pub closed spec fn freqs(&self) -> Seq<u64> {
        self.freq_table@
    }

    /// The canonical table of the last build.
    pub closed spec fn table_view(&self) -> Seq<HuffmanTableData> {
        self.table@
    }

    /// The code map of the last build.
    pub closed spec fn code_map_view(&self) -> Seq<Option<(HuffmanPath, usize)>> {
        self.code_map@
    }

    pub closed spec fn max_syms(&self) -> int {
        self.max_symbols as int
    }

    pub closed spec fn wf(&self) -> bool {
        &&& self.freq_table@.len() == self.max_symbols
        &&& self.code_map@.len() == self.max_symbols
        &&& self.max_symbols <= HUFFMAN_MAX_SYMBOLS
    }

    /// The table and code map form a consistent canonical code: sorted
    /// admissible levels within the Kraft bound, and the map carries exactly
    /// the table's symbols, each to a canonical code of one of its entries.
    pub open spec fn codes_ready(&self) -> bool {
        &&& levels_wf(self.table_view())
        &&& levels_sorted(self.table_view())
        &&& kraft_sum(self.table_view()) <= KRAFT_MAX
        &&& self.table_view().len() <= self.max_syms()
        &&& forall|i: int|
            0 <= i < self.table_view().len() ==> (#[trigger] self.table_view()[i]).symbol
                < self.max_syms()
        &&& forall|s: int|
            0 <= s < self.max_syms() ==> ((#[trigger] self.code_map_view()[s]) is Some
                <==> table_has_symbol(self.table_view(), s as HuffmanSymbol))
        &&& forall|s: int|
            0 <= s < self.max_syms() ==> ((#[trigger] self.code_map_view()[s]) matches Some((c, l))
                ==> exists|i: int|
                {
                    &&& 0 <= i < self.table_view().len()
                    &&& (#[trigger] self.table_view()[i]).symbol == s
                    &&& c == canonical_code(self.table_view(), i)
                    &&& l == self.table_view()[i].level
                })
    }

    /// An encoder for symbols below `max_symbols` (clamped to the widest
    /// supported alphabet), with an all-zero histogram and an empty code map.
    pub fn new(max_symbols: usize) -> (r: Self)
        ensures
            r.wf(),
            r.max_syms() == if max_symbols <= HUFFMAN_MAX_SYMBOLS {
                max_symbols as int
            } else {
                HUFFMAN_MAX_SYMBOLS as int
            },
            r.freqs().len() == r.max_syms(),
            r.code_map_view().len() == r.max_syms(),
            forall|i: int| 0 <= i < r.max_syms() ==> (#[trigger] r.freqs()[i]) == 0,
            forall|i: int| 0 <= i < r.max_syms() ==> (#[trigger] r.code_map_view()[i]) is None,
            sum_freqs(r.freqs()) == 0,
            r.table_view() == Seq::<HuffmanTableData>::empty(),
    {
        let ms: usize = if max_symbols <= HUFFMAN_MAX_SYMBOLS {
            max_symbols
        } else {
            HUFFMAN_MAX_SYMBOLS
        };
        let mut freq_table: Vec<u64> = Vec::new();
        let mut code_map: Vec<Option<(HuffmanPath, usize)>> = Vec::new();
        let mut i: usize = 0;
        while i < ms
            invariant
                i <= ms,
                freq_table@.len() == i,
                code_map@.len() == i,
                forall|j: int| 0 <= j < i ==> (#[trigger] freq_table@[j]) == 0,
                forall|j: int| 0 <= j < i ==> (#[trigger] code_map@[j]) is None,
            decreases ms - i,
        {
            freq_table.push(0);
            code_map.push(None);
            i = i + 1;
        }
        let r = HuffmanEncoder { freq_table, max_symbols: ms, table: Vec::new(), code_map };
        proof {
            lemma_sum_freqs_zero(r.freqs());
        }
        r
    }

    /// Replaces the histogram with the counts of `symbols`.
    pub fn build_frequency_table(&mut self, symbols: &[HuffmanSymbol])
        requires
            old(self).wf(),
            forall|j: int|
                0 <= j < symbols@.len() ==> (#[trigger] symbols@[j]) < old(self).max_syms(),
        ensures
            final(self).wf(),
            final(self).max_syms() == old(self).max_syms(),
            final(self).table_view() == old(self).table_view(),
            final(self).code_map_view() == old(self).code_map_view(),
            forall|x: int|
                0 <= x < final(self).max_syms() ==> (#[trigger] final(self).freqs()[x]) == count_sym(
                    symbols@,
                    x,
                ),
            sum_freqs(final(self).freqs()) == symbols@.len(),
    {
        let n = self.freq_table.len();
        let mut k: usize = 0;
        while k < n
            invariant
                k <= n,
                n == self.freq_table@.len(),
                self.freq_table@.len() == old(self).freq_table@.len(),
                self.max_symbols == old(self).max_symbols,
                self.table@ == old(self).table@,
                self.code_map@ == old(self).code_map@,
                forall|j: int| 0 <= j < k ==> (#[trigger] self.freq_table@[j]) == 0,
            decreases n - k,
        {
            self.freq_table.set(k, 0);
            k = k + 1;
        }
        proof {
            lemma_sum_freqs_zero(self.freq_table@);
            assert(forall|x: int|
                0 <= x < self.max_syms() ==> (#[trigger] self.freq_table@[x]) == count_sym(
                    symbols@.take(0),
                    x,
                ));
        }
        let mut i: usize = 0;
        while i < symbols.len()
            invariant
                i <= symbols@.len(),
                self.wf(),
                self.max_symbols == old(self).max_symbols,
                self.table@ == old(self).table@,
                self.code_map@ == old(self).code_map@,
                self.freq_table@.len() == old(self).freq_table@.len(),
                forall|j: int|
                    0 <= j < symbols@.len() ==> (#[trigger] symbols@[j]) < self.max_syms(),
                forall|x: int|
                    0 <= x < self.max_syms() ==> (#[trigger] self.freq_table@[x]) == count_sym(
                        symbols@.take(i as int),
                        x,
                    ),
                sum_freqs(self.freq_table@) == i,
            decreases symbols@.len() - i,
        {
            let s = symbols[i];
            let ghost pre = self.freq_table@;
            proof {
                lemma_count_sym_bound(symbols@.take(i as int), s as int);
                lemma_sum_freqs_update(pre, s as int, (pre[s as int] + 1) as u64);
            }
            let f = self.freq_table[s as usize];
            proof {
                assert(f <= sum_freqs(pre)) by {
                    lemma_sum_freqs_term(pre, s as int);
                }
            }
            self.freq_table.set(s as usize, f + 1);
            proof {
                assert forall|x: int| 0 <= x < self.max_syms() implies (
                #[trigger] self.freq_table@[x]) == count_sym(symbols@.take(i + 1), x) by {
                    assert(symbols@.take(i + 1).drop_last() =~= symbols@.take(i as int));
                    assert(symbols@.take(i + 1).last() == symbols@[i as int]);
                }
            }
            i = i + 1;
        }
        proof {
            assert(symbols@.take(symbols@.len() as int) =~= symbols@);
        }
    }

    /// Counts one more occurrence of `symbol`.
    pub fn scan_symbol(&mut self, symbol: HuffmanSymbol)
        requires
            old(self).wf(),
            (symbol as int) < old(self).max_syms(),
            old(self).freqs()[symbol as int] < u64::MAX,
        ensures
            final(self).wf(),
            final(self).max_syms() == old(self).max_syms(),
            final(self).table_view() == old(self).table_view(),
            final(self).code_map_view() == old(self).code_map_view(),
            final(self).freqs() == old(self).freqs().update(
                symbol as int,
                (old(self).freqs()[symbol as int] + 1) as u64,
            ),
            sum_freqs(final(self).freqs()) == sum_freqs(old(self).freqs()) + 1,
    {
        let f = self.freq_table[symbol as usize];
        self.freq_table.set(symbol as usize, f + 1);
        proof {
            lemma_sum_freqs_update(old(self).freqs(), symbol as int, (f + 1) as u64);
        }
    }

    /// Counts one more occurrence of the byte `byte`.
    pub fn scan_byte(&mut self, byte: u8)
        requires
            old(self).wf(),
            (byte as int) < old(self).max_syms(),
            old(self).freqs()[byte as int] < u64::MAX,
        ensures
            final(self).wf(),
            final(self).max_syms() == old(self).max_syms(),
            final(self).table_view() == old(self).table_view(),
            final(self).code_map_view() == old(self).code_map_view(),
            final(self).freqs() == old(self).freqs().update(
                byte as int,
                (old(self).freqs()[byte as int] + 1) as u64,
            ),
            sum_freqs(final(self).freqs()) == sum_freqs(old(self).freqs()) + 1,
    {
        let f = self.freq_table[byte as usize];
        self.freq_table.set(byte as usize, f + 1);
        proof {
            lemma_sum_freqs_update(old(self).freqs(), byte as int, (f + 1) as u64);
        }
    }
}

/// `2^(MAX_CODE_LEN - level)`: the codeword slots an entry of this level uses.
fn kraft_term(level: usize) -> (r: usize)
    requires
        1 <= level <= MAX_CODE_LEN,
    ensures
        r == pow2((MAX_CODE_LEN - level) as nat),
        r <= 2048,
{
    proof {
        lemma2_to64();
        lemma_usize_shl_is_mul(1usize, (MAX_CODE_LEN - level) as usize);
    }
    1usize << (MAX_CODE_LEN - level)
}

impl HuffmanEncoder {
    /// Enforces `MAX_CODE_LEN` on every level: clamp, then deepen entries from
    /// the back until the Kraft sum fits, then reclaim slack from the front.
    /// Keeps the table sorted and leaves a one-entry depth-one table alone.
    fn limit_huffman_table_code_sizes(&mut self)
        requires
            old(self).wf(),
            old(self).table_view().len() <= HUFFMAN_MAX_SYMBOLS,
            forall|i: int|
                0 <= i < old(self).table_view().len() ==> 1 <= (#[trigger] old(self).table_view()[i]).level,
            levels_sorted(old(self).table_view()),
        ensures
            final(self).wf(),
            final(self).max_syms() == old(self).max_syms(),
            final(self).freqs() == old(self).freqs(),
            final(self).code_map_view() == old(self).code_map_view(),
            final(self).table_view().len() == old(self).table_view().len(),
            forall|i: int|
                0 <= i < final(self).table_view().len() ==> (#[trigger] final(self).table_view()[i]).symbol == old(self).table_view()[i].symbol,
            levels_wf(final(self).table_view()),
            levels_sorted(final(self).table_view()),
            kraft_sum(final(self).table_view()) <= KRAFT_MAX,
            old(self).table_view().len() == 1 && old(self).table_view()[0].level == 1 ==> final(self).table_view()[0].level == 1,
    {
        let ghost orig = self.table@;
        let n = self.table.len();
        let mut k: usize = 0;
        let mut i: usize = 0;
        proof {
            assert(self.table@.take(0) =~= Seq::<HuffmanTableData>::empty());
        }
        while i < n
            invariant
                self.wf(),
                self.max_symbols == old(self).max_symbols,
                self.freq_table@ == old(self).freq_table@,
                self.code_map@ == old(self).code_map@,
                n == self.table@.len(),
                self.table@.len() == orig.len(),
                orig == old(self).table_view(),
                n <= HUFFMAN_MAX_SYMBOLS,
                i <= n,
                forall|j: int|
                    0 <= j < orig.len() ==> 1 <= (#[trigger] orig[j]).level,
                levels_sorted(orig),
                k == kraft_sum(self.table@.take(i as int)),
                k <= i * 2048,
                forall|j: int| i <= j < n ==> (#[trigger] self.table@[j]) == orig[j],
                forall|j: int|
                    0 <= j < i ==> (#[trigger] self.table@[j]) == (HuffmanTableData {
                        symbol: orig[j].symbol,
                        level: if orig[j].level <= MAX_CODE_LEN {
                            orig[j].level
                        } else {
                            MAX_CODE_LEN
                        },
                    }),
            decreases n - i,
        {
            let e = self.table[i];
            let newlev: usize = if e.level <= MAX_CODE_LEN {
                e.level
            } else {
                MAX_CODE_LEN
            };
            let ne = HuffmanTableData { symbol: e.symbol, level: newlev };
            let ghost pre = self.table@;
            self.table.set(i, ne);
            let t = kraft_term(newlev);
            proof {
                assert(self.table@.take(i + 1).drop_last() =~= pre.take(i as int));
                assert(self.table@.take(i + 1).last() == ne);
            }
            k = k + t;
            i = i + 1;
        }
        proof {
            assert(self.table@.take(n as int) =~= self.table@);
            assert(levels_wf(self.table@));
            assert(levels_sorted(self.table@)) by {
                assert forall|a: int, b: int| 0 <= a < b < n implies (#[trigger] self.table@[a]).level
                    <= (#[trigger] self.table@[b]).level by {
                    assert(orig[a].level <= orig[b].level);
                }
            }
        }
        let ghost clamped = self.table@;
        let mut i2: usize = n;
        while i2 > 0 && k > KRAFT_MAX
            invariant
                self.wf(),
                self.max_symbols == old(self).max_symbols,
                self.freq_table@ == old(self).freq_table@,
                self.code_map@ == old(self).code_map@,
                n == self.table@.len(),
                orig == old(self).table_view(),
                orig.len() == n,
                i2 <= n,
                k == kraft_sum(self.table@),
                levels_wf(self.table@),
                levels_sorted(self.table@),
                forall|j: int|
                    0 <= j < n ==> (#[trigger] self.table@[j]).symbol == orig[j].symbol,
                forall|j: int| i2 <= j < n ==> (#[trigger] self.table@[j]).level == MAX_CODE_LEN,
                forall|j: int| 0 <= j < i2 ==> (#[trigger] self.table@[j]) == clamped[j],
                clamped.len() == n,
                n == 1 && orig[0].level == 1 ==> self.table@[0].level == 1,
            decreases i2,
        {
            proof {
                if n == 1 && orig[0].level == 1 {
                    lemma2_to64();
                    assert(self.table@.drop_last() =~= Seq::<HuffmanTableData>::empty());
                    assert(kraft_sum(Seq::<HuffmanTableData>::empty()) == 0);
                    assert(k == kraft_sum(self.table@.drop_last()) + pow2(
                        (MAX_CODE_LEN - self.table@.last().level) as nat,
                    ));
                    assert(k == 2048);
                }
            }
            i2 = i2 - 1;
            while self.table[i2].level < MAX_CODE_LEN
                invariant
                    self.wf(),
                    self.max_symbols == old(self).max_symbols,
                    self.freq_table@ == old(self).freq_table@,
                    self.code_map@ == old(self).code_map@,
                    n == self.table@.len(),
                    orig.len() == n,
                    i2 < n,
                    k == kraft_sum(self.table@),
                    levels_wf(self.table@),
                    levels_sorted(self.table@),
                    forall|j: int|
                        0 <= j < n ==> (#[trigger] self.table@[j]).symbol == orig[j].symbol,
                    forall|j: int|
                        i2 + 1 <= j < n ==> (#[trigger] self.table@[j]).level == MAX_CODE_LEN,
                    forall|j: int| 0 <= j < i2 ==> (#[trigger] self.table@[j]) == clamped[j],
                    clamped.len() == n,
                decreases MAX_CODE_LEN - self.table@[i2 as int].level,
            {
                let e = self.table[i2];
                let ne = HuffmanTableData { symbol: e.symbol, level: e.level + 1 };
                let ghost pre = self.table@;
                proof {
                    lemma_kraft_term_le_sum(pre, i2 as int);
                    lemma_kraft_sum_update(pre, i2 as int, ne);
                    lemma_pow2_unfold((MAX_CODE_LEN - e.level) as nat);
                }
                let t = kraft_term(e.level + 1);
                self.table.set(i2, ne);
                k = k - t;
                proof {
                    assert(levels_sorted(self.table@)) by {
                        assert forall|a: int, b: int| 0 <= a < b < n implies (
                        #[trigger] self.table@[a]).level <= (#[trigger] self.table@[b]).level by {
                            assert(pre[a].level <= pre[b].level);
                        }
                    }
                }
            }
        }
        proof {
            if k > KRAFT_MAX {
                assert(forall|j: int|
                    0 <= j < n ==> (#[trigger] self.table@[j]).level == MAX_CODE_LEN);
                lemma_kraft_sum_all_max(self.table@);
            }
        }
        let ghost fitted = self.table@;
        let mut i3: usize = 0;
        while i3 < n
            invariant
                self.wf(),
                self.max_symbols == old(self).max_symbols,
                self.freq_table@ == old(self).freq_table@,
                self.code_map@ == old(self).code_map@,
                n == self.table@.len(),
                orig.len() == n,
                i3 <= n,
                k == kraft_sum(self.table@),
                k <= KRAFT_MAX,
                levels_wf(self.table@),
                levels_sorted(self.table@),
                forall|j: int|
                    0 <= j < n ==> (#[trigger] self.table@[j]).symbol == orig[j].symbol,
                forall|j: int|
                    0 <= j < i3 ==> (#[trigger] self.table@[j]).level == 1 || k + pow2(
                        (MAX_CODE_LEN - self.table@[j].level) as nat,
                    ) > KRAFT_MAX,
                forall|j: int| i3 <= j < n ==> (#[trigger] self.table@[j]) == fitted[j],
                fitted.len() == n,
                n == 1 && orig[0].level == 1 ==> self.table@[0].level == 1,
            decreases n - i3,
        {
            while self.table[i3].level > 1 && k + kraft_term(self.table[i3].level) <= KRAFT_MAX
                invariant
                    self.wf(),
                    self.max_symbols == old(self).max_symbols,
                    self.freq_table@ == old(self).freq_table@,
                    self.code_map@ == old(self).code_map@,
                    n == self.table@.len(),
                    orig.len() == n,
                    i3 < n,
                    k == kraft_sum(self.table@),
                    k <= KRAFT_MAX,
                    levels_wf(self.table@),
                    levels_sorted(self.table@),
                    forall|j: int|
                        0 <= j < n ==> (#[trigger] self.table@[j]).symbol == orig[j].symbol,
                    forall|j: int|
                        0 <= j < i3 ==> (#[trigger] self.table@[j]).level == 1 || k + pow2(
                            (MAX_CODE_LEN - self.table@[j].level) as nat,
                        ) > KRAFT_MAX,
                    forall|j: int| i3 < j < n ==> (#[trigger] self.table@[j]) == fitted[j],
                    fitted.len() == n,
                    n == 1 && orig[0].level == 1 ==> self.table@[0].level == 1,
                decreases self.table@[i3 as int].level,
            {
                let e = self.table[i3];
                let ghost pre = self.table@;
                proof {
                    lemma_kraft_term_le_sum(pre, i3 as int);
                    lemma2_to64();
                }
                let t = kraft_term(e.level);
                let ne = HuffmanTableData { symbol: e.symbol, level: e.level - 1 };
                proof {
                    lemma_kraft_sum_update(pre, i3 as int, ne);
                    lemma_pow2_unfold((MAX_CODE_LEN - ne.level) as nat);
                }
                k = k + t;
                self.table.set(i3, ne);
                proof {
                    assert(levels_sorted(self.table@)) by {
                        assert forall|a: int, b: int| 0 <= a < b < n implies (
                        #[trigger] self.table@[a]).level <= (#[trigger] self.table@[b]).level by {
                            assert(pre[a].level <= pre[b].level);
                            if b == i3 {
                                if pre[a].level == 1 {
                                    assert(ne.level >= 1);
                                } else {
                                    assert(k - t + pow2((MAX_CODE_LEN - pre[a].level) as nat)
                                        > KRAFT_MAX);
                                    if pre[a].level >= ne.level + 1 {
                                        if ((MAX_CODE_LEN - pre[a].level) as nat) < ((MAX_CODE_LEN
                                            - e.level) as nat) {
                                            lemma_pow2_strictly_increases(
                                                (MAX_CODE_LEN - pre[a].level) as nat,
                                                (MAX_CODE_LEN - e.level) as nat,
                                            );
                                        }
                                    }
                                }
                            }
                        }
                    }
                    if n == 1 && orig[0].level == 1 {
                        assert(false);
                    }
                }
            }
            proof {
                assert(self.table@[i3 as int].level == 1 || k + pow2(
                    (MAX_CODE_LEN - self.table@[i3 as int].level) as nat,
                ) > KRAFT_MAX);
            }
            i3 = i3 + 1;
        }
    }

    /// Assigns each table symbol its canonical code: equal lengths count up by
    /// one; a longer length continues from the previous code shifted left by
    /// the difference.
    fn build_huffman_code_map(&mut self)
        requires
            old(self).wf(),
            levels_wf(old(self).table_view()),
            levels_sorted(old(self).table_view()),
            kraft_sum(old(self).table_view()) <= KRAFT_MAX,
            forall|i: int|
                0 <= i < old(self).table_view().len() ==> (#[trigger] old(self).table_view()[i]).symbol < old(self).max_syms(),
        ensures
            final(self).wf(),
            final(self).max_syms() == old(self).max_syms(),
            final(self).freqs() == old(self).freqs(),
            final(self).table_view() == old(self).table_view(),
            forall|s: int|
                0 <= s < final(self).max_syms() ==> ((#[trigger] final(self).code_map_view()[s])
                    is Some <==> table_has_symbol(final(self).table_view(), s as HuffmanSymbol)),
            forall|s: int|
                0 <= s < final(self).max_syms() ==> ((#[trigger] final(self).code_map_view()[s])
                    matches Some((c, l)) ==> exists|i: int|
                    {
                        &&& 0 <= i < final(self).table_view().len()
                        &&& (#[trigger] final(self).table_view()[i]).symbol == s
                        &&& c == canonical_code(final(self).table_view(), i)
                        &&& l == final(self).table_view()[i].level
                    }),
    {
        let ghost t = self.table@;
        let nm = self.code_map.len();
        let mut z: usize = 0;
        while z < nm
            invariant
                z <= nm,
                nm == self.code_map@.len(),
                self.code_map@.len() == old(self).code_map@.len(),
                self.max_symbols == old(self).max_symbols,
                self.freq_table@ == old(self).freq_table@,
                self.table@ == old(self).table@,
                forall|j: int| 0 <= j < z ==> (#[trigger] self.code_map@[j]) is None,
            decreases nm - z,
        {
            self.code_map.set(z, None);
            z = z + 1;
        }
        let mut code: u32 = 0;
        let mut last_level: usize = 0;
        let mut i: usize = 0;
        let tn = self.table.len();
        while i < tn
            invariant
                self.wf(),
                self.max_symbols == old(self).max_symbols,
                self.freq_table@ == old(self).freq_table@,
                self.table@ == old(self).table@,
                t == self.table@,
                tn == t.len(),
                i <= tn,
                levels_wf(t),
                levels_sorted(t),
                kraft_sum(t) <= KRAFT_MAX,
                forall|j: int| 0 <= j < tn ==> (#[trigger] t[j]).symbol < self.max_syms(),
                i == 0 ==> code == 0 && last_level == 0,
                i > 0 ==> code == canonical_code(t, i - 1) && last_level == t[i - 1].level,
                forall|s: int|
                    0 <= s < self.max_syms() ==> ((#[trigger] self.code_map@[s]) is Some
                        <==> exists|j: int| 0 <= j < i && (#[trigger] t[j]).symbol == s),
                forall|s: int|
                    0 <= s < self.max_syms() ==> ((#[trigger] self.code_map@[s]) matches Some(
                        (c, l),
                    ) ==> exists|j: int|
                        {
                            &&& 0 <= j < i
                            &&& (#[trigger] t[j]).symbol == s
                            &&& c == canonical_code(t, j)
                            &&& l == t[j].level
                        }),
            decreases tn - i,
        {
            let e = self.table[i];
            proof {
                lemma_canonical_code_bound(t, i as int);
                lemma2_to64();
                if i > 0 {
                    lemma_canonical_code_bound(t, i as int - 1);
                    lemma_pow2_strictly_increases(t[i as int - 1].level as nat, 13);
                    lemma2_to64_rest();
                }
            }
            if last_level != e.level {
                if last_level != 0 {
                    code = code + 1;
                    proof {
                        lemma_pow2_strictly_increases(t[i as int].level as nat, 13);
                        lemma2_to64_rest();
                        lemma_u32_shl_is_mul(code, (e.level - last_level) as u32);
                    }
                    code = code << ((e.level - last_level) as u32);
                }
                last_level = e.level;
            } else {
                code = code + 1;
            }
            proof {
                assert(code == canonical_code(t, i as int));
            }
            let ghost premap = self.code_map@;
            self.code_map.set(e.symbol as usize, Some((code, e.level)));
            proof {
                assert forall|s: int| 0 <= s < self.max_syms() implies ((
                #[trigger] self.code_map@[s]) is Some <==> exists|j: int|
                    0 <= j < i + 1 && (#[trigger] t[j]).symbol == s) by {
                    if s == e.symbol as int {
                        assert(t[i as int].symbol == s);
                    } else {
                        assert(self.code_map@[s] == premap[s]);
                        if exists|j: int| 0 <= j < i + 1 && (#[trigger] t[j]).symbol == s {
                            let j = choose|j: int| 0 <= j < i + 1 && (#[trigger] t[j]).symbol == s;
                            assert(j < i);
                        }
                    }
                }
                assert forall|s: int| 0 <= s < self.max_syms() implies ((
                #[trigger] self.code_map@[s]) matches Some((c, l)) ==> exists|j: int|
                    {
                        &&& 0 <= j < i + 1
                        &&& (#[trigger] t[j]).symbol == s
                        &&& c == canonical_code(t, j)
                        &&& l == t[j].level
                    }) by {
                    match self.code_map@[s] {
                        Some((c, l)) => {
                            if s == e.symbol as int {
                                assert(t[i as int].symbol == s && c == canonical_code(t, i as int)
                                    && l == t[i as int].level);
                            } else {
                                assert(self.code_map@[s] == premap[s]);
                                let j = choose|j: int|
                                    {
                                        &&& 0 <= j < i
                                        &&& (#[trigger] t[j]).symbol == s
                                        &&& c == canonical_code(t, j)
                                        &&& l == t[j].level
                                    };
                                assert(0 <= j < i + 1 && t[j].symbol == s);
                            }
                        },
                        None => {},
                    }
                }
            }
            i = i + 1;
        }
        proof {
            assert forall|s: int| 0 <= s < self.max_syms() implies ((
            #[trigger] self.code_map_view()[s]) matches Some((c, l)) ==> exists|j: int|
                {
                    &&& 0 <= j < self.table_view().len()
                    &&& (#[trigger] self.table_view()[j]).symbol == s
                    &&& c == canonical_code(self.table_view(), j)
                    &&& l == self.table_view()[j].level
                }) by {
                match self.code_map_view()[s] {
                    Some((c, l)) => {
                        if 0 <= s < self.max_syms() {
                            let j = choose|j: int|
                                {
                                    &&& 0 <= j < tn
                                    &&& (#[trigger] t[j]).symbol == s
                                    &&& c == canonical_code(t, j)
                                    &&& l == t[j].level
                                };
                            assert(0 <= j < self.table_view().len() && self.table_view()[j].symbol
                                == s && c == canonical_code(self.table_view(), j) && l
                                == self.table_view()[j].level);
                        }
                    },
                    None => {},
                }
            }
        }
    }
}

proof fn lemma_count_nonzero_bound(s: Seq<u64>)
    ensures
        0 <= count_nonzero(s) <= s.len(),
    decreases s.len(),
{
    if s.len() > 0 {
        lemma_count_nonzero_bound(s.drop_last());
    }
}

/// An index of a minimal-weight subtree in the worklist.
fn index_of_min(nodes: &Vec<HuffmanNode>) -> (r: usize)
    requires
        nodes@.len() >= 1,
    ensures
        r < nodes@.len(),
        forall|k: int| 0 <= k < nodes@.len() ==> nodes@[r as int].freq <= (#[trigger] nodes@[k]).freq,
{
    let mut m: usize = 0;
    let mut k: usize = 1;
    while k < nodes.len()
        invariant
            0 <= m < k <= nodes@.len(),
            forall|j: int| 0 <= j < k ==> nodes@[m as int].freq <= (#[trigger] nodes@[j]).freq,
        decreases nodes@.len() - k,
    {
        if nodes[k].freq < nodes[m].freq {
            m = k;
        }
        k = k + 1;
    }
    m
}

impl HuffmanEncoder {
    /// Builds the canonical length-limited table and code map for the current
    /// histogram: one leaf per nonzero symbol, repeated merging of the two
    /// lightest subtrees, depth-first leaf collection, sorting by (level,
    /// symbol), length limiting, and canonical code assignment.
    pub fn build_huffman_table(&mut self)
        requires
            old(self).wf(),
            exists|i: int| 0 <= i < old(self).max_syms() && (#[trigger] old(self).freqs()[i]) > 0,
            sum_freqs(old(self).freqs()) <= u64::MAX,
        ensures
            final(self).wf(),
            final(self).max_syms() == old(self).max_syms(),
            final(self).freqs() == old(self).freqs(),
            final(self).codes_ready(),
            forall|s: int|
                0 <= s < final(self).max_syms() ==> (table_has_symbol(
                    final(self).table_view(),
                    s as HuffmanSymbol,
                ) <==> (#[trigger] old(self).freqs()[s]) > 0),
            final(self).table_view().len() == count_nonzero(old(self).freqs()),
            forall|i: int, j: int|
                0 <= i < j < final(self).table_view().len() ==> td_le(
                    final(self).table_view()[i],
                    final(self).table_view()[j],
                ),
            count_nonzero(old(self).freqs()) == 1 ==> final(self).table_view()[0].level == 1,
    {
        let ghost freqs0 = self.freq_table@;
        let n = self.freq_table.len();
        let mut nodes: Vec<HuffmanNode> = Vec::new();
        let mut b: usize = 0;
        proof {
            assert(freqs0.take(0) =~= Seq::<u64>::empty());
        }
        while b < n
            invariant
                b <= n,
                n == self.freq_table@.len(),
                self.wf(),
                self == old(self),
                freqs0 == self.freq_table@,
                nodes@.len() == count_nonzero(freqs0.take(b as int)),
                nodes_freq_sum(nodes@) == sum_freqs(freqs0.take(b as int)),
                nodes_count_sum(nodes@) == nodes@.len(),
                nodes_leaf_sum(nodes@) == nodes@.len(),
                forall|s: HuffmanSymbol|
                    #[trigger] worklist_has_sym(nodes@, s) <==> ((s as int) < b && freqs0[s as int]
                        > 0),
            decreases n - b,
        {
            let f = self.freq_table[b];
            proof {
                assert(freqs0.take(b + 1).drop_last() =~= freqs0.take(b as int));
                assert(freqs0.take(b + 1).last() == freqs0[b as int]);
            }
            if f > 0 {
                let leaf = HuffmanNode::leaf(b as u16, f);
                proof {
                    lemma_nodes_sums_push(nodes@, leaf);
                }
                nodes.push(leaf);
                proof {
                    assert forall|s: HuffmanSymbol| #[trigger]
                        worklist_has_sym(nodes@, s) <==> ((s as int) < b + 1 && freqs0[s as int]
                            > 0) by {
                        assert(node_has_sym(leaf, s) <==> s == b as u16);
                    }
                }
            }
            b = b + 1;
        }
        proof {
            assert(freqs0.take(n as int) =~= freqs0);
            let w = choose|i: int| 0 <= i < self.max_syms() && (#[trigger] freqs0[i]) > 0;
            assert(worklist_has_sym(nodes@, w as HuffmanSymbol));
            assert(nodes@.len() >= 1);
            lemma_count_nonzero_bound(freqs0);
        }
        let ghost lcount = nodes@.len() as int;
        while nodes.len() > 1
            invariant
                nodes@.len() >= 1,
                self.wf(),
                self == old(self),
                freqs0 == self.freq_table@,
                lcount == count_nonzero(freqs0),
                1 <= lcount <= self.max_syms(),
                sum_freqs(freqs0) <= u64::MAX,
                nodes_freq_sum(nodes@) <= sum_freqs(freqs0),
                nodes_count_sum(nodes@) + nodes@.len() == 2 * lcount,
                nodes_leaf_sum(nodes@) == lcount,
                forall|s: HuffmanSymbol|
                    #[trigger] worklist_has_sym(nodes@, s) <==> ((s as int) < self.max_syms()
                        && freqs0[s as int] > 0),
            decreases nodes@.len(),
        {
            let ghost v0 = nodes@;
            let i = index_of_min(&nodes);
            let a = nodes.remove(i);
            proof {
                lemma_nodes_sums_remove(v0, i as int);
            }
            let ghost v1 = nodes@;
            let j = index_of_min(&nodes);
            let bn = nodes.remove(j);
            proof {
                lemma_nodes_sums_remove(v1, j as int);
                lemma_nodes_sums_nonneg(nodes@);
            }
            proof {
                assert(nodes_freq_sum(nodes@) >= 0);
                assert(a.freq + bn.freq <= sum_freqs(freqs0));
            }
            let ghost v2 = nodes@;
            let parent = HuffmanNode::node(a, bn);
            proof {
                lemma_nodes_sums_push(nodes@, parent);
                lemma_node_count_pos(a);
                lemma_node_count_pos(bn);
            }
            nodes.push(parent);
            proof {
                assert forall|s: HuffmanSymbol| #[trigger]
                    worklist_has_sym(nodes@, s) <==> ((s as int) < self.max_syms()
                        && freqs0[s as int] > 0) by {
                    assert(worklist_has_sym(nodes@, s) <==> worklist_has_sym(v2, s)
                        || node_has_sym(parent, s));
                    assert(node_has_sym(parent, s) <==> node_has_sym(a, s) || node_has_sym(bn, s));
                    assert(worklist_has_sym(v1, s) <==> worklist_has_sym(v2, s) || node_has_sym(
                        bn,
                        s,
                    ));
                    assert(worklist_has_sym(v0, s) <==> worklist_has_sym(v1, s) || node_has_sym(
                        a,
                        s,
                    ));
                }
            }
        }
        let ghost vfinal = nodes@;
        let root = nodes.remove(0);
        proof {
            assert(vfinal.len() == 1 && vfinal[0] == root);
            assert(vfinal.drop_last() =~= Seq::<HuffmanNode>::empty());
            assert(nodes_count_sum(Seq::<HuffmanNode>::empty()) == 0);
            assert(nodes_leaf_sum(Seq::<HuffmanNode>::empty()) == 0);
            assert(vfinal.last() == root);
            assert(node_count(root) == 2 * lcount - 1);
            assert(node_leaf_count(root) == lcount);
            assert forall|s: HuffmanSymbol|
                node_has_sym(root, s) <==> ((s as int) < self.max_syms() && freqs0[s as int]
                    > 0) by {
                assert(worklist_has_sym(vfinal, s) <==> ((s as int) < self.max_syms()
                    && freqs0[s as int] > 0));
                if node_has_sym(root, s) {
                    assert(node_has_sym(vfinal[0], s));
                    assert(worklist_has_sym(vfinal, s));
                }
                if worklist_has_sym(vfinal, s) {
                    let k2 = choose|k2: int|
                        0 <= k2 < vfinal.len() && node_has_sym(#[trigger] vfinal[k2], s);
                    assert(k2 == 0);
                }
            }
            lemma_node_count_pos(root);
            lemma_node_leaf_count_pos(root);
        }
        self.table.clear();
        root.leaves(&mut self.table);
        proof {
            match root.data {
                HuffmanNodeData::Leaf(x) => {
                    assert(self.table@ =~= seq![HuffmanTableData { symbol: x, level: 1 }]);
                    assert(self.table@.len() == 1);
                    assert(lcount == 1) by {
                        assert(node_leaf_count(root) == 1);
                    }
                    assert forall|s: HuffmanSymbol|
                        table_has_symbol(self.table@, s) <==> node_has_sym(root, s) by {
                        if table_has_symbol(self.table@, s) {
                            let i2 = choose|i2: int|
                                0 <= i2 < self.table@.len() && (#[trigger] self.table@[i2]).symbol
                                    == s;
                            assert(s == x);
                        }
                        if node_has_sym(root, s) {
                            assert(self.table@[0].symbol == s);
                        }
                    }
                },
                HuffmanNodeData::Node(l, r) => {
                    lemma_node_count_pos(*l);
                    lemma_node_count_pos(*r);
                    lemma_spec_leaves(root, 0);
                    lemma_spec_leaves(*l, 1);
                    lemma_spec_leaves(*r, 1);
                    assert(self.table@ =~= spec_leaves(root, 0));
                    assert(spec_leaves(root, 0) == spec_leaves(*l, 1) + spec_leaves(*r, 1));
                    assert(node_leaf_count(*l) + node_leaf_count(*r) == lcount);
                    lemma_node_leaf_count_pos(*l);
                    lemma_node_leaf_count_pos(*r);
                    lemma_leaf_count_matches(root, 0);
                    let ls = spec_leaves(*l, 1);
                    let rs = spec_leaves(*r, 1);
                    assert forall|i2: int| 0 <= i2 < self.table@.len() implies 1 <= (
                    #[trigger] self.table@[i2]).level by {
                        if i2 < ls.len() {
                            assert(self.table@[i2] == ls[i2]);
                        } else {
                            assert(self.table@[i2] == rs[i2 - ls.len()]);
                        }
                    }
                    assert(forall|s: HuffmanSymbol|
                        table_has_symbol(self.table@, s) <==> node_has_sym(root, s));
                },
            }
            assert(forall|s: HuffmanSymbol|
                table_has_symbol(self.table@, s) <==> node_has_sym(root, s));
            assert(self.table@.len() == lcount);
            assert(forall|i2: int|
                0 <= i2 < self.table@.len() ==> 1 <= (#[trigger] self.table@[i2]).level);
            assert forall|i2: int| 0 <= i2 < self.table@.len() implies (
            #[trigger] self.table@[i2]).symbol < self.max_syms() by {
                assert(table_has_symbol(self.table@, self.table@[i2].symbol));
                assert(node_has_sym(root, self.table@[i2].symbol));
            }
            assert forall|s: HuffmanSymbol|
                table_has_symbol(self.table@, s) <==> ((s as int) < self.max_syms() && freqs0[s
                    as int] > 0) by {
                assert(table_has_symbol(self.table@, s) <==> node_has_sym(root, s));
                assert(node_has_sym(root, s) <==> ((s as int) < self.max_syms() && freqs0[s
                    as int] > 0));
            }
        }
        let ghost presort = self.table@;
        sort_table(&mut self.table);
        proof {
            lemma_table_permutation(presort, self.table@, self.max_syms());
            assert(levels_sorted(self.table@)) by {
                assert(forall|a2: int, b2: int|
                    0 <= a2 < b2 < self.table@.len() ==> td_le(
                        #[trigger] self.table@[a2],
                        #[trigger] self.table@[b2],
                    ));
            }
        }
        let ghost preLimit = self.table@;
        proof {
            if lcount == 1 {
                assert(preLimit.len() == 1);
                assert(presort.contains(presort[0]));
                assert(presort.to_multiset().count(presort[0]) > 0);
                assert(preLimit.to_multiset().count(presort[0]) > 0);
                assert(preLimit.contains(presort[0]));
                let j = choose|j: int| 0 <= j < preLimit.len() && preLimit[j] == presort[0];
                assert(j == 0);
                assert(preLimit[0].level == 1);
            }
        }
        self.limit_huffman_table_code_sizes();
        proof {
            assert forall|s: HuffmanSymbol|
                table_has_symbol(self.table@, s) <==> table_has_symbol(preLimit, s) by {
                if table_has_symbol(self.table@, s) {
                    let i2 = choose|i2: int|
                        0 <= i2 < self.table@.len() && (#[trigger] self.table@[i2]).symbol == s;
                    assert(preLimit[i2].symbol == s);
                }
                if table_has_symbol(preLimit, s) {
                    let i2 = choose|i2: int|
                        0 <= i2 < preLimit.len() && (#[trigger] preLimit[i2]).symbol == s;
                    assert(self.table@[i2].symbol == s);
                }
            }
            assert forall|i2: int| 0 <= i2 < self.table@.len() implies (
            #[trigger] self.table@[i2]).symbol < self.max_syms() by {
                assert(preLimit[i2].symbol < self.max_syms());
            }
        }
        let ghost fitted = self.table@;
        sort_table(&mut self.table);
        proof {
            lemma_table_permutation(fitted, self.table@, self.max_syms());
            lemma_kraft_sum_permutation(fitted, self.table@);
            assert(levels_sorted(self.table@)) by {
                assert(forall|a2: int, b2: int|
                    0 <= a2 < b2 < self.table@.len() ==> td_le(
                        #[trigger] self.table@[a2],
                        #[trigger] self.table@[b2],
                    ));
            }
            assert forall|s: HuffmanSymbol|
                table_has_symbol(self.table@, s) <==> table_has_symbol(preLimit, s) by {
                assert(table_has_symbol(self.table@, s) <==> table_has_symbol(fitted, s));
            }
            if lcount == 1 {
                assert(self.table@.len() == 1);
                assert(fitted.contains(fitted[0]));
                assert(fitted.to_multiset().count(fitted[0]) > 0);
                assert(self.table@.to_multiset().count(fitted[0]) > 0);
                assert(self.table@.contains(fitted[0]));
                let j = choose|j: int| 0 <= j < self.table@.len() && self.table@[j] == fitted[0];
                assert(j == 0);
                assert(self.table@[0].level == 1);
            }
        }
        let ghost prefinal = self.table@;
        self.build_huffman_code_map();
        proof {
            assert forall|s: int| 0 <= s < self.max_syms() implies (table_has_symbol(
                self.table_view(),
                s as HuffmanSymbol,
            ) <==> (#[trigger] freqs0[s]) > 0) by {
                assert(self.table_view() == prefinal);
                assert(table_has_symbol(prefinal, s as HuffmanSymbol) <==> table_has_symbol(
                    preLimit,
                    s as HuffmanSymbol,
                ));
                assert(table_has_symbol(preLimit, s as HuffmanSymbol) <==> table_has_symbol(
                    presort,
                    s as HuffmanSymbol,
                ));
                assert(table_has_symbol(presort, s as HuffmanSymbol) <==> ((s as int)
                    < self.max_syms() && freqs0[s] > 0));
            }
        }
    }
}

/// The leaf list of a subtree has exactly one entry per leaf.
proof fn lemma_leaf_count_matches(n: HuffmanNode, level: int)
    ensures
        spec_leaves(n, level).len() == node_leaf_count(n),
    decreases n,
{
    match n.data {
        HuffmanNodeData::Leaf(_) => {},
        HuffmanNodeData::Node(l, r) => {
            lemma_leaf_count_matches(*l, level + 1);
            lemma_leaf_count_matches(*r, level + 1);
        },
    }
}

/// The largest level in a table.
pub open spec fn max_level(t: Seq<HuffmanTableData>) -> int
    decreases t.len(),
{
    if t.len() == 0 {
        0
    } else {
        let m = max_level(t.drop_last());
        if t.last().level > m {
            t.last().level as int
        } else {
            m
        }
    }
}

/// Bits used to write `level - 1` when the largest level is `ml`.
pub open spec fn bits_per_level(ml: int) -> int {
    if ml <= 2 {
        1
    } else if ml <= 4 {
        2
    } else if ml <= 8 {
        3
    } else {
        4
    }
}

/// The wire form of the table entries: for each, nine bits of symbol and
/// `bpl` bits of `level - 1`.
pub open spec fn entries_bits(t: Seq<HuffmanTableData>, bpl: int) -> Seq<bool>
    decreases t.len(),
{
    if t.len() == 0 {
        Seq::empty()
    } else {
        entries_bits(t.drop_last(), bpl) + low_bits(t.last().symbol as u64, 9) + low_bits(
            (t.last().level - 1) as u64,
            bpl as nat,
        )
    }
}

/// The wire form of a whole table: entry count, largest level, entries.
pub open spec fn table_header_bits(t: Seq<HuffmanTableData>) -> Seq<bool> {
    low_bits(t.len() as u64, 9) + low_bits(max_level(t) as u64, 4) + entries_bits(
        t,
        bits_per_level(max_level(t)),
    )
}

/// The code of one symbol under a code map; symbols without a code add
/// nothing.
pub open spec fn symbol_code_bits(map: Seq<Option<(HuffmanPath, usize)>>, s: HuffmanSymbol)
    -> Seq<bool> {
    if 0 <= (s as int) < map.len() {
        match map[s as int] {
            Some((c, l)) => low_bits(c as u64, l as nat),
            None => Seq::empty(),
        }
    } else {
        Seq::empty()
    }
}

/// The concatenated codes of a symbol sequence.
pub open spec fn symbols_code_bits(
    map: Seq<Option<(HuffmanPath, usize)>>,
    syms: Seq<HuffmanSymbol>,
) -> Seq<bool>
    decreases syms.len(),
{
    if syms.len() == 0 {
        Seq::empty()
    } else {
        symbols_code_bits(map, syms.drop_last()) + symbol_code_bits(map, syms.last())
    }
}

proof fn lemma_entries_bits_len(t: Seq<HuffmanTableData>, bpl: int)
    requires
        1 <= bpl <= 4,
    ensures
        entries_bits(t, bpl).len() == t.len() * (9 + bpl),
    decreases t.len(),
{
    if t.len() > 0 {
        lemma_entries_bits_len(t.drop_last(), bpl);
        assert((t.len() - 1) * (9 + bpl) + (9 + bpl) == t.len() * (9 + bpl)) by (nonlinear_arith);
    }
}

proof fn lemma_max_level_bound(t: Seq<HuffmanTableData>)
    requires
        levels_wf(t),
    ensures
        0 <= max_level(t) <= MAX_CODE_LEN,
        t.len() > 0 ==> 1 <= max_level(t),
        forall|i: int| 0 <= i < t.len() ==> (#[trigger] t[i]).level <= max_level(t),
    decreases t.len(),
{
    if t.len() > 0 {
        assert(levels_wf(t.drop_last())) by {
            assert(forall|i: int| 0 <= i < t.len() - 1 ==> t.drop_last()[i] == #[trigger] t[i]);
        }
        lemma_max_level_bound(t.drop_last());
        assert forall|i: int| 0 <= i < t.len() implies (#[trigger] t[i]).level <= max_level(t) by {
            if i < t.len() - 1 {
                assert(t.drop_last()[i] == t[i]);
            }
        }
    }
}

/// Every code a ready map hands out is at most `MAX_CODE_LEN` bits.
proof fn lemma_symbols_code_bits_len(
    map: Seq<Option<(HuffmanPath, usize)>>,
    syms: Seq<HuffmanSymbol>,
    cap: int,
)
    requires
        forall|s: int|
            0 <= s < map.len() ==> ((#[trigger] map[s]) matches Some((c, l)) ==> l <= cap),
        cap >= 0,
    ensures
        symbols_code_bits(map, syms).len() <= syms.len() * cap,
    decreases syms.len(),
{
    if syms.len() > 0 {
        lemma_symbols_code_bits_len(map, syms.drop_last(), cap);
        assert(symbol_code_bits(map, syms.last()).len() <= cap);
        assert((syms.len() - 1) * cap + cap == syms.len() * cap) by (nonlinear_arith);
    }
}

impl HuffmanEncoder {
    /// Serializes the current table: nine bits of entry count, four bits of
    /// largest level, then each entry as nine bits of symbol and
    /// `bits_per_level` bits of `level - 1`.
    fn write_huffman_table(&self, writer: &mut BitWriter)
        requires
            self.wf(),
            self.table_view().len() <= HUFFMAN_MAX_SYMBOLS,
            levels_wf(self.table_view()),
            old(writer).wf(),
            old(writer).bits().len() + table_header_bits(self.table_view()).len()
                <= usize::MAX,
        ensures
            final(writer).wf(),
            final(writer).bits() == old(writer).bits() + table_header_bits(self.table_view()),
    {
        let ghost t = self.table@;
        proof {
            lemma_max_level_bound(t);
            lemma_entries_bits_len(t, bits_per_level(max_level(t)));
            assert(t.len() * (9 + bits_per_level(max_level(t))) >= 0) by (nonlinear_arith);
        }
        let n = self.table.len();
        writer.write_bits_u32(n as u32, HUFFMAN_MAX_SYMBOLS_SIZE);

        let mut ml: usize = 0;
        let mut q: usize = 0;
        proof {
            assert(t.take(0) =~= Seq::<HuffmanTableData>::empty());
        }
        while q < n
            invariant
                q <= n,
                n == self.table@.len(),
                t == self.table@,
                levels_wf(t),
                ml == max_level(t.take(q as int)),
            decreases n - q,
        {
            let e = self.table[q];
            proof {
                assert(t.take(q + 1).drop_last() =~= t.take(q as int));
                assert(t.take(q + 1).last() == e);
            }
            if e.level > ml {
                ml = e.level;
            }
            q = q + 1;
        }
        proof {
            assert(t.take(n as int) =~= t);
        }
        writer.write_bits_u32(ml as u32, 4);
        let bpl: usize = if ml <= 2 {
            1
        } else if ml <= 4 {
            2
        } else if ml <= 8 {
            3
        } else {
            4
        };
        let ghost base = old(writer).bits() + low_bits(t.len() as u64, 9) + low_bits(
            max_level(t) as u64,
            4,
        );
        let mut i: usize = 0;
        proof {
            assert(entries_bits(t.take(0), bpl as int) =~= Seq::<bool>::empty());
            assert(writer.bits() =~= base + entries_bits(t.take(0), bpl as int));
            lemma_entries_bits_len(t.take(0), bpl as int);
        }
        while i < n
            invariant
                i <= n,
                n == self.table@.len(),
                t == self.table@,
                levels_wf(t),
                1 <= bpl <= 4,
                bpl == bits_per_level(max_level(t)),
                writer.wf(),
                writer.bits() == base + entries_bits(t.take(i as int), bpl as int),
                base.len() + entries_bits(t, bpl as int).len() <= usize::MAX,
                entries_bits(t.take(i as int), bpl as int).len() == i * (9 + bpl),
                entries_bits(t, bpl as int).len() == n * (9 + bpl),
            decreases n - i,
        {
            let e = self.table[i];
            proof {
                assert(entries_bits(t.take(i + 1), bpl as int) == entries_bits(
                    t.take(i + 1).drop_last(),
                    bpl as int,
                ) + low_bits(t.take(i + 1).last().symbol as u64, 9) + low_bits(
                    (t.take(i + 1).last().level - 1) as u64,
                    bpl as nat,
                ));
                assert(t.take(i + 1).drop_last() =~= t.take(i as int));
                assert(t.take(i + 1).last() == e);
                assert((i + 1) * (9 + bpl) == i * (9 + bpl) + (9 + bpl)) by (nonlinear_arith);
                assert((i + 1) * (9 + bpl) <= n * (9 + bpl)) by (nonlinear_arith)
                    requires
                        0 <= i < n,
                        1 <= bpl,
                ;
                lemma_entries_bits_len(t.take(i + 1), bpl as int);
            }
            writer.write_bits_u32(e.symbol as u32, HUFFMAN_MAX_SYMBOLS_SIZE);
            writer.write_bits_u32((e.level - 1) as u32, bpl);
            proof {
                assert(writer.bits() =~= base + entries_bits(t.take(i + 1), bpl as int));
            }
            i = i + 1;
        }
        proof {
            assert(t.take(n as int) =~= t);
            assert(final(writer).bits() =~= old(writer).bits() + table_header_bits(t));
        }
    }

    /// Emits the code of one symbol. The symbol must have been given a code
    /// by the last table build.
    pub fn encode_symbol(&mut self, symbol: HuffmanSymbol, writer: &mut BitWriter)
        requires
            old(self).wf(),
            old(self).codes_ready(),
            (symbol as int) < old(self).max_syms(),
            old(self).code_map_view()[symbol as int] is Some,
            old(writer).wf(),
            old(writer).bits().len() + 32 <= usize::MAX,
        ensures
            *final(self) == *old(self),
            final(writer).wf(),
            final(writer).bits() == old(writer).bits() + symbol_code_bits(
                old(self).code_map_view(),
                symbol,
            ),
    {
        match self.code_map[symbol as usize] {
            Some((code, length)) => {
                proof {
                    assert(length <= MAX_CODE_LEN);
                }
                writer.write_bits_u32(code, length);
            },
            None => {
                proof {
                    assert(false);
                }
            },
        }
    }

    /// Writes the chunk's symbol count in 32 bits, then every symbol's code.
    pub fn encode_symbols(&mut self, symbols: &[HuffmanSymbol], writer: &mut BitWriter)
        requires
            old(self).wf(),
            old(self).codes_ready(),
            forall|j: int|
                0 <= j < symbols@.len() ==> (#[trigger] symbols@[j]) < old(self).max_syms(),
            symbols@.len() < 0x1_0000_0000,
            old(writer).wf(),
            old(writer).bits().len() + 32 + symbols@.len() * 12 <= usize::MAX,
        ensures
            *final(self) == *old(self),
            final(writer).wf(),
            final(writer).bits() == old(writer).bits() + low_bits(symbols@.len() as u64, 32)
                + symbols_code_bits(old(self).code_map_view(), symbols@),
    {
        writer.write_bits_u32(symbols.len() as u32, HUFFMAN_CHUNK_SIZE_BITS);
        let ghost map = self.code_map@;
        let ghost base = old(writer).bits() + low_bits(symbols@.len() as u64, 32);
        let mut i: usize = 0;
        proof {
            assert(symbols_code_bits(map, symbols@.take(0)) =~= Seq::<bool>::empty());
            assert(writer.bits() =~= base + symbols_code_bits(map, symbols@.take(0)));
            lemma_symbols_code_bits_len(map, symbols@.take(0), 12);
            assert(forall|s: int|
                0 <= s < map.len() ==> ((#[trigger] map[s]) matches Some((c, l)) ==> l
                    <= MAX_CODE_LEN));
            lemma_symbols_code_bits_len(map, symbols@, 12);
        }
        while i < symbols.len()
            invariant
                i <= symbols@.len(),
                self == old(self),
                self.wf(),
                self.codes_ready(),
                map == self.code_map@,
                forall|j: int|
                    0 <= j < symbols@.len() ==> (#[trigger] symbols@[j]) < self.max_syms(),
                writer.wf(),
                writer.bits() == base + symbols_code_bits(map, symbols@.take(i as int)),
                base.len() + symbols@.len() * 12 <= usize::MAX,
                symbols_code_bits(map, symbols@.take(i as int)).len() <= i * 12,
            decreases symbols@.len() - i,
        {
            let s = symbols[i];
            proof {
                assert(symbols@.take(i + 1).drop_last() =~= symbols@.take(i as int));
                assert(symbols@.take(i + 1).last() == s);
                assert(symbol_code_bits(map, s).len() <= 12) by {
                    assert(forall|s2: int|
                        0 <= s2 < map.len() ==> ((#[trigger] map[s2]) matches Some((c, l)) ==> l
                            <= MAX_CODE_LEN));
                }
                assert(i * 12 + 12 <= symbols@.len() * 12) by (nonlinear_arith)
                    requires
                        i < symbols@.len(),
                ;
            }
            match self.code_map[s as usize] {
                Some((code, length)) => {
                    proof {
                        assert(length <= MAX_CODE_LEN);
                    }
                    writer.write_bits_u32(code, length);
                },
                None => {},
            }
            proof {
                assert(writer.bits() =~= base + symbols_code_bits(map, symbols@.take(i + 1)));
            }
            i = i + 1;
        }
        proof {
            assert(symbols@.take(symbols@.len() as int) =~= symbols@);
        }
    }
}

proof fn lemma_count_sym_present(s: Seq<HuffmanSymbol>, i: int)
    requires
        0 <= i < s.len(),
    ensures
        count_sym(s, s[i] as int) > 0,
    decreases s.len(),
{
    lemma_count_sym_bound(s.drop_last(), s[i] as int);
    if i < s.len() - 1 {
        lemma_count_sym_present(s.drop_last(), i);
    }
}

/// A well-formed table of at most `HUFFMAN_MAX_SYMBOLS` entries serializes to
/// at most `13 + 13 * HUFFMAN_MAX_SYMBOLS` bits.
proof fn lemma_table_header_len(t: Seq<HuffmanTableData>)
    requires
        levels_wf(t),
        t.len() <= HUFFMAN_MAX_SYMBOLS,
    ensures
        table_header_bits(t).len() == 13 + t.len() * (9 + bits_per_level(max_level(t))),
        table_header_bits(t).len() <= 6669,
{
    lemma_max_level_bound(t);
    lemma_entries_bits_len(t, bits_per_level(max_level(t)));
    assert(t.len() * (9 + bits_per_level(max_level(t))) <= 512 * 13) by (nonlinear_arith)
        requires
            0 <= t.len() <= 512,
            9 + bits_per_level(max_level(t)) <= 13,
            bits_per_level(max_level(t)) >= 1,
    ;
}


/// The bits a writer gained past position `from`.
pub open spec fn chunk_stream_of(bits: Seq<bool>, from: int) -> Seq<bool> {
    bits.skip(from)
}

impl HuffmanEncoder {
    /// Encodes one chunk: builds its histogram, table and code map, writes the
    /// table header, the symbol count, and every symbol's code.
    pub fn encode_chunk(&mut self, chunk: &[HuffmanSymbol], writer: &mut BitWriter)
        requires
            old(self).wf(),
            chunk@.len() >= 1,
            chunk@.len() < 0x1_0000_0000,
            forall|j: int| 0 <= j < chunk@.len() ==> (#[trigger] chunk@[j]) < old(self).max_syms(),
            old(writer).wf(),
            old(writer).bits().len() + 6720 + chunk@.len() * 12 <= usize::MAX,
        ensures
            final(self).wf(),
            final(self).max_syms() == old(self).max_syms(),
            final(self).codes_ready(),
            forall|s: int|
                0 <= s < final(self).max_syms() ==> (table_has_symbol(
                    final(self).table_view(),
                    s as HuffmanSymbol,
                ) <==> count_sym(chunk@, s) > 0),
            final(writer).wf(),
            final(writer).bits() == old(writer).bits() + table_header_bits(
                final(self).table_view(),
            ) + low_bits(chunk@.len() as u64, 32) + symbols_code_bits(
                final(self).code_map_view(),
                chunk@,
            ),
    {
        self.build_frequency_table(chunk);
        proof {
            lemma_count_sym_present(chunk@, 0);
            assert(self.freqs()[chunk@[0] as int] > 0);
        }
        self.build_huffman_table();
        proof {
            lemma_table_header_len(self.table_view());
            assert forall|s: int| 0 <= s < self.max_syms() implies (table_has_symbol(
                self.table_view(),
                s as HuffmanSymbol,
            ) <==> count_sym(chunk@, s) > 0) by {
                assert(self.freqs()[s] == count_sym(chunk@, s));
            }
        }
        self.write_huffman_table(writer);
        self.encode_symbols(chunk, writer);
        proof {
            assert(final(writer).bits() =~= old(writer).bits() + table_header_bits(
                self.table_view(),
            ) + low_bits(chunk@.len() as u64, 32) + symbols_code_bits(
                self.code_map_view(),
                chunk@,
            ));
        }
    }

    /// Chunked encoding of a whole symbol sequence; an empty input writes
    /// nothing at all.
    pub fn encode_all(&mut self, bytes: &[HuffmanSymbol], chunk_size: usize, writer: &mut BitWriter)
        requires
            old(self).wf(),
            chunk_size >= 1,
            bytes@.len() < 0x1_0000_0000,
            forall|j: int| 0 <= j < bytes@.len() ==> (#[trigger] bytes@[j]) < old(self).max_syms(),
            old(writer).wf(),
            old(writer).bits().len() + 6752 * bytes@.len() <= usize::MAX,
        ensures
            final(self).wf(),
            final(self).max_syms() == old(self).max_syms(),
            final(writer).wf(),
            final(writer).bits().len() <= old(writer).bits().len() + 6732 * bytes@.len(),
            bytes@.len() == 0 ==> final(writer).bits() == old(writer).bits(),
            old(self).max_syms() < HUFFMAN_MAX_SYMBOLS ==> final(writer).bits() == old(
                writer,
            ).bits() + chunk_stream_of(final(writer).bits(), old(writer).bits().len() as int)
                && decodes_to(
                chunk_stream_of(final(writer).bits(), old(writer).bits().len() as int),
                bytes@,
            ),
    {
        let len = bytes.len();
        if len == 0 {
            proof {
                lemma_decodes_to_empty();
                assert(writer.bits().skip(old(writer).bits().len() as int) =~= Seq::<
                    bool,
                >::empty());
                assert(writer.bits() =~= old(writer).bits() + Seq::<bool>::empty());
                assert(bytes@ =~= Seq::<HuffmanSymbol>::empty());
            }
            return ;
        }
        let cs: usize = if chunk_size <= len {
            chunk_size
        } else {
            len
        };
        let mut pos: usize = 0;
        let ghost mut acc: Seq<bool> = Seq::empty();
        proof {
            lemma_decodes_to_empty();
            assert(writer.bits() =~= old(writer).bits() + acc);
            assert(bytes@.take(0) =~= Seq::<HuffmanSymbol>::empty());
        }
        while pos < len
            invariant
                pos <= len,
                len == bytes@.len(),
                1 <= cs <= len,
                len < 0x1_0000_0000,
                self.wf(),
                self.max_syms() == old(self).max_syms(),
                forall|j: int| 0 <= j < bytes@.len() ==> (#[trigger] bytes@[j]) < self.max_syms(),
                writer.wf(),
                writer.bits() == old(writer).bits() + acc,
                self.max_syms() < HUFFMAN_MAX_SYMBOLS ==> decodes_to(acc, bytes@.take(pos as int)),
                writer.bits().len() <= old(writer).bits().len() + 6732 * pos,
                old(writer).bits().len() + 6752 * bytes@.len() <= usize::MAX,
            decreases len - pos,
        {
            let end: usize = if pos + cs <= len {
                pos + cs
            } else {
                len
            };
            let chunk: &[HuffmanSymbol] = &bytes[pos..end];
            proof {
                assert(chunk@ == bytes@.subrange(pos as int, end as int));
                assert(forall|j: int|
                    0 <= j < chunk@.len() ==> (#[trigger] chunk@[j]) == bytes@[pos + j]);
                assert(6732 * pos + 6720 + (end - pos) * 12 + 6752 * (bytes@.len() - end) >= 0)
                    by (nonlinear_arith)
                    requires
                        0 <= pos < end <= bytes@.len(),
                ;
                assert(6732 * pos + 6720 + (end - pos) * 12 <= 6752 * (end as int))
                    by (nonlinear_arith)
                    requires
                        0 <= pos < end,
                ;
                assert(6752 * (end as int) <= 6752 * bytes@.len()) by (nonlinear_arith)
                    requires
                        end <= bytes@.len(),
                ;
            }
            self.encode_chunk(chunk, writer);
            proof {
                lemma_table_header_len(self.table_view());
                lemma_symbols_code_bits_len(self.code_map_view(), chunk@, 12);
                assert(6732 * pos + 6720 + (end - pos) * 12 <= 6732 * (end as int))
                    by (nonlinear_arith)
                    requires
                        0 <= pos < end,
                ;
                let t = self.table_view();
                let cm = self.code_map_view();
                let cbits = table_header_bits(t) + low_bits(chunk@.len() as u64, 32)
                    + symbols_code_bits(cm, chunk@);
                if self.max_syms() < HUFFMAN_MAX_SYMBOLS {
                    lemma_count_sym_present(chunk@, 0);
                    assert(table_has_symbol(t, chunk@[0]));
                    assert(t.len() >= 1) by {
                        let wi = choose|wi: int|
                            0 <= wi < t.len() && (#[trigger] t[wi]).symbol == chunk@[0];
                    }
                    assert forall|j: int|
                        0 <= j < chunk@.len() implies (#[trigger] chunk@[j]) < cm.len()
                            && cm[chunk@[j] as int] is Some by {
                        lemma_count_sym_present(chunk@, j);
                        assert(table_has_symbol(t, chunk@[j]));
                    }
                    lemma_decode_stream_chunk(t, cm, chunk@);
                    lemma_decodes_to_concat(acc, bytes@.take(pos as int), cbits, chunk@);
                    assert(bytes@.take(pos as int) + chunk@ =~= bytes@.take(end as int));
                }
                acc = acc + cbits;
                assert(writer.bits() =~= old(writer).bits() + acc);
            }
            pos = end;
        }
        proof {
            assert(bytes@.take(len as int) =~= bytes@);
            assert(acc =~= writer.bits().skip(old(writer).bits().len() as int));
        }
    }

    /// Chunked encoding of a byte buffer.
    pub fn encode_all_bytes(&mut self, bytes: &[u8], chunk_size: usize, writer: &mut BitWriter)
        requires
            old(self).wf(),
            old(self).max_syms() > 255,
            chunk_size >= 1,
            bytes@.len() < 0x1_0000_0000,
            old(writer).wf(),
            old(writer).bits().len() + 6752 * bytes@.len() <= usize::MAX,
        ensures
            final(self).wf(),
            final(self).max_syms() == old(self).max_syms(),
            final(writer).wf(),
            final(writer).bits().len() <= old(writer).bits().len() + 6732 * bytes@.len(),
            bytes@.len() == 0 ==> final(writer).bits() == old(writer).bits(),
            old(self).max_syms() < HUFFMAN_MAX_SYMBOLS ==> final(writer).bits() == old(
                writer,
            ).bits() + chunk_stream_of(final(writer).bits(), old(writer).bits().len() as int)
                && decodes_to(
                chunk_stream_of(final(writer).bits(), old(writer).bits().len() as int),
                bytes@.map_values(|b: u8| b as HuffmanSymbol),
            ),
    {
        let symbols = HuffmanEncoder::bytes_to_symbols(bytes);
        proof {
            assert(symbols@ =~= bytes@.map_values(|b: u8| b as HuffmanSymbol));
        }
        self.encode_all(symbols.as_slice(), chunk_size, writer);
    }

    /// Widens bytes to table symbols.
    pub fn bytes_to_symbols(bytes: &[u8]) -> (r: Vec<HuffmanSymbol>)
        ensures
            r@.len() == bytes@.len(),
            forall|i: int| 0 <= i < bytes@.len() ==> (#[trigger] r@[i]) == bytes@[i] as u16,
    {
        let mut symbols: Vec<HuffmanSymbol> = Vec::new();
        let mut i: usize = 0;
        while i < bytes.len()
            invariant
                i <= bytes@.len(),
                symbols@.len() == i,
                forall|j: int| 0 <= j < i ==> (#[trigger] symbols@[j]) == bytes@[j] as u16,
            decreases bytes@.len() - i,
        {
            let b = bytes[i];
            symbols.push(b as u16);
            i = i + 1;
        }
        symbols
    }

    /// A cursor over the table entries of the last build.
    pub fn iter(&self) -> (r: HuffmanEncoderIter<'_>)
        ensures
            r.table() == self.table_view(),
            r.cursor() == 0,
    {
        HuffmanEncoderIter { curr_symbol: 0, table_ref: &self.table }
    }
}

/// Walks the entries of an encoder's table in order.
pub struct HuffmanEncoderIter<'a> {
    curr_symbol: usize,
    table_ref: &'a Vec<HuffmanTableData>,
}

impl<'a> HuffmanEncoderIter<'a> {
    /// The entries still to come.
    pub closed spec fn table(&self) -> Seq<HuffmanTableData> {
        self.table_ref@
    }

    pub closed spec fn cursor(&self) -> int {
        self.curr_symbol as int
    }

    /// The next `(symbol, level)` pair, or `None` past the end.
    pub fn next(&mut self) -> (r: Option<(HuffmanSymbol, usize)>)
        ensures
            final(self).table() == old(self).table(),
            old(self).cursor() >= old(self).table().len() ==> r is None && final(self).cursor()
                == old(self).cursor(),
            old(self).cursor() < old(self).table().len() ==> {
                &&& r == Some(
                    (
                        old(self).table()[old(self).cursor()].symbol,
                        old(self).table()[old(self).cursor()].level,
                    ),
                )
                &&& final(self).cursor() == old(self).cursor() + 1
            },
    {
        if self.curr_symbol >= self.table_ref.len() {
            return None;
        }
        let symbol = self.table_ref[self.curr_symbol].symbol;
        let level = self.table_ref[self.curr_symbol].level;
        self.curr_symbol = self.curr_symbol + 1;
        Some((symbol, level))
    }
}

/// The table entry whose codeword interval contains window `w`: entry `i`
/// covers the Kraft mass `[kraft_sum(take(i)), kraft_sum(take(i + 1)))`.
pub open spec fn spec_entry_at(t: Seq<HuffmanTableData>, w: int) -> Option<HuffmanTableData>
    decreases t.len(),
{
    if t.len() == 0 {
        None
    } else if w < kraft_sum(t.drop_last()) {
        spec_entry_at(t.drop_last(), w)
    } else if w < kraft_sum(t) {
        Some(t.last())
    } else {
        None
    }
}

/// The decode lookup a table induces: window to symbol, zero where no code
/// lands.
pub open spec fn spec_sym_map(t: Seq<HuffmanTableData>) -> Seq<HuffmanSymbol> {
    Seq::new(4096, |w: int| match spec_entry_at(t, w) {
        Some(e) => e.symbol,
        None => 0,
    })
}

/// The decode lookup a table induces: window to code length, zero where no
/// code lands.
pub open spec fn spec_lev_map(t: Seq<HuffmanTableData>) -> Seq<usize> {
    Seq::new(4096, |w: int| match spec_entry_at(t, w) {
        Some(e) => e.level,
        None => 0,
    })
}

/// A parsed table the decoder accepts: admissible sorted levels within the
/// Kraft bound.
pub open spec fn table_acceptable(t: Seq<HuffmanTableData>) -> bool {
    &&& levels_wf(t)
    &&& levels_sorted(t)
    &&& kraft_sum(t) <= KRAFT_MAX
}

/// Parses `n` wire entries of `9 + bpl` bits each.
pub open spec fn spec_parse_entries(s: Seq<bool>, n: nat, bpl: int) -> Option<
    (Seq<HuffmanTableData>, Seq<bool>),
>
    decreases n,
{
    if n == 0 {
        Some((Seq::empty(), s))
    } else if s.len() < 9 + bpl {
        None
    } else {
        let sym = bits_val(s.take(9));
        let lev = bits_val(s.skip(9).take(bpl));
        match spec_parse_entries(s.skip(9 + bpl), (n - 1) as nat, bpl) {
            Some((more, rest)) => Some(
                (
                    seq![
                        HuffmanTableData {
                            symbol: sym as HuffmanSymbol,
                            level: (lev + 1) as usize,
                        },
                    ] + more,
                    rest,
                ),
            ),
            None => None,
        }
    }
}

/// Parses a table header: entry count, largest level, entries.
pub open spec fn spec_parse_table(s: Seq<bool>) -> Option<(Seq<HuffmanTableData>, Seq<bool>)> {
    if s.len() < 13 {
        None
    } else {
        let cnt = bits_val(s.take(9));
        let ml = bits_val(s.skip(9).take(4));
        spec_parse_entries(s.skip(13), cnt, bits_per_level(ml as int))
    }
}

/// Decodes `m` symbols through a window lookup: read the saturating
/// 12-bit window, look up symbol and length, consume that many bits.
pub open spec fn spec_decode_syms(
    sym_map: Seq<HuffmanSymbol>,
    lev_map: Seq<usize>,
    s: Seq<bool>,
    m: nat,
) -> Option<(Seq<HuffmanSymbol>, Seq<bool>)>
    decreases m,
{
    if m == 0 {
        Some((Seq::empty(), s))
    } else if s.len() == 0 {
        None
    } else {
        let w = saturating_window(s, 12) as int;
        let sym = sym_map[w];
        let l = lev_map[w];
        let eff: int = if l <= s.len() {
            l as int
        } else {
            s.len() as int
        };
        match spec_decode_syms(sym_map, lev_map, s.skip(eff), (m - 1) as nat) {
            Some((syms, rest)) => Some((seq![sym] + syms, rest)),
            None => None,
        }
    }
}

/// Decodes chunks until at most 32 bits remain. The guard that each chunk
/// consumes something is vacuous on streams a parser can produce, and makes
/// the recursion well founded on all others.
pub open spec fn spec_decode_stream(s: Seq<bool>) -> Result<Seq<HuffmanSymbol>, CodecError>
    decreases s.len(),
{
    if s.len() <= 32 {
        Ok(Seq::empty())
    } else {
        match spec_parse_table(s) {
            None => Err(CodecError::UnexpectedEof),
            Some((t, rest)) => {
                if !table_acceptable(t) {
                    Err(CodecError::CorruptStream)
                } else if rest.len() < 32 {
                    Err(CodecError::UnexpectedEof)
                } else {
                    let m = bits_val(rest.take(32));
                    match spec_decode_syms(spec_sym_map(t), spec_lev_map(t), rest.skip(32), m) {
                        None => Err(CodecError::UnexpectedEof),
                        Some((syms, rest2)) => {
                            if rest2.len() < s.len() {
                                match spec_decode_stream(rest2) {
                                    Ok(more) => Ok(syms + more),
                                    Err(e) => Err(e),
                                }
                            } else {
                                Err(CodecError::CorruptStream)
                            }
                        },
                    }
                }
            },
        }
    }
}

/// Saturating windows fit the decode lookup.
pub proof fn lemma_window_in_range(s: Seq<bool>)
    requires
        s.len() > 0,
    ensures
        0 <= saturating_window(s, 12) < 4096,
{
    lemma2_to64();
    if s.len() >= 12 {
        crate::bitstream::lemma_bits_val_bound(s.take(12));
    } else {
        crate::bitstream::lemma_bits_val_bound(s);
        lemma_pow2_adds(s.len(), (12 - s.len()) as nat);
        lemma_pow2_pos((12 - s.len()) as nat);
        assert(bits_val(s) * pow2((12 - s.len()) as nat) < pow2(s.len()) * pow2(
            (12 - s.len()) as nat,
        )) by (nonlinear_arith)
            requires
                bits_val(s) < pow2(s.len()),
                pow2((12 - s.len()) as nat) > 0,
        ;
    }
}

/// The table-driven decoder: the parsed table and the two window lookups.
pub struct HuffmanDecoder {
    table: Vec<HuffmanTableData>,
    symbol_map: Vec<HuffmanSymbol>,
    level_map: Vec<usize>,
}

impl HuffmanDecoder {
    pub closed spec fn table_view(&self) -> Seq<HuffmanTableData> {
        self.table@
    }

    pub closed spec fn sym_map_view(&self) -> Seq<HuffmanSymbol> {
        self.symbol_map@
    }

    pub closed spec fn lev_map_view(&self) -> Seq<usize> {
        self.level_map@
    }

    pub closed spec fn wf(&self) -> bool {
        &&& self.symbol_map@.len() == 4096
        &&& self.level_map@.len() == 4096
    }

    /// Whether the lookups are exactly those of the held table.
    pub open spec fn maps_set(&self) -> bool {
        &&& self.sym_map_view() == spec_sym_map(self.table_view())
        &&& self.lev_map_view() == spec_lev_map(self.table_view())
    }

    pub fn new() -> (r: Self)
        ensures
            r.wf(),
            r.table_view() == Seq::<HuffmanTableData>::empty(),
    {
        let mut symbol_map: Vec<HuffmanSymbol> = Vec::new();
        let mut level_map: Vec<usize> = Vec::new();
        let mut i: usize = 0;
        while i < 4096
            invariant
                i <= 4096,
                symbol_map@.len() == i,
                level_map@.len() == i,
            decreases 4096 - i,
        {
            symbol_map.push(0);
            level_map.push(0);
            i = i + 1;
        }
        HuffmanDecoder { table: Vec::new(), symbol_map, level_map }
    }
}

/// In a sorted admissible table, every window inside entry `i`'s Kraft
/// interval resolves to entry `i`.
proof fn lemma_spec_entry_at_interval(t: Seq<HuffmanTableData>, i: int, w: int)
    requires
        levels_wf(t),
        levels_sorted(t),
        0 <= i < t.len(),
        kraft_sum(t.take(i)) <= w < kraft_sum(t.take(i + 1)),
    ensures
        spec_entry_at(t, w) == Some(t[i]),
    decreases t.len(),
{
    lemma_kraft_prefix(t, i + 1);
    if i == t.len() - 1 {
        assert(t.take(i) =~= t.drop_last());
        assert(t.take(i + 1) =~= t);
    } else {
        assert(kraft_sum(t.take(i + 1)) <= kraft_sum(t.drop_last())) by {
            assert(t.take(i + 1) =~= t.drop_last().take(i + 1));
            lemma_kraft_prefix(t.drop_last(), i + 1);
        }
        assert(levels_wf(t.drop_last()) && levels_sorted(t.drop_last())) by {
            assert(forall|j: int| 0 <= j < t.len() - 1 ==> t.drop_last()[j] == #[trigger] t[j]);
        }
        assert(t.drop_last().take(i) =~= t.take(i));
        assert(t.drop_last().take(i + 1) =~= t.take(i + 1));
        lemma_spec_entry_at_interval(t.drop_last(), i, w);
        lemma_kraft_sum_nonneg(t.take(i));
    }
}

/// Windows past the whole Kraft mass resolve to nothing.
proof fn lemma_spec_entry_at_none(t: Seq<HuffmanTableData>, w: int)
    requires
        w >= kraft_sum(t),
    ensures
        spec_entry_at(t, w) is None,
    decreases t.len(),
{
    if t.len() > 0 {
        lemma_pow2_pos((MAX_CODE_LEN - t.last().level) as nat);
        lemma_spec_entry_at_none(t.drop_last(), w);
    }
}

impl HuffmanDecoder {
    /// Rebuilds the two window lookups from the held table by canonical code
    /// assignment: entry `i` fills exactly its Kraft interval.
    #[verifier::spinoff_prover]
    #[verifier::rlimit(100)]
    fn fill_huffman_symbol_and_level_maps(&mut self)
        requires
            old(self).wf(),
            table_acceptable(old(self).table_view()),
        ensures
            final(self).wf(),
            final(self).table_view() == old(self).table_view(),
            final(self).maps_set(),
    {
        let ghost t = self.table@;
        let mut z: usize = 0;
        while z < 4096
            invariant
                z <= 4096,
                self.wf(),
                self.table@ == t,
                table_acceptable(t),
                forall|j: int| 0 <= j < z ==> (#[trigger] self.symbol_map@[j]) == 0,
                forall|j: int| 0 <= j < z ==> (#[trigger] self.level_map@[j]) == 0,
            decreases 4096 - z,
        {
            self.symbol_map.set(z, 0);
            self.level_map.set(z, 0);
            z = z + 1;
        }
        let mut code: u32 = 0;
        let mut last_level: usize = 0;
        let mut i: usize = 0;
        let tn = self.table.len();
        proof {
            assert(t.take(0) =~= Seq::<HuffmanTableData>::empty());
            lemma_kraft_prefix(t, 0);
        }
        while i < tn
            invariant
                self.wf(),
                self.table@ == t,
                tn == t.len(),
                i <= tn,
                table_acceptable(t),
                i == 0 ==> code == 0 && last_level == 0,
                i > 0 ==> code == canonical_code(t, i - 1) && last_level == t[i - 1].level,
                forall|w: int|
                    0 <= w < kraft_sum(t.take(i as int)) ==> (#[trigger] self.symbol_map@[w])
                        == spec_sym_map(t)[w] && self.level_map@[w] == spec_lev_map(t)[w],
                forall|w: int|
                    kraft_sum(t.take(i as int)) <= w < 4096 ==> (#[trigger] self.symbol_map@[w])
                        == 0 && self.level_map@[w] == 0,
            decreases tn - i,
        {
            let e = self.table[i];
            proof {
                lemma_canonical_code_bound(t, i as int);
                lemma_canonical_interval(t, i as int);
                lemma2_to64();
                if i > 0 {
                    lemma_canonical_code_bound(t, i as int - 1);
                    lemma_pow2_strictly_increases(t[i as int - 1].level as nat, 13);
                    lemma2_to64_rest();
                }
            }
            if last_level != e.level {
                if last_level != 0 {
                    code = code + 1;
                    proof {
                        lemma_pow2_strictly_increases(t[i as int].level as nat, 13);
                        lemma2_to64_rest();
                        lemma_u32_shl_is_mul(code, (e.level - last_level) as u32);
                    }
                    code = code << ((e.level - last_level) as u32);
                }
                last_level = e.level;
            } else {
                code = code + 1;
            }
            proof {
                assert(code == canonical_code(t, i as int));
            }
            let range: usize = kraft_term(e.level);
            proof {
                lemma_kraft_prefix(t, i as int);
                lemma_kraft_prefix(t, i + 1);
                lemma_kraft_sum_nonneg(t.take(i as int));
                assert(code * pow2((MAX_CODE_LEN - e.level) as nat) == kraft_sum(t.take(i as int)));
                lemma_u32_shl_is_mul(code, (MAX_CODE_LEN - e.level) as u32);
                assert(t.take(i + 1).drop_last() =~= t.take(i as int));
            }
            let start: usize = ((code << ((MAX_CODE_LEN - e.level) as u32)) as usize);
            proof {
                assert(start == kraft_sum(t.take(i as int)));
                assert(start + range == kraft_sum(t.take(i + 1)));
                assert(start + range <= 4096);
            }
            let mut w: usize = start;
            while w < start + range
                invariant
                    self.wf(),
                    self.table@ == t,
                    table_acceptable(t),
                    tn == t.len(),
                    i < tn,
                    start <= w <= start + range,
                    start == kraft_sum(t.take(i as int)),
                    start + range == kraft_sum(t.take(i + 1)),
                    start + range <= 4096,
                    e == t[i as int],
                    forall|w2: int|
                        0 <= w2 < start ==> (#[trigger] self.symbol_map@[w2]) == spec_sym_map(
                            t,
                        )[w2] && self.level_map@[w2] == spec_lev_map(t)[w2],
                    forall|w2: int|
                        start <= w2 < w ==> (#[trigger] self.symbol_map@[w2]) == e.symbol
                            && self.level_map@[w2] == e.level,
                    forall|w2: int|
                        w <= w2 < 4096 ==> (#[trigger] self.symbol_map@[w2]) == 0
                            && self.level_map@[w2] == 0,
                decreases start + range - w,
            {
                let ghost presym = self.symbol_map@;
                let ghost prelev = self.level_map@;
                self.symbol_map.set(w, e.symbol);
                self.level_map.set(w, e.level);
                proof {
                    assert(self.symbol_map@ == presym.update(w as int, e.symbol));
                    assert(self.level_map@ == prelev.update(w as int, e.level));
                    assert forall|w2: int| 0 <= w2 < start implies (
                    #[trigger] self.symbol_map@[w2]) == spec_sym_map(t)[w2] && self.level_map@[w2]
                        == spec_lev_map(t)[w2] by {
                        assert(presym[w2] == spec_sym_map(t)[w2]);
                        assert(prelev[w2] == spec_lev_map(t)[w2]);
                    }
                    assert forall|w2: int| start <= w2 <= w implies (
                    #[trigger] self.symbol_map@[w2]) == e.symbol && self.level_map@[w2] == e.level
                        by {
                        if w2 < w {
                            assert(presym[w2] == e.symbol);
                            assert(prelev[w2] == e.level);
                        }
                    }
                    assert forall|w2: int| w + 1 <= w2 < 4096 implies (
                    #[trigger] self.symbol_map@[w2]) == 0 && self.level_map@[w2] == 0 by {
                        assert(presym[w2] == 0);
                        assert(prelev[w2] == 0);
                    }
                }
                w = w + 1;
            }
            proof {
                assert forall|w2: int|
                    0 <= w2 < kraft_sum(t.take(i + 1)) implies (#[trigger] self.symbol_map@[w2])
                        == spec_sym_map(t)[w2] && self.level_map@[w2] == spec_lev_map(t)[w2] by {
                    if w2 < start {
                        assert(self.symbol_map@[w2] == spec_sym_map(t)[w2]);
                        assert(self.level_map@[w2] == spec_lev_map(t)[w2]);
                    } else {
                        assert(start <= w2 < start + range);
                        lemma_spec_entry_at_interval(t, i as int, w2);
                        assert(spec_entry_at(t, w2) == Some(t[i as int]));
                        assert(spec_sym_map(t)[w2] == t[i as int].symbol);
                        assert(spec_lev_map(t)[w2] == t[i as int].level);
                        assert(self.symbol_map@[w2] == e.symbol);
                        assert(self.level_map@[w2] == e.level);
                    }
                }
            }
            i = i + 1;
        }
        proof {
            assert(t.take(tn as int) =~= t);
            assert forall|w2: int|
                0 <= w2 < 4096 implies (#[trigger] self.symbol_map@[w2]) == spec_sym_map(t)[w2]
                    && self.level_map@[w2] == spec_lev_map(t)[w2] by {
                if w2 >= kraft_sum(t) {
                    lemma_spec_entry_at_none(t, w2);
                    assert(spec_entry_at(t, w2) is None);
                    assert(spec_sym_map(t)[w2] == 0);
                    assert(spec_lev_map(t)[w2] == 0);
                    assert(self.symbol_map@[w2] == 0);
                    assert(self.level_map@[w2] == 0);
                }
            }
            assert(self.sym_map_view() =~= spec_sym_map(t));
            assert forall|w2: int| 0 <= w2 < 4096 implies (#[trigger] self.level_map@[w2])
                == spec_lev_map(t)[w2] by {
                let x = self.symbol_map@[w2];
                if w2 >= kraft_sum(t) {
                    lemma_spec_entry_at_none(t, w2);
                    assert(spec_lev_map(t)[w2] == 0);
                    assert(self.level_map@[w2] == 0);
                }
            }
            assert(self.lev_map_view() =~= spec_lev_map(t));
        }
    }
}

proof fn lemma_parse_entries_rest(s: Seq<bool>, n: nat, bpl: int)
    requires
        bpl >= 1,
    ensures
        spec_parse_entries(s, n, bpl) matches Some((t2, rest)) ==> rest.len() + n * (9 + bpl)
            == s.len() && t2.len() == n,
    decreases n,
{
    if n == 0 {
    } else if s.len() < 9 + bpl {
    } else {
        lemma_parse_entries_rest(s.skip(9 + bpl), (n - 1) as nat, bpl);
        match spec_parse_entries(s.skip(9 + bpl), (n - 1) as nat, bpl) {
            Some((more, rest)) => {
                assert((n - 1) * (9 + bpl) + (9 + bpl) == n * (9 + bpl)) by (nonlinear_arith);
                assert(rest.len() + n * (9 + bpl) == s.len());
            },
            None => {},
        }
    }
}

proof fn lemma_decode_syms_rest(
    sym_map: Seq<HuffmanSymbol>,
    lev_map: Seq<usize>,
    s: Seq<bool>,
    m: nat,
)
    ensures
        spec_decode_syms(sym_map, lev_map, s, m) matches Some((syms, rest)) ==> rest.len()
            <= s.len() && syms.len() == m,
    decreases m,
{
    if m > 0 && s.len() > 0 {
        let w = saturating_window(s, 12) as int;
        let l = lev_map[w];
        let eff: int = if l <= s.len() {
            l as int
        } else {
            s.len() as int
        };
        lemma_decode_syms_rest(sym_map, lev_map, s.skip(eff), (m - 1) as nat);
    }
}

impl HuffmanDecoder {
    /// Reads a table header from the stream, validates it, and rebuilds the
    /// decode lookups. A truncated header is an unexpected end of input; an
    /// inadmissible table is a corrupt stream.
    pub fn read_huffman_table(&mut self, reader: &mut BitReader) -> (r: Result<(), CodecError>)
        requires
            old(self).wf(),
            old(reader).wf(),
        ensures
            final(self).wf(),
            final(reader).wf(),
            final(reader).all_bits() == old(reader).all_bits(),
            match spec_parse_table(old(reader).rem_bits()) {
                None => r == Result::<(), CodecError>::Err(CodecError::UnexpectedEof),
                Some((t, rest)) => {
                    if table_acceptable(t) {
                        &&& r is Ok
                        &&& final(self).table_view() == t
                        &&& final(self).maps_set()
                        &&& final(reader).rem_bits() == rest
                    } else {
                        r == Result::<(), CodecError>::Err(CodecError::CorruptStream)
                    }
                },
            },
    {
        let ghost rem0 = reader.rem_bits();
        let rem = reader.remaining_bits();
        if rem < 13 {
            return Err(CodecError::UnexpectedEof);
        }
        let symbol_num: u32 = match reader.read_bits_into_u32(HUFFMAN_MAX_SYMBOLS_SIZE) {
            Some(v) => v,
            None => {
                proof {
                    assert(false);
                }
                0
            },
        };
        let max_level_read: u32 = match reader.read_bits_into_u32(4) {
            Some(v) => v,
            None => {
                proof {
                    assert(false);
                }
                0
            },
        };
        proof {
            assert(reader.rem_bits() =~= rem0.skip(13));
            assert(rem0.skip(9).take(4) =~= rem0.skip(9).take(4));
            assert(rem0.skip(9).take(4) == old(reader).rem_bits().skip(9).take(4));
            crate::bitstream::lemma_bits_val_bound(rem0.take(9));
            crate::bitstream::lemma_bits_val_bound(rem0.skip(9).take(4));
            lemma2_to64();
        }
        let bpl: usize = if max_level_read <= 2 {
            1
        } else if max_level_read <= 4 {
            2
        } else if max_level_read <= 8 {
            3
        } else {
            4
        };
        let ghost s0 = rem0.skip(13);
        let ghost cnt = bits_val(rem0.take(9));
        proof {
            assert(rem0.len() >= 13);
        }
        self.table.clear();
        let mut q: u32 = 0;
        while q < symbol_num
            invariant
                q <= symbol_num,
                symbol_num == cnt,
                symbol_num < 512,
                self.wf(),
                1 <= bpl <= 4,
                rem0 == old(reader).rem_bits(),
                rem0.len() >= 13,
                s0 == rem0.skip(13),
                cnt == bits_val(rem0.take(9)),
                bpl == bits_per_level(bits_val(rem0.skip(9).take(4)) as int),
                reader.wf(),
                reader.all_bits() == old(reader).all_bits(),
                self.table@.len() == q,
                forall|j: int|
                    0 <= j < q ==> 1 <= (#[trigger] self.table@[j]).level,
                spec_parse_entries(s0, cnt as nat, bpl as int) == (match spec_parse_entries(
                    reader.rem_bits(),
                    (cnt - q) as nat,
                    bpl as int,
                ) {
                    Some((more, rest)) => Some::<(Seq<HuffmanTableData>, Seq<bool>)>(
                        (self.table@ + more, rest),
                    ),
                    None => None::<(Seq<HuffmanTableData>, Seq<bool>)>,
                }),
            decreases symbol_num - q,
        {
            let ghost scur = reader.rem_bits();
            let remq = reader.remaining_bits();
            if remq < 9 + bpl {
                proof {
                    assert(spec_parse_entries(scur, (cnt - q) as nat, bpl as int) is None);
                    assert(spec_parse_entries(s0, cnt as nat, bpl as int) is None);
                    assert(spec_parse_table(rem0) is None);
                }
                return Err(CodecError::UnexpectedEof);
            }
            let sym: u32 = match reader.read_bits_into_u32(HUFFMAN_MAX_SYMBOLS_SIZE) {
                Some(v) => v,
                None => {
                    proof {
                        assert(false);
                    }
                    0
                },
            };
            let lv: u32 = match reader.read_bits_into_u32(bpl) {
                Some(v) => v,
                None => {
                    proof {
                        assert(false);
                    }
                    0
                },
            };
            proof {
                crate::bitstream::lemma_bits_val_bound(scur.take(9));
                crate::bitstream::lemma_bits_val_bound(scur.skip(9).take(bpl as int));
                lemma2_to64();
                assert(reader.rem_bits() =~= scur.skip(9 + bpl));
            }
            let entry = HuffmanTableData { symbol: sym as u16, level: (lv as usize) + 1 };
            let ghost pretable = self.table@;
            self.table.push(entry);
            proof {
                let one = seq![entry];
                assert(spec_parse_entries(scur, (cnt - q) as nat, bpl as int) == (
                match spec_parse_entries(scur.skip(9 + bpl), (cnt - q - 1) as nat, bpl as int) {
                    Some((more2, rest2)) => Some::<(Seq<HuffmanTableData>, Seq<bool>)>(
                        (one + more2, rest2),
                    ),
                    None => None::<(Seq<HuffmanTableData>, Seq<bool>)>,
                }));
                match spec_parse_entries(reader.rem_bits(), (cnt - q - 1) as nat, bpl as int) {
                    Some((more2, rest2)) => {
                        assert(pretable + (one + more2) =~= self.table@ + more2);
                    },
                    None => {},
                }
            }
            q = q + 1;
        }
        proof {
            assert(spec_parse_entries(reader.rem_bits(), 0, bpl as int) == Some::<
                (Seq<HuffmanTableData>, Seq<bool>),
            >((Seq::empty(), reader.rem_bits())));
            assert(self.table@ + Seq::<HuffmanTableData>::empty() =~= self.table@);
            assert(spec_parse_table(rem0) == Some::<(Seq<HuffmanTableData>, Seq<bool>)>(
                (self.table@, reader.rem_bits()),
            ));
        }
        let ghost t = self.table@;
        let tn = self.table.len();
        let ghost restbits = reader.rem_bits();
        let mut v: usize = 0;
        while v < tn
            invariant
                v <= tn,
                self.wf(),
                reader.wf(),
                reader.all_bits() == old(reader).all_bits(),
                reader.rem_bits() == restbits,
                spec_parse_table(old(reader).rem_bits()) == Some::<
                    (Seq<HuffmanTableData>, Seq<bool>),
                >((t, restbits)),
                tn == self.table@.len(),
                t == self.table@,
                forall|j: int| 0 <= j < t.len() ==> 1 <= (#[trigger] t[j]).level,
                forall|j: int| 0 <= j < v ==> (#[trigger] t[j]).level <= MAX_CODE_LEN,
            decreases tn - v,
        {
            if self.table[v].level > MAX_CODE_LEN {
                proof {
                    assert(!levels_wf(t));
                }
                return Err(CodecError::CorruptStream);
            }
            v = v + 1;
        }
        let mut v2: usize = 1;
        while v2 < tn
            invariant
                1 <= v2 <= tn || tn == 0,
                self.wf(),
                reader.wf(),
                reader.all_bits() == old(reader).all_bits(),
                reader.rem_bits() == restbits,
                spec_parse_table(old(reader).rem_bits()) == Some::<
                    (Seq<HuffmanTableData>, Seq<bool>),
                >((t, restbits)),
                tn == self.table@.len(),
                t == self.table@,
                forall|i2: int, j2: int|
                    0 <= i2 < j2 < v2 ==> (#[trigger] t[i2]).level <= (#[trigger] t[j2]).level,
            decreases tn - v2,
        {
            if self.table[v2 - 1].level > self.table[v2].level {
                proof {
                    assert(!levels_sorted(t));
                }
                return Err(CodecError::CorruptStream);
            }
            proof {
                assert forall|i2: int, j2: int|
                    0 <= i2 < j2 < v2 + 1 implies (#[trigger] t[i2]).level <= (
                #[trigger] t[j2]).level by {
                    if j2 == v2 {
                        assert(t[i2].level <= t[v2 - 1].level);
                    }
                }
            }
            v2 = v2 + 1;
        }
        let mut k: usize = 0;
        let mut v3: usize = 0;
        proof {
            assert(t.take(0) =~= Seq::<HuffmanTableData>::empty());
        }
        while v3 < tn
            invariant
                v3 <= tn,
                self.wf(),
                reader.wf(),
                reader.all_bits() == old(reader).all_bits(),
                reader.rem_bits() == restbits,
                spec_parse_table(old(reader).rem_bits()) == Some::<
                    (Seq<HuffmanTableData>, Seq<bool>),
                >((t, restbits)),
                tn == self.table@.len(),
                tn < 512,
                t == self.table@,
                levels_wf(t),
                k == kraft_sum(t.take(v3 as int)),
                k <= v3 * 2048,
            decreases tn - v3,
        {
            let e = self.table[v3];
            proof {
                assert(t.take(v3 + 1).drop_last() =~= t.take(v3 as int));
                assert(t.take(v3 + 1).last() == e);
            }
            k = k + kraft_term(e.level);
            v3 = v3 + 1;
        }
        proof {
            assert(t.take(tn as int) =~= t);
        }
        if k > KRAFT_MAX {
            return Err(CodecError::CorruptStream);
        }
        self.fill_huffman_symbol_and_level_maps();
        Ok(())
    }

    /// Decodes one symbol: peek the saturating window, look up the symbol,
    /// consume its code length.
    pub fn decode_one(&mut self, reader: &mut BitReader) -> (r: Result<HuffmanSymbol, CodecError>)
        requires
            old(self).wf(),
            old(reader).wf(),
        ensures
            *final(self) == *old(self),
            final(reader).wf(),
            final(reader).all_bits() == old(reader).all_bits(),
            old(reader).rem_bits().len() == 0 ==> r == Result::<HuffmanSymbol, CodecError>::Err(
                CodecError::UnexpectedEof,
            ),
            old(reader).rem_bits().len() > 0 ==> ({
                let w = saturating_window(old(reader).rem_bits(), 12) as int;
                let l = old(self).lev_map_view()[w];
                &&& r == Result::<HuffmanSymbol, CodecError>::Ok(old(self).sym_map_view()[w])
                &&& final(reader).rem_bits() == old(reader).rem_bits().skip(
                    if l <= old(reader).rem_bits().len() {
                        l as int
                    } else {
                        old(reader).rem_bits().len() as int
                    },
                )
            }),
    {
        match reader.peek_bits_into_u32_with_shift(MAX_CODE_LEN) {
            None => Err(CodecError::UnexpectedEof),
            Some(path) => {
                proof {
                    lemma_window_in_range(old(reader).rem_bits());
                }
                let lev = self.level_map[path as usize];
                reader.empty_bits(lev);
                Ok(self.symbol_map[path as usize])
            },
        }
    }

    /// Decodes one chunk: its 32-bit symbol count, then that many symbols
    /// through the current lookups.
    pub fn decode_chunk(&mut self, reader: &mut BitReader) -> (r: Result<
        Vec<HuffmanSymbol>,
        CodecError,
    >)
        requires
            old(self).wf(),
            old(reader).wf(),
        ensures
            *final(self) == *old(self),
            final(reader).wf(),
            final(reader).all_bits() == old(reader).all_bits(),
            old(reader).rem_bits().len() < 32 ==> r == Result::<Vec<HuffmanSymbol>, CodecError>::Err(
                CodecError::UnexpectedEof,
            ),
            old(reader).rem_bits().len() >= 32 ==> ({
                let m = bits_val(old(reader).rem_bits().take(32));
                match spec_decode_syms(
                    old(self).sym_map_view(),
                    old(self).lev_map_view(),
                    old(reader).rem_bits().skip(32),
                    m,
                ) {
                    Some((syms, rest)) => (r matches Ok(v) && v@ == syms
                        && final(reader).rem_bits() == rest),
                    None => r == Result::<Vec<HuffmanSymbol>, CodecError>::Err(
                        CodecError::UnexpectedEof,
                    ),
                }
            }),
    {
        let rem = reader.remaining_bits();
        if rem < 32 {
            return Err(CodecError::UnexpectedEof);
        }
        let chunk_size: u32 = match reader.read_bits_into_u32(HUFFMAN_CHUNK_SIZE_BITS) {
            Some(v) => v,
            None => {
                proof {
                    assert(false);
                }
                0
            },
        };
        let ghost m = bits_val(old(reader).rem_bits().take(32));
        let ghost syms0 = old(reader).rem_bits().skip(32);
        let ghost smap = self.symbol_map@;
        let ghost lmap = self.level_map@;
        let mut decoded: Vec<HuffmanSymbol> = Vec::new();
        let mut done: u32 = 0;
        proof {
            crate::bitstream::lemma_bits_val_bound(old(reader).rem_bits().take(32));
            lemma2_to64();
        }
        while done < chunk_size
            invariant
                done <= chunk_size,
                chunk_size == m,
                self.wf(),
                *self == *old(self),
                smap == self.symbol_map@,
                lmap == self.level_map@,
                smap == old(self).sym_map_view(),
                lmap == old(self).lev_map_view(),
                old(reader).rem_bits().len() >= 32,
                m == bits_val(old(reader).rem_bits().take(32)),
                syms0 == old(reader).rem_bits().skip(32),
                reader.wf(),
                reader.all_bits() == old(reader).all_bits(),
                spec_decode_syms(smap, lmap, syms0, m) == (match spec_decode_syms(
                    smap,
                    lmap,
                    reader.rem_bits(),
                    (m - done) as nat,
                ) {
                    Some((syms, rest)) => Some::<(Seq<HuffmanSymbol>, Seq<bool>)>(
                        (decoded@ + syms, rest),
                    ),
                    None => None::<(Seq<HuffmanSymbol>, Seq<bool>)>,
                }),
            decreases chunk_size - done,
        {
            let ghost scur = reader.rem_bits();
            match reader.peek_bits_into_u32_with_shift(MAX_CODE_LEN) {
                None => {
                    proof {
                        assert(spec_decode_syms(smap, lmap, scur, (m - done) as nat) is None);
                    }
                    return Err(CodecError::UnexpectedEof);
                },
                Some(path) => {
                    proof {
                        lemma_window_in_range(scur);
                    }
                    let symbol = self.symbol_map[path as usize];
                    let level = self.level_map[path as usize];
                    let ghost predecoded = decoded@;
                    decoded.push(symbol);
                    reader.empty_bits(level);
                    proof {
                        match spec_decode_syms(smap, lmap, reader.rem_bits(), (m - done - 1) as nat) {
                            Some((syms2, rest2)) => {
                                assert(predecoded + (seq![symbol] + syms2) =~= decoded@ + syms2);
                            },
                            None => {},
                        }
                    }
                },
            }
            done = done + 1;
        }
        proof {
            assert(spec_decode_syms(smap, lmap, reader.rem_bits(), 0) == Some::<
                (Seq<HuffmanSymbol>, Seq<bool>),
            >((Seq::empty(), reader.rem_bits())));
            assert(decoded@ + Seq::<HuffmanSymbol>::empty() =~= decoded@);
        }
        Ok(decoded)
    }

    /// Decodes chunks until at most one chunk-count field's worth of bits —
    /// the final padding — remains.
    pub fn decode_all(&mut self, reader: &mut BitReader) -> (r: Result<
        Vec<HuffmanSymbol>,
        CodecError,
    >)
        requires
            old(self).wf(),
            old(reader).wf(),
        ensures
            final(self).wf(),
            final(reader).wf(),
            match spec_decode_stream(old(reader).rem_bits()) {
                Ok(syms) => r matches Ok(v) && v@ == syms,
                Err(e) => r == Result::<Vec<HuffmanSymbol>, CodecError>::Err(e),
            },
    {
        let mut decoded: Vec<HuffmanSymbol> = Vec::new();
        let ghost rem0 = reader.rem_bits();
        while reader.remaining_bits() > HUFFMAN_CHUNK_SIZE_BITS
            invariant
                self.wf(),
                reader.wf(),
                rem0 == old(reader).rem_bits(),
                match spec_decode_stream(reader.rem_bits()) {
                    Ok(more) => spec_decode_stream(rem0) == Result::<
                        Seq<HuffmanSymbol>,
                        CodecError,
                    >::Ok(decoded@ + more),
                    Err(e) => spec_decode_stream(rem0) == Result::<
                        Seq<HuffmanSymbol>,
                        CodecError,
                    >::Err(e),
                },
            decreases reader.rem_bits().len(),
        {
            let ghost scur = reader.rem_bits();
            match self.read_huffman_table(reader) {
                Err(e) => {
                    proof {
                        match spec_parse_table(scur) {
                            Some((t2, rest2)) => {
                                assert(!table_acceptable(t2));
                            },
                            None => {},
                        }
                    }
                    return Err(e);
                },
                Ok(()) => {},
            }
            let ghost t = self.table_view();
            let ghost rest = reader.rem_bits();
            proof {
                lemma_parse_entries_rest(scur.skip(13), bits_val(scur.take(9)), bits_per_level(
                    bits_val(scur.skip(9).take(4)) as int,
                ));
                assert(rest.len() < scur.len());
            }
            let chunk = match self.decode_chunk(reader) {
                Err(e) => {
                    proof {
                        if rest.len() >= 32 {
                            assert(spec_decode_syms(
                                spec_sym_map(t),
                                spec_lev_map(t),
                                rest.skip(32),
                                bits_val(rest.take(32)),
                            ) is None);
                        }
                        assert(spec_decode_stream(scur) == Result::<
                            Seq<HuffmanSymbol>,
                            CodecError,
                        >::Err(CodecError::UnexpectedEof));
                        assert(e == CodecError::UnexpectedEof);
                    }
                    return Err(e);
                },
                Ok(v) => v,
            };
            let ghost chunkv = chunk@;
            proof {
                lemma_decode_syms_rest(
                    spec_sym_map(t),
                    spec_lev_map(t),
                    rest.skip(32),
                    bits_val(rest.take(32)),
                );
                assert(reader.rem_bits().len() < scur.len());
            }
            let ghost prechunk = decoded@;
            let mut chunk = chunk;
            decoded.append(&mut chunk);
            proof {
                assert(decoded@ == prechunk + chunkv);
                match spec_decode_syms(
                    spec_sym_map(t),
                    spec_lev_map(t),
                    rest.skip(32),
                    bits_val(rest.take(32)),
                ) {
                    Some((syms, rest2)) => {
                        assert(chunkv == syms && reader.rem_bits() == rest2);
                        assert(spec_decode_stream(scur) == (match spec_decode_stream(rest2) {
                            Ok(more) => Result::<Seq<HuffmanSymbol>, CodecError>::Ok(syms + more),
                            Err(e2) => Result::<Seq<HuffmanSymbol>, CodecError>::Err(e2),
                        }));
                        match spec_decode_stream(reader.rem_bits()) {
                            Ok(more) => {
                                assert(prechunk + (syms + more) =~= decoded@ + more);
                            },
                            Err(e2) => {},
                        }
                    },
                    None => {
                        assert(false);
                    },
                }
            }
        }
        proof {
            assert(decoded@ + Seq::<HuffmanSymbol>::empty() =~= decoded@);
        }
        Ok(decoded)
    }
}

/// Whether every decoded symbol fits a byte.
pub open spec fn all_bytes(syms: Seq<HuffmanSymbol>) -> bool {
    forall|i: int| 0 <= i < syms.len() ==> (#[trigger] syms[i]) <= 255
}

/// Decoded symbols narrowed back to bytes.
pub open spec fn syms_as_bytes(syms: Seq<HuffmanSymbol>) -> Seq<u8> {
    syms.map_values(|s: HuffmanSymbol| s as u8)
}

impl HuffmanDecoder {
    /// Narrows decoded symbols to bytes; a symbol above 255 marks a stream
    /// that did not encode bytes.
    pub fn symbols_to_bytes(symbols: &[HuffmanSymbol]) -> (r: Result<Vec<u8>, CodecError>)
        ensures
            all_bytes(symbols@) ==> (r matches Ok(v) && v@ == syms_as_bytes(symbols@)),
            !all_bytes(symbols@) ==> r == Result::<Vec<u8>, CodecError>::Err(
                CodecError::CorruptStream,
            ),
    {
        let mut bytes: Vec<u8> = Vec::new();
        let mut i: usize = 0;
        while i < symbols.len()
            invariant
                i <= symbols@.len(),
                bytes@.len() == i,
                forall|j: int| 0 <= j < i ==> (#[trigger] symbols@[j]) <= 255,
                forall|j: int| 0 <= j < i ==> (#[trigger] bytes@[j]) == symbols@[j] as u8,
            decreases symbols@.len() - i,
        {
            let sy = symbols[i];
            if sy > 255 {
                return Err(CodecError::CorruptStream);
            }
            bytes.push(sy as u8);
            i = i + 1;
        }
        proof {
            assert(bytes@ =~= syms_as_bytes(symbols@));
        }
        Ok(bytes)
    }

    /// Decodes every chunk and narrows the symbols to bytes.
    pub fn decode_all_bytes(&mut self, reader: &mut BitReader) -> (r: Result<Vec<u8>, CodecError>)
        requires
            old(self).wf(),
            old(reader).wf(),
        ensures
            final(self).wf(),
            final(reader).wf(),
            match spec_decode_stream(old(reader).rem_bits()) {
                Ok(syms) => {
                    if all_bytes(syms) {
                        r matches Ok(v) && v@ == syms_as_bytes(syms)
                    } else {
                        r == Result::<Vec<u8>, CodecError>::Err(CodecError::CorruptStream)
                    }
                },
                Err(e) => r == Result::<Vec<u8>, CodecError>::Err(e),
            },
    {
        match self.decode_all(reader) {
            Ok(syms) => HuffmanDecoder::symbols_to_bytes(syms.as_slice()),
            Err(e) => Err(e),
        }
    }
}

/// Compresses a byte buffer in chunks of `chunk_size`; an empty input yields
/// an empty output.
pub fn compress_huffman(input: &[u8], chunk_size: usize) -> (r: Vec<u8>)
    requires
        chunk_size >= 1,
        input@.len() < 0x1_0000_0000,
        6752 * input@.len() <= usize::MAX,
    ensures
        input@.len() == 0 ==> r@.len() == 0,
        8 * r@.len() <= 6752 * input@.len() + 8,
        spec_decode_stream(crate::bitstream::bytes_bits(r@)) == Result::<
            Seq<HuffmanSymbol>,
            CodecError,
        >::Ok(input@.map_values(|b: u8| b as HuffmanSymbol)),
        all_bytes(input@.map_values(|b: u8| b as HuffmanSymbol)),
        syms_as_bytes(input@.map_values(|b: u8| b as HuffmanSymbol)) == input@,
{
    let mut writer = BitWriter::new();
    let mut encoder = HuffmanEncoder::new(256);
    encoder.encode_all_bytes(input, chunk_size, &mut writer);
    let out = writer.get_bytes();
    proof {
        let syms = input@.map_values(|b: u8| b as HuffmanSymbol);
        let stream = writer.bits();
        assert(stream =~= chunk_stream_of(writer.bits(), 0));
        assert(Seq::<bool>::empty() + chunk_stream_of(writer.bits(), 0) =~= chunk_stream_of(
            writer.bits(),
            0,
        ));
        assert(decodes_to(stream, syms));
        let padseq = crate::bitstream::padded_bits(stream).skip(stream.len() as int);
        assert(crate::bitstream::padded_bits(stream) =~= stream + padseq);
        assert(padseq.len() <= 32);
        assert(spec_decode_stream(padseq) == Result::<Seq<HuffmanSymbol>, CodecError>::Ok(
            Seq::empty(),
        ));
        assert(spec_decode_stream(stream + padseq) == Result::<Seq<HuffmanSymbol>, CodecError>::Ok(
            syms + Seq::empty(),
        ));
        assert(syms + Seq::<HuffmanSymbol>::empty() =~= syms);
        assert(crate::bitstream::bytes_bits(out@) == stream + padseq);
        crate::bitstream::lemma_bytes_bits_len(out@);
        assert(padseq.len() <= 7);
        assert(8 * out@.len() <= 6752 * input@.len() + 8);
        assert(syms_as_bytes(syms) =~= input@);
        if input@.len() == 0 {
            assert(crate::bitstream::padded_bits(Seq::<bool>::empty()) =~= Seq::<bool>::empty());
            crate::bitstream::lemma_bytes_bits_len(out@);
        }
    }
    out
}

/// Decompresses a Huffman stream: exactly the chunk-by-chunk table-driven
/// decode of the input's bits, narrowed to bytes.
pub fn decompress_huffman(input: &[u8]) -> (r: Result<Vec<u8>, CodecError>)
    requires
        input@.len() <= usize::MAX as nat / 8,
    ensures
        match spec_decode_stream(crate::bitstream::bytes_bits(input@)) {
            Ok(syms) => {
                if all_bytes(syms) {
                    r matches Ok(v) && v@ == syms_as_bytes(syms)
                } else {
                    r == Result::<Vec<u8>, CodecError>::Err(CodecError::CorruptStream)
                }
            },
            Err(e) => r == Result::<Vec<u8>, CodecError>::Err(e),
        },
{
    let mut reader = BitReader::new(input);
    let mut decoder = HuffmanDecoder::new();
    decoder.decode_all_bytes(&mut reader)
}

/// The canonical-code law: along the table, two entries of the same length
/// take numerically consecutive codes, and the first code of a longer length
/// is the previous code plus one, shifted left by the length difference.
pub proof fn lemma_canonical_codes_consecutive(t: Seq<HuffmanTableData>, i: int)
    requires
        0 < i < t.len(),
    ensures
        t[i].level == t[i - 1].level ==> canonical_code(t, i) == canonical_code(t, i - 1) + 1,
        t[i].level != t[i - 1].level ==> canonical_code(t, i) == (canonical_code(t, i - 1) + 1)
            * pow2((t[i].level - t[i - 1].level) as nat),
{
}

/// A stream prefix that always decodes to `syms`, whatever well-formed or
/// ill-formed stream follows it.
pub open spec fn decodes_to(stream: Seq<bool>, syms: Seq<HuffmanSymbol>) -> bool {
    forall|rest: Seq<bool>|
        #![trigger spec_decode_stream(stream + rest)]
        spec_decode_stream(stream + rest) == (match spec_decode_stream(rest) {
            Ok(more) => Result::<Seq<HuffmanSymbol>, CodecError>::Ok(syms + more),
            Err(e) => Result::<Seq<HuffmanSymbol>, CodecError>::Err(e),
        })
}

proof fn lemma_decodes_to_empty()
    ensures
        decodes_to(Seq::empty(), Seq::empty()),
{
    assert forall|rest: Seq<bool>| #[trigger]
        spec_decode_stream(Seq::<bool>::empty() + rest) == (match spec_decode_stream(rest) {
            Ok(more) => Result::<Seq<HuffmanSymbol>, CodecError>::Ok(Seq::empty() + more),
            Err(e) => Result::<Seq<HuffmanSymbol>, CodecError>::Err(e),
        }) by {
        assert(Seq::<bool>::empty() + rest =~= rest);
        match spec_decode_stream(rest) {
            Ok(more) => {
                assert(Seq::<HuffmanSymbol>::empty() + more =~= more);
            },
            Err(e) => {},
        }
    }
}

/// Decoding composes over concatenation of self-contained stream prefixes.
proof fn lemma_decodes_to_concat(
    a: Seq<bool>,
    s1: Seq<HuffmanSymbol>,
    b: Seq<bool>,
    s2: Seq<HuffmanSymbol>,
)
    requires
        decodes_to(a, s1),
        decodes_to(b, s2),
    ensures
        decodes_to(a + b, s1 + s2),
{
    assert forall|rest: Seq<bool>| #[trigger]
        spec_decode_stream((a + b) + rest) == (match spec_decode_stream(rest) {
            Ok(more) => Result::<Seq<HuffmanSymbol>, CodecError>::Ok((s1 + s2) + more),
            Err(e) => Result::<Seq<HuffmanSymbol>, CodecError>::Err(e),
        }) by {
        assert((a + b) + rest =~= a + (b + rest));
        assert(spec_decode_stream(a + (b + rest)) == (match spec_decode_stream(b + rest) {
            Ok(more) => Result::<Seq<HuffmanSymbol>, CodecError>::Ok(s1 + more),
            Err(e) => Result::<Seq<HuffmanSymbol>, CodecError>::Err(e),
        }));
        match spec_decode_stream(rest) {
            Ok(more) => {
                assert(s1 + (s2 + more) =~= (s1 + s2) + more);
            },
            Err(e) => {},
        }
    }
}

proof fn lemma_entries_bits_concat(a: Seq<HuffmanTableData>, b: Seq<HuffmanTableData>, bpl: int)
    ensures
        entries_bits(a + b, bpl) == entries_bits(a, bpl) + entries_bits(b, bpl),
    decreases b.len(),
{
    if b.len() == 0 {
        assert(a + b =~= a);
        assert(entries_bits(a, bpl) + entries_bits(b, bpl) =~= entries_bits(a, bpl));
    } else {
        lemma_entries_bits_concat(a, b.drop_last(), bpl);
        assert((a + b).drop_last() =~= a + b.drop_last());
        assert(entries_bits(a, bpl) + entries_bits(b, bpl) =~= entries_bits(a, bpl)
            + entries_bits(b.drop_last(), bpl) + low_bits(b.last().symbol as u64, 9) + low_bits(
            (b.last().level - 1) as u64,
            bpl as nat,
        ));
    }
}

proof fn lemma_symbols_code_bits_concat(
    map: Seq<Option<(HuffmanPath, usize)>>,
    a: Seq<HuffmanSymbol>,
    b: Seq<HuffmanSymbol>,
)
    ensures
        symbols_code_bits(map, a + b) == symbols_code_bits(map, a) + symbols_code_bits(map, b),
    decreases b.len(),
{
    if b.len() == 0 {
        assert(a + b =~= a);
        assert(symbols_code_bits(map, a) + symbols_code_bits(map, b) =~= symbols_code_bits(map, a));
    } else {
        lemma_symbols_code_bits_concat(map, a, b.drop_last());
        assert((a + b).drop_last() =~= a + b.drop_last());
        assert(symbols_code_bits(map, a) + symbols_code_bits(map, b) =~= symbols_code_bits(map, a)
            + symbols_code_bits(map, b.drop_last()) + symbol_code_bits(map, b.last()));
    }
}

/// Reading entries back undoes writing them.
proof fn lemma_parse_entries_inverse(t: Seq<HuffmanTableData>, rest: Seq<bool>, bpl: int)
    requires
        1 <= bpl <= 4,
        forall|i: int|
            0 <= i < t.len() ==> {
                &&& 1 <= (#[trigger] t[i]).level
                &&& t[i].level - 1 < pow2(bpl as nat)
                &&& t[i].symbol < 512
            },
    ensures
        spec_parse_entries(entries_bits(t, bpl) + rest, t.len() as nat, bpl) == Some::<
            (Seq<HuffmanTableData>, Seq<bool>),
        >((t, rest)),
    decreases t.len(),
{
    lemma2_to64();
    if t.len() == 0 {
        assert(entries_bits(t, bpl) =~= Seq::<bool>::empty());
        assert(entries_bits(t, bpl) + rest =~= rest);
    } else {
        let e = t[0];
        let t2 = t.drop_first();
        let one = seq![e];
        assert(t =~= one + t2);
        lemma_entries_bits_concat(one, t2, bpl);
        assert(one.drop_last() =~= Seq::<HuffmanTableData>::empty());
        assert(entries_bits(Seq::<HuffmanTableData>::empty(), bpl) =~= Seq::<bool>::empty());
        let eb = low_bits(e.symbol as u64, 9) + low_bits((e.level - 1) as u64, bpl as nat);
        assert(entries_bits(one, bpl) =~= eb);
        let s = entries_bits(t, bpl) + rest;
        let tail = entries_bits(t2, bpl) + rest;
        assert(s =~= eb + tail);
        assert(s.len() >= 9 + bpl);
        assert(s.take(9) =~= low_bits(e.symbol as u64, 9));
        assert(s.skip(9).take(bpl) =~= low_bits((e.level - 1) as u64, bpl as nat));
        assert(s.skip(9 + bpl) =~= tail);
        crate::bitstream::lemma_bits_val_low_bits(e.symbol as u64, 9);
        crate::bitstream::lemma_bits_val_low_bits((e.level - 1) as u64, bpl as nat);
        assert(forall|i: int|
            0 <= i < t2.len() ==> {
                &&& 1 <= (#[trigger] t2[i]).level
                &&& t2[i].level - 1 < pow2(bpl as nat)
                &&& t2[i].symbol < 512
            });
        lemma_parse_entries_inverse(t2, rest, bpl);
        assert(bits_val(s.take(9)) as HuffmanSymbol == e.symbol);
        assert((bits_val(s.skip(9).take(bpl)) + 1) as usize == e.level) by {
            lemma_pow2_strictly_increases(bpl as nat, 5);
        }
        assert(seq![
            HuffmanTableData {
                symbol: bits_val(s.take(9)) as HuffmanSymbol,
                level: (bits_val(s.skip(9).take(bpl)) + 1) as usize,
            },
        ] + t2 =~= t);
    }
}

/// Reading a table header back undoes writing it.
proof fn lemma_parse_table_inverse(t: Seq<HuffmanTableData>, rest: Seq<bool>)
    requires
        levels_wf(t),
        1 <= t.len() < 512,
        forall|i: int| 0 <= i < t.len() ==> (#[trigger] t[i]).symbol < 512,
    ensures
        spec_parse_table(table_header_bits(t) + rest) == Some::<
            (Seq<HuffmanTableData>, Seq<bool>),
        >((t, rest)),
{
    lemma2_to64();
    lemma_max_level_bound(t);
    let ml = max_level(t);
    let bpl = bits_per_level(ml);
    let s = table_header_bits(t) + rest;
    lemma_entries_bits_len(t, bpl);
    assert(t.len() * (9 + bpl) >= 0) by (nonlinear_arith)
        requires
            t.len() >= 0,
            bpl >= 1,
    ;
    assert(s.len() >= 13);
    assert(s.take(9) =~= low_bits(t.len() as u64, 9));
    assert(s.skip(9).take(4) =~= low_bits(ml as u64, 4));
    assert(s.skip(13) =~= entries_bits(t, bpl) + rest);
    crate::bitstream::lemma_bits_val_low_bits(t.len() as u64, 9);
    crate::bitstream::lemma_bits_val_low_bits(ml as u64, 4);
    assert forall|i: int| 0 <= i < t.len() implies {
        &&& 1 <= (#[trigger] t[i]).level
        &&& t[i].level - 1 < pow2(bpl as nat)
        &&& t[i].symbol < 512
    } by {
        assert(t[i].level <= ml);
    }
    lemma_parse_entries_inverse(t, rest, bpl);
}

/// A bit stream that starts with entry `i`'s canonical code shows the decoder
/// a window inside entry `i`'s interval.
proof fn lemma_code_window(t: Seq<HuffmanTableData>, i: int, bits: Seq<bool>)
    requires
        levels_wf(t),
        levels_sorted(t),
        kraft_sum(t) <= 4096,
        0 <= i < t.len(),
        bits.len() >= t[i].level,
        bits.take(t[i].level as int) == low_bits(
            canonical_code(t, i) as u64,
            t[i].level as nat,
        ),
    ensures
        spec_entry_at(t, saturating_window(bits, 12) as int) == Some(t[i]),
        0 <= saturating_window(bits, 12) < 4096,
{
    lemma2_to64();
    let l = t[i].level as int;
    let c = canonical_code(t, i);
    lemma_canonical_interval(t, i);
    lemma_canonical_code_bound(t, i);
    lemma_kraft_prefix(t, i + 1);
    lemma_kraft_sum_nonneg(t.take(i));
    assert(t.take(i + 1).drop_last() =~= t.take(i));
    let si = kraft_sum(t.take(i));
    let si1 = kraft_sum(t.take(i + 1));
    assert(si1 == si + pow2((MAX_CODE_LEN - l) as nat));
    crate::bitstream::lemma_bits_val_low_bits(c as u64, l as nat);
    lemma_window_in_range(bits);
    let w = saturating_window(bits, 12) as int;
    if bits.len() >= 12 {
        let mid = bits.subrange(l, 12);
        assert(bits.take(12) =~= bits.take(l as int) + mid);
        crate::bitstream::lemma_bits_val_concat(bits.take(l as int), mid);
        crate::bitstream::lemma_bits_val_bound(mid);
        lemma_pow2_adds(l as nat, (12 - l) as nat);
        assert(w == c * pow2((12 - l) as nat) + bits_val(mid));
        assert(si <= w < si1);
    } else {
        let tail = bits.skip(l);
        assert(bits =~= bits.take(l as int) + tail);
        crate::bitstream::lemma_bits_val_concat(bits.take(l as int), tail);
        crate::bitstream::lemma_bits_val_bound(tail);
        let bl = bits.len() as int;
        assert(w == (c * pow2((bl - l) as nat) + bits_val(tail)) * pow2((12 - bl) as nat));
        lemma_pow2_adds((bl - l) as nat, (12 - bl) as nat);
        lemma_pow2_pos((12 - bl) as nat);
        assert((c * pow2((bl - l) as nat) + bits_val(tail)) * pow2((12 - bl) as nat) == c * (pow2(
            (bl - l) as nat,
        ) * pow2((12 - bl) as nat)) + bits_val(tail) * pow2((12 - bl) as nat))
            by (nonlinear_arith);
        assert(bits_val(tail) * pow2((12 - bl) as nat) < pow2((bl - l) as nat) * pow2(
            (12 - bl) as nat,
        )) by (nonlinear_arith)
            requires
                bits_val(tail) < pow2((bl - l) as nat),
                pow2((12 - bl) as nat) > 0,
        ;
        assert(bits_val(tail) * pow2((12 - bl) as nat) >= 0) by (nonlinear_arith);
        assert(si <= w < si1);
    }
    lemma_spec_entry_at_interval(t, i, w);
}

/// Decoding symbol codes back undoes emitting them.
proof fn lemma_decode_syms_inverse(
    t: Seq<HuffmanTableData>,
    cm: Seq<Option<(HuffmanPath, usize)>>,
    syms: Seq<HuffmanSymbol>,
    rest: Seq<bool>,
)
    requires
        levels_wf(t),
        levels_sorted(t),
        kraft_sum(t) <= 4096,
        cm.len() <= 512,
        forall|s: int|
            0 <= s < cm.len() ==> ((#[trigger] cm[s]) matches Some((c, l)) ==> exists|i: int|
                {
                    &&& 0 <= i < t.len()
                    &&& (#[trigger] t[i]).symbol == s
                    &&& c == canonical_code(t, i)
                    &&& l == t[i].level
                }),
        forall|j: int|
            0 <= j < syms.len() ==> (#[trigger] syms[j]) < cm.len() && cm[syms[j] as int] is Some,
    ensures
        spec_decode_syms(
            spec_sym_map(t),
            spec_lev_map(t),
            symbols_code_bits(cm, syms) + rest,
            syms.len() as nat,
        ) == Some::<(Seq<HuffmanSymbol>, Seq<bool>)>((syms, rest)),
    decreases syms.len(),
{
    if syms.len() == 0 {
        assert(symbols_code_bits(cm, syms) =~= Seq::<bool>::empty());
        assert(symbols_code_bits(cm, syms) + rest =~= rest);
    } else {
        let s0 = syms[0];
        let s2 = syms.drop_first();
        let one = seq![s0];
        assert(syms =~= one + s2);
        lemma_symbols_code_bits_concat(cm, one, s2);
        assert(one.drop_last() =~= Seq::<HuffmanSymbol>::empty());
        assert(symbols_code_bits(cm, Seq::<HuffmanSymbol>::empty()) =~= Seq::<bool>::empty());
        assert(symbols_code_bits(cm, one) =~= symbol_code_bits(cm, s0));
        match cm[s0 as int] {
            Some((c, l)) => {
                let i = choose|i: int|
                    {
                        &&& 0 <= i < t.len()
                        &&& (#[trigger] t[i]).symbol == s0 as int
                        &&& c == canonical_code(t, i)
                        &&& l == t[i].level
                    };
                let code = low_bits(c as u64, l as nat);
                let bits = symbols_code_bits(cm, syms) + rest;
                let tail = symbols_code_bits(cm, s2) + rest;
                assert(bits =~= code + tail);
                assert(bits.take(l as int) =~= code);
                assert(bits.skip(l as int) =~= tail);
                lemma_code_window(t, i, bits);
                let w = saturating_window(bits, 12) as int;
                assert(spec_sym_map(t)[w] == s0);
                assert(spec_lev_map(t)[w] == l);
                assert(forall|j: int|
                    0 <= j < s2.len() ==> (#[trigger] s2[j]) < cm.len() && cm[s2[j] as int]
                        is Some) by {
                    assert(forall|j: int| 0 <= j < s2.len() ==> s2[j] == #[trigger] syms[j + 1]);
                }
                lemma_decode_syms_inverse(t, cm, s2, rest);
                assert(bits.len() >= l);
                assert(seq![s0] + s2 =~= syms);
            },
            None => {
                assert(false);
            },
        }
    }
}

/// Decoding one whole chunk undoes encoding it, whatever stream follows.
proof fn lemma_decode_stream_chunk(
    t: Seq<HuffmanTableData>,
    cm: Seq<Option<(HuffmanPath, usize)>>,
    syms: Seq<HuffmanSymbol>,
)
    requires
        levels_wf(t),
        levels_sorted(t),
        kraft_sum(t) <= KRAFT_MAX,
        1 <= t.len() < 512,
        forall|i: int| 0 <= i < t.len() ==> (#[trigger] t[i]).symbol < 512,
        cm.len() <= 512,
        forall|s: int|
            0 <= s < cm.len() ==> ((#[trigger] cm[s]) matches Some((c, l)) ==> exists|i: int|
                {
                    &&& 0 <= i < t.len()
                    &&& (#[trigger] t[i]).symbol == s
                    &&& c == canonical_code(t, i)
                    &&& l == t[i].level
                }),
        forall|j: int|
            0 <= j < syms.len() ==> (#[trigger] syms[j]) < cm.len() && cm[syms[j] as int] is Some,
        syms.len() < 0x1_0000_0000,
    ensures
        decodes_to(
            table_header_bits(t) + low_bits(syms.len() as u64, 32) + symbols_code_bits(cm, syms),
            syms,
        ),
{
    lemma2_to64();
    lemma_max_level_bound(t);
    lemma_entries_bits_len(t, bits_per_level(max_level(t)));
    assert(t.len() * (9 + bits_per_level(max_level(t))) >= 9) by (nonlinear_arith)
        requires
            t.len() >= 1,
            bits_per_level(max_level(t)) >= 1,
    ;
    let chunk = table_header_bits(t) + low_bits(syms.len() as u64, 32) + symbols_code_bits(
        cm,
        syms,
    );
    assert forall|rest: Seq<bool>| #[trigger]
        spec_decode_stream(chunk + rest) == (match spec_decode_stream(rest) {
            Ok(more) => Result::<Seq<HuffmanSymbol>, CodecError>::Ok(syms + more),
            Err(e) => Result::<Seq<HuffmanSymbol>, CodecError>::Err(e),
        }) by {
        let s = chunk + rest;
        let after_table = low_bits(syms.len() as u64, 32) + symbols_code_bits(cm, syms) + rest;
        assert(s =~= table_header_bits(t) + after_table);
        lemma_parse_table_inverse(t, after_table);
        assert(s.len() > 32);
        assert(table_acceptable(t));
        assert(after_table.len() >= 32);
        assert(after_table.take(32) =~= low_bits(syms.len() as u64, 32));
        crate::bitstream::lemma_bits_val_low_bits(syms.len() as u64, 32);
        lemma2_to64_rest();
        assert(after_table.skip(32) =~= symbols_code_bits(cm, syms) + rest);
        lemma_decode_syms_inverse(t, cm, syms, rest);
        assert(rest.len() < s.len());
    }
}

} // verus!
