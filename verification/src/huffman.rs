use vstd::prelude::*;

use crate::adaptive_dictionary::{occ, AdaptiveDictionary};

verus! {

/// One node of a Huffman tree. A leaf carries a byte value and its frequency;
/// an internal node carries the summed frequency of its subtree and, in
/// `value`, the smallest leaf value below it (the tie-break discriminator).
pub struct HuffmanNode {
    pub frequency: u32,
    pub value: u8,
    pub left: Option<Box<HuffmanNode>>,
    pub right: Option<Box<HuffmanNode>>,
}

impl HuffmanNode {
    fn new(
        frequency: u32,
        value: u8,
        left: Option<Box<HuffmanNode>>,
        right: Option<Box<HuffmanNode>>,
    ) -> (r: HuffmanNode)
        ensures
            r == (HuffmanNode { frequency, value, left, right }),
    {
        HuffmanNode { frequency, value, left, right }
    }
}

/// The ordering key of a pending tree: weight first, then the discriminator.
pub struct HuffmanTuple {
    pub frequency: u32,
    pub value: u8,
}

impl HuffmanTuple {
    pub fn new(frequency: u32, value: u8) -> (r: HuffmanTuple)
        ensures
            r == (HuffmanTuple { frequency, value }),
    {
        HuffmanTuple { frequency, value }
    }

    /// Strict order on keys: by weight ascending, ties by discriminator.
    pub fn is_before(&self, other: &HuffmanTuple) -> (r: bool)
        ensures
            r == tuple_lt(*self, *other),
    {
        self.frequency < other.frequency || (self.frequency == other.frequency && self.value
            < other.value)
    }
}

pub open spec fn tuple_lt(a: HuffmanTuple, b: HuffmanTuple) -> bool {
    a.frequency < b.frequency || (a.frequency == b.frequency && a.value < b.value)
}

pub open spec fn node_key(n: HuffmanNode) -> HuffmanTuple {
    HuffmanTuple { frequency: n.frequency, value: n.value }
}

pub open spec fn node_lt(a: HuffmanNode, b: HuffmanNode) -> bool {
    tuple_lt(node_key(a), node_key(b))
}

pub open spec fn is_leaf(n: HuffmanNode) -> bool {
    n.left is None && n.right is None
}

/// Every node is a leaf or has exactly two children.
pub open spec fn wf_shape(n: HuffmanNode) -> bool
    decreases n,
{
    match (n.left, n.right) {
        (Option::None, Option::None) => true,
        (Option::Some(l), Option::Some(r)) => wf_shape(*l) && wf_shape(*r),
        _ => false,
    }
}

/// The set of byte values held by the leaves of a tree.
pub open spec fn leaf_vals(n: HuffmanNode) -> Set<u8>
    decreases n,
{
    match (n.left, n.right) {
        (Option::Some(l), Option::Some(r)) => leaf_vals(*l) + leaf_vals(*r),
        _ => Set::empty().insert(n.value),
    }
}

/// The root-to-leaf bit path of a byte value, 0 for a left edge and 1 for a
/// right edge; the right subtree wins when a value occurs in both.
pub open spec fn spec_path(n: HuffmanNode, b: u8) -> Option<Seq<u8>>
    decreases n,
{
    match (n.left, n.right) {
        (Option::Some(l), Option::Some(r)) => match spec_path(*r, b) {
            Option::Some(p) => Option::Some(seq![1u8] + p),
            Option::None => match spec_path(*l, b) {
                Option::Some(p) => Option::Some(seq![0u8] + p),
                Option::None => Option::None,
            },
        },
        _ => if n.value == b {
            Option::Some(Seq::empty())
        } else {
            Option::None
        },
    }
}

/// Walks the tree by the leading bits, returning the leaf value reached and
/// the bits left over.
pub open spec fn spec_walk(n: HuffmanNode, bits: Seq<u8>) -> Option<(u8, Seq<u8>)>
    decreases n,
{
    match (n.left, n.right) {
        (Option::Some(l), Option::Some(r)) => if bits.len() == 0 {
            Option::None
        } else if bits[0] == 0 {
            spec_walk(*l, bits.skip(1))
        } else {
            spec_walk(*r, bits.skip(1))
        },
        _ => Option::Some((n.value, bits)),
    }
}

/// Decodes a bit stream against a tree with an internal root, one
/// root-to-leaf walk per output byte.
pub open spec fn spec_decode_bits(root: HuffmanNode, bits: Seq<u8>) -> Option<Seq<u8>>
    decreases bits.len(),
{
    if bits.len() == 0 {
        Option::Some(Seq::empty())
    } else {
        match spec_walk(root, bits) {
            Option::None => Option::None,
            Option::Some((v, rest)) => if rest.len() < bits.len() {
                match spec_decode_bits(root, rest) {
                    Option::None => Option::None,
                    Option::Some(tail) => Option::Some(seq![v] + tail),
                }
            } else {
                Option::None
            },
        }
    }
}

/// First index of the least pending tree under `node_lt`.
pub open spec fn min_idx(ws: Seq<HuffmanNode>) -> int
    decreases ws.len(),
{
    if ws.len() <= 1 {
        0
    } else {
        let m = min_idx(ws.drop_last());
        if node_lt(ws.last(), ws[m]) {
            ws.len() - 1
        } else {
            m
        }
    }
}

pub proof fn lemma_min_idx_in_range(ws: Seq<HuffmanNode>)
    requires
        ws.len() >= 1,
    ensures
        0 <= min_idx(ws) < ws.len(),
    decreases ws.len(),
{
    if ws.len() > 1 {
        lemma_min_idx_in_range(ws.drop_last());
    }
}

pub open spec fn merge_nodes(a: HuffmanNode, b: HuffmanNode) -> HuffmanNode {
    HuffmanNode {
        frequency: ((a.frequency + b.frequency) % 0x1_0000_0000) as u32,
        value: if a.value <= b.value {
            a.value
        } else {
            b.value
        },
        left: Option::Some(Box::new(a)),
        right: Option::Some(Box::new(b)),
    }
}

/// Greedy merge: repeatedly joins the two least pending trees until one is
/// left. The strict order makes the result a function of the input alone.
pub open spec fn spec_build_from(ws: Seq<HuffmanNode>) -> Option<HuffmanNode>
    decreases ws.len(),
    via spec_build_from_decreases
{
    if ws.len() == 0 {
        Option::None
    } else if ws.len() == 1 {
        Option::Some(ws[0])
    } else {
        let i = min_idx(ws);
        let a = ws[i];
        let ws1 = ws.remove(i);
        let j = min_idx(ws1);
        let b = ws1[j];
        spec_build_from(ws1.remove(j).push(merge_nodes(a, b)))
    }
}

#[via_fn]
proof fn spec_build_from_decreases(ws: Seq<HuffmanNode>) {
    if ws.len() > 1 {
        lemma_min_idx_in_range(ws);
        lemma_min_idx_in_range(ws.remove(min_idx(ws)));
    }
}

/// The initial pending leaves: one per byte value with a nonzero count, in
/// ascending byte order.
pub open spec fn spec_leaves_upto(counts: Seq<u32>, b: int) -> Seq<HuffmanNode>
    decreases b,
{
    if b <= 0 {
        Seq::empty()
    } else if counts[b - 1] > 0 {
        spec_leaves_upto(counts, b - 1).push(
            HuffmanNode {
                frequency: counts[b - 1],
                value: (b - 1) as u8,
                left: Option::None,
                right: Option::None,
            },
        )
    } else {
        spec_leaves_upto(counts, b - 1)
    }
}

/// The Huffman tree determined by a frequency table: no tree when every count
/// is zero, a single leaf when one byte value is present, else the greedy
/// merge of the leaves.
pub open spec fn spec_build_tree(counts: Seq<u32>) -> Option<HuffmanNode> {
    spec_build_from(spec_leaves_upto(counts, 256))
}

pub open spec fn opt_box_view(r: Option<Box<HuffmanNode>>) -> Option<HuffmanNode> {
    match r {
        Option::None => Option::None,
        Option::Some(b) => Option::Some(*b),
    }
}

/// Per-byte occurrence counts of a buffer, as a 256-entry table.
pub open spec fn spec_data_counts(s: Seq<u8>) -> Seq<u32> {
    Seq::new(256, |b: int| occ(s, b as u8) as u32)
}

pub open spec fn sum_freq(ws: Seq<HuffmanNode>) -> int
    decreases ws.len(),
{
    if ws.len() == 0 {
        0
    } else {
        sum_freq(ws.drop_last()) + ws.last().frequency
    }
}

pub open spec fn sum_counts_upto(counts: Seq<u32>, b: int) -> int
    decreases b,
{
    if b <= 0 {
        0
    } else {
        sum_counts_upto(counts, b - 1) + counts[b - 1]
    }
}

pub open spec fn sum_counts(counts: Seq<u32>) -> int {
    sum_counts_upto(counts, 256)
}

proof fn lemma_sum_freq_nonneg(ws: Seq<HuffmanNode>)
    ensures
        sum_freq(ws) >= 0,
    decreases ws.len(),
{
    if ws.len() > 0 {
        lemma_sum_freq_nonneg(ws.drop_last());
    }
}

proof fn lemma_sum_freq_remove(ws: Seq<HuffmanNode>, i: int)
    requires
        0 <= i < ws.len(),
    ensures
        sum_freq(ws.remove(i)) == sum_freq(ws) - ws[i].frequency,
    decreases ws.len(),
{
    if i == ws.len() - 1 {
        assert(ws.remove(i) =~= ws.drop_last());
    } else {
        assert(ws.remove(i).drop_last() =~= ws.drop_last().remove(i));
        assert(ws.remove(i).last() == ws.last());
        lemma_sum_freq_remove(ws.drop_last(), i);
    }
}

proof fn lemma_sum_freq_elem(ws: Seq<HuffmanNode>, i: int)
    requires
        0 <= i < ws.len(),
    ensures
        ws[i].frequency <= sum_freq(ws),
    decreases ws.len(),
{
    lemma_sum_freq_remove(ws, i);
    lemma_sum_freq_nonneg(ws.remove(i));
}

/// The pending leaves carry exactly the table's total count: entries whose
/// count is zero contribute nothing to either side.
proof fn lemma_sum_leaves(counts: Seq<u32>, b: int)
    requires
        0 <= b,
    ensures
        sum_freq(spec_leaves_upto(counts, b)) == sum_counts_upto(counts, b),
    decreases b,
{
    if b > 0 {
        lemma_sum_leaves(counts, b - 1);
        if counts[b - 1] > 0 {
            assert(spec_leaves_upto(counts, b).drop_last() =~= spec_leaves_upto(counts, b - 1));
        }
    }
}

/// Finds the first index of the least pending tree.
fn find_min(ws: &Vec<HuffmanNode>) -> (r: usize)
    requires
        ws@.len() >= 1,
    ensures
        r as int == min_idx(ws@),
        r < ws@.len(),
{
    let mut best: usize = 0;
    let mut k: usize = 1;
    proof {
        lemma_min_idx_in_range(ws@);
        assert(ws@.take(1).len() == 1);
        assert(min_idx(ws@.take(1)) == 0);
    }
    while k < ws.len()
        invariant
            1 <= k <= ws@.len(),
            best < k,
            best as int == min_idx(ws@.take(k as int)),
        decreases ws@.len() - k,
    {
        let ka = HuffmanTuple::new(ws[k].frequency, ws[k].value);
        let kb = HuffmanTuple::new(ws[best].frequency, ws[best].value);
        proof {
            assert(ws@.take(k + 1).drop_last() =~= ws@.take(k as int));
            assert(ws@.take(k + 1).last() == ws@[k as int]);
            assert(ws@.take(k as int)[best as int] == ws@[best as int]);
        }
        if ka.is_before(&kb) {
            best = k;
        }
        k += 1;
    }
    proof {
        assert(ws@.take(ws@.len() as int) =~= ws@);
    }
    best
}

/// Joins pending trees two at a time, least first, until at most one remains.
fn merge_worklist(ws: &mut Vec<HuffmanNode>)
    requires
        sum_freq(old(ws)@) <= u32::MAX,
    ensures
        spec_build_from(final(ws)@) == spec_build_from(old(ws)@),
        final(ws)@.len() <= 1,
        final(ws)@.len() == if old(ws)@.len() == 0 {
            0int
        } else {
            1int
        },
{
    while ws.len() > 1
        invariant
            sum_freq(ws@) <= u32::MAX,
            spec_build_from(ws@) == spec_build_from(old(ws)@),
            ws@.len() >= 1 <==> old(ws)@.len() >= 1,
        decreases ws@.len(),
    {
        let ghost ws0 = ws@;
        let i = find_min(ws);
        let a = ws.remove(i);
        proof {
            lemma_sum_freq_remove(ws0, i as int);
        }
        let j = find_min(ws);
        let b = ws.remove(j);
        proof {
            lemma_sum_freq_remove(ws0.remove(i as int), j as int);
            lemma_sum_freq_nonneg(ws@);
            assert(a.frequency + b.frequency <= sum_freq(ws0));
            vstd::arithmetic::div_mod::lemma_small_mod(
                (a.frequency + b.frequency) as nat,
                0x1_0000_0000,
            );
        }
        let value = if a.value <= b.value {
            a.value
        } else {
            b.value
        };
        let frequency = a.frequency + b.frequency;
        let merged = HuffmanNode::new(frequency, value, Some(Box::new(a)), Some(Box::new(b)));
        proof {
            assert(merged == merge_nodes(a, b));
        }
        ws.push(merged);
        proof {
            lemma_sum_freq_remove(ws0, i as int);
            assert(ws@.drop_last() =~= ws0.remove(i as int).remove(j as int));
            assert(sum_freq(ws@) == sum_freq(ws0));
            assert(spec_build_from(ws@) == spec_build_from(ws0));
        }
    }
}

/// Builds the tree for a frequency table: the result is a function of the
/// table alone, so an independent decoder rebuilds the encoder's tree.
pub fn build_huffman_tree_with_dictionary(dictionary: &AdaptiveDictionary) -> (r: Option<
    Box<HuffmanNode>,
>)
    requires
        dictionary.wf(),
        sum_counts(dictionary.counts()) <= u32::MAX,
    ensures
        opt_box_view(r) == spec_build_tree(dictionary.counts()),
{
    let ghost counts = dictionary.counts();
    let freqs = dictionary.get_frequencies();
    let mut ws: Vec<HuffmanNode> = Vec::new();
    let mut b: usize = 0;
    while b < 256
        invariant
            freqs@ == counts,
            counts.len() == 256,
            b <= 256,
            ws@ == spec_leaves_upto(counts, b as int),
        decreases 256 - b,
    {
        let c = freqs[b];
        if c > 0 {
            ws.push(
                HuffmanNode::new(c, b as u8, None, None),
            );
        }
        b += 1;
    }
    proof {
        lemma_sum_leaves(counts, 256);
        lemma_sum_counts_nonneg_parts(counts, 256);
    }
    merge_worklist(&mut ws);
    if ws.len() == 0 {
        None
    } else {
        let root = ws.remove(0);
        Some(Box::new(root))
    }
}

proof fn lemma_sum_counts_nonneg_parts(counts: Seq<u32>, b: int)
    requires
        0 <= b,
    ensures
        sum_counts_upto(counts, b) >= 0,
    decreases b,
{
    if b > 0 {
        lemma_sum_counts_nonneg_parts(counts, b - 1);
    }
}

proof fn lemma_sum_pointwise(c1: Seq<u32>, c2: Seq<u32>, v: int, b: int)
    requires
        0 <= b <= 256,
        0 <= v < 256,
        forall|j: int| 0 <= j < 256 ==> #[trigger] c2[j] == c1[j] + if j == v {
            1int
        } else {
            0int
        },
    ensures
        sum_counts_upto(c2, b) == sum_counts_upto(c1, b) + if v < b {
            1int
        } else {
            0int
        },
    decreases b,
{
    if b > 0 {
        lemma_sum_pointwise(c1, c2, v, b - 1);
    }
}

/// The counts of a buffer sum to its length.
pub proof fn lemma_sum_data_counts(s: Seq<u8>)
    requires
        s.len() <= u32::MAX,
    ensures
        sum_counts(spec_data_counts(s)) == s.len(),
    decreases s.len(),
{
    if s.len() == 0 {
        lemma_sum_all_occ_zero(spec_data_counts(s), s, 256);
    } else {
        lemma_sum_data_counts(s.drop_last());
        let c1 = spec_data_counts(s.drop_last());
        let c2 = spec_data_counts(s);
        assert forall|j: int| 0 <= j < 256 implies #[trigger] c2[j] == c1[j] + if j == s.last()
            as int {
            1int
        } else {
            0int
        } by {
            crate::adaptive_dictionary::lemma_occ_le_len(s, j as u8);
            crate::adaptive_dictionary::lemma_occ_le_len(s.drop_last(), j as u8);
        }
        lemma_sum_pointwise(c1, c2, s.last() as int, 256);
    }
}

proof fn lemma_sum_all_occ_zero(counts: Seq<u32>, s: Seq<u8>, b: int)
    requires
        0 <= b <= 256,
        s.len() == 0,
        counts == spec_data_counts(s),
    ensures
        sum_counts_upto(counts, b) == 0,
    decreases b,
{
    if b > 0 {
        lemma_sum_all_occ_zero(counts, s, b - 1);
        if 0 <= b - 1 < 256 {
            assert(counts[b - 1] == occ(s, (b - 1) as u8) as u32);
            assert(occ(s, (b - 1) as u8) == 0);
        }
    }
}

/// Counts the bytes of a buffer and builds its Huffman tree.
pub fn build_huffman_tree(data: &[u8]) -> (r: Option<Box<HuffmanNode>>)
    requires
        data@.len() <= u32::MAX,
    ensures
        opt_box_view(r) == spec_build_tree(spec_data_counts(data@)),
{
    let mut dictionary = AdaptiveDictionary::new();
    dictionary.update(data);
    proof {
        assert forall|i: int| 0 <= i < 256 implies dictionary.counts()[i] == spec_data_counts(
            data@,
        )[i] by {
            let v = i as u8;
            assert(dictionary.counts()[v as int] == 0 + occ(data@, v));
        }
        assert(dictionary.counts() =~= spec_data_counts(data@));
        lemma_sum_data_counts(data@);
    }
    build_huffman_tree_with_dictionary(&dictionary)
}

/// The code assigned to byte value `b` in a code table, if any.
pub open spec fn code_entry(codes: Seq<Option<Vec<u8>>>, b: int) -> Option<Seq<u8>> {
    match codes[b] {
        Option::Some(v) => Option::Some(v@),
        Option::None => Option::None,
    }
}

/// Walks the tree depth first, recording for each leaf value its
/// root-to-leaf bit path appended to `prefix`. Entries of bytes absent from
/// the tree are left alone.
pub fn generate_huffman_codes(
    node: &HuffmanNode,
    prefix: &mut Vec<u8>,
    codes: &mut Vec<Option<Vec<u8>>>,
)
    requires
        wf_shape(*node),
        old(codes)@.len() == 256,
    ensures
        final(codes)@.len() == 256,
        final(prefix)@ == old(prefix)@,
        forall|b: u8|
            #[trigger] code_entry(final(codes)@, b as int) == (match spec_path(*node, b) {
                Option::Some(p) => Option::Some(old(prefix)@ + p),
                Option::None => code_entry(old(codes)@, b as int),
            }),
    decreases *node,
{
    match (&node.left, &node.right) {
        (Some(l), Some(r)) => {
            let ghost prefix0 = prefix@;
            let ghost codes0 = codes@;
            prefix.push(0);
            generate_huffman_codes(&**l, prefix, codes);
            let ghost codes1 = codes@;
            prefix.pop();
            proof {
                assert(prefix@ =~= prefix0);
            }
            prefix.push(1);
            generate_huffman_codes(&**r, prefix, codes);
            prefix.pop();
            proof {
                assert(prefix@ =~= prefix0);
                assert forall|b: u8| #[trigger] code_entry(codes@, b as int) == (match spec_path(
                    *node,
                    b,
                ) {
                    Option::Some(p) => Option::Some(prefix0 + p),
                    Option::None => code_entry(codes0, b as int),
                }) by {
                    match spec_path(**r, b) {
                        Option::Some(p) => {
                            assert(spec_path(*node, b) == Option::Some(seq![1u8] + p));
                            assert((prefix0 + seq![1u8]) + p =~= prefix0 + (seq![1u8] + p));
                            assert(prefix0.push(1) =~= prefix0 + seq![1u8]);
                        },
                        Option::None => {
                            match spec_path(**l, b) {
                                Option::Some(p) => {
                                    assert(spec_path(*node, b) == Option::Some(seq![0u8] + p));
                                    assert((prefix0 + seq![0u8]) + p =~= prefix0 + (seq![0u8] + p));
                                    assert(prefix0.push(0) =~= prefix0 + seq![0u8]);
                                },
                                Option::None => {
                                    assert(spec_path(*node, b) is None);
                                },
                            }
                        },
                    }
                }
            }
        },
        _ => {
            let code = crate::bitpack::clone_bytes(prefix);
            codes[node.value as usize] = Some(code);
            proof {
                assert forall|b: u8| #[trigger] code_entry(codes@, b as int) == (match spec_path(
                    *node,
                    b,
                ) {
                    Option::Some(p) => Option::Some(old(prefix)@ + p),
                    Option::None => code_entry(old(codes)@, b as int),
                }) by {
                    if b == node.value {
                        assert(spec_path(*node, b) == Option::Some(Seq::<u8>::empty()));
                        assert(old(prefix)@ + Seq::<u8>::empty() =~= old(prefix)@);
                    }
                }
            }
        },
    }
}

/// The concatenated codes of a buffer; bytes without a code contribute
/// nothing.
pub open spec fn spec_bits_of(s: Seq<u8>, codes: Seq<Option<Vec<u8>>>) -> Seq<u8>
    decreases s.len(),
{
    if s.len() == 0 {
        Seq::empty()
    } else {
        (match code_entry(codes, s[0] as int) {
            Option::Some(c) => c,
            Option::None => Seq::empty(),
        }) + spec_bits_of(s.skip(1), codes)
    }
}

/// Every code in the table is a bit sequence.
pub open spec fn codes_bits_valid(codes: Seq<Option<Vec<u8>>>) -> bool {
    forall|b: int|
        0 <= b < 256 ==> match #[trigger] code_entry(codes, b) {
            Option::Some(c) => crate::bitpack::bits_valid(c),
            Option::None => true,
        }
}

/// Concatenates each byte's code into one bit stream and packs it, most
/// significant bit first, with the trailer byte last.
pub fn huffman_encode(data: &[u8], codes: &Vec<Option<Vec<u8>>>) -> (r: Vec<u8>)
    requires
        codes@.len() == 256,
        codes_bits_valid(codes@),
    ensures
        r@ == crate::bitpack::spec_pack(spec_bits_of(data@, codes@)),
{
    let mut bitstring: Vec<u8> = Vec::new();
    let n = data.len();
    let mut i: usize = 0;
    proof {
        assert(data@.skip(0) =~= data@);
    }
    while i < n
        invariant
            n == data@.len(),
            i <= n,
            codes@.len() == 256,
            codes_bits_valid(codes@),
            crate::bitpack::bits_valid(bitstring@),
            spec_bits_of(data@, codes@) == bitstring@ + spec_bits_of(data@.skip(i as int), codes@),
        decreases n - i,
    {
        let ghost pre = bitstring@;
        let b = data[i];
        proof {
            assert(data@.skip(i as int)[0] == b);
            assert(data@.skip(i as int).skip(1) =~= data@.skip(i + 1));
        }
        match &codes[b as usize] {
            Some(code) => {
                let mut k: usize = 0;
                while k < code.len()
                    invariant
                        k <= code@.len(),
                        codes@.len() == 256,
                        (b as int) < 256,
                        code_entry(codes@, b as int) == Option::Some(code@),
                        crate::bitpack::bits_valid(pre),
                        crate::bitpack::bits_valid(code@),
                        bitstring@ == pre + code@.take(k as int),
                    decreases code@.len() - k,
                {
                    bitstring.push(code[k]);
                    proof {
                        assert(code@.take(k + 1) =~= code@.take(k as int).push(code@[k as int]));
                        assert(pre + code@.take(k + 1) =~= (pre + code@.take(k as int)).push(
                            code@[k as int],
                        ));
                    }
                    k += 1;
                }
                proof {
                    assert(code@.take(code@.len() as int) =~= code@);
                    assert forall|q: int| 0 <= q < bitstring@.len() implies #[trigger] bitstring@[q]
                        <= 1 by {
                        assert(bitstring@ == pre + code@);
                    }
                }
            },
            None => {
                proof {
                    assert(bitstring@ =~= pre + Seq::<u8>::empty());
                }
            },
        }
        proof {
            assert(spec_bits_of(data@.skip(i as int), codes@) == (match code_entry(
                codes@,
                b as int,
            ) {
                Option::Some(c) => c,
                Option::None => Seq::<u8>::empty(),
            }) + spec_bits_of(data@.skip(i + 1), codes@));
            assert(spec_bits_of(data@, codes@) =~= bitstring@ + spec_bits_of(
                data@.skip(i + 1),
                codes@,
            ));
        }
        i += 1;
    }
    proof {
        assert(data@.skip(n as int).len() == 0);
        assert(spec_bits_of(data@, codes@) =~= bitstring@);
    }
    crate::bitpack::pack_bits(&bitstring)
}

/// What decoding a payload against a tree yields. An empty payload decodes
/// to the empty buffer whatever the tree. A single-leaf tree encodes an
/// empty bit stream, so its only valid payload is the lone zero trailer
/// byte, which stands for the leaf value repeated `frequency` times; any
/// other payload is malformed. Otherwise the payload is unpacked and the
/// bits walked from the root, one leaf per output byte.
pub open spec fn spec_decode(payload: Seq<u8>, root: HuffmanNode) -> Option<Seq<u8>> {
    if payload.len() == 0 {
        Option::Some(Seq::empty())
    } else if is_leaf(root) {
        if payload == seq![0u8] {
            Option::Some(Seq::new(root.frequency as nat, |i: int| root.value))
        } else {
            Option::None
        }
    } else {
        match crate::bitpack::spec_unpack(payload) {
            Option::None => Option::None,
            Option::Some(bits) => spec_decode_bits(root, bits),
        }
    }
}

/// One root-to-leaf walk starting at bit `idx`; returns the leaf value and
/// the index of the first unconsumed bit.
fn walk_step(node: &HuffmanNode, bits: &Vec<u8>, idx: usize) -> (r: Option<(u8, usize)>)
    requires
        idx <= bits@.len(),
    ensures
        match r {
            Option::Some(p) => {
                &&& idx <= p.1 <= bits@.len()
                &&& (node.left is Some && node.right is Some) ==> p.1 > idx
                &&& spec_walk(*node, bits@.skip(idx as int)) == Option::Some(
                    (p.0, bits@.skip(p.1 as int)),
                )
            },
            Option::None => spec_walk(*node, bits@.skip(idx as int)) is None,
        },
    decreases *node,
{
    match (&node.left, &node.right) {
        (Some(l), Some(r)) => {
            if idx >= bits.len() {
                None
            } else {
                proof {
                    assert(bits@.skip(idx as int)[0] == bits@[idx as int]);
                    assert(bits@.skip(idx as int).skip(1) =~= bits@.skip(idx + 1));
                }
                let bit = bits[idx];
                if bit == 0 {
                    walk_step(&**l, bits, idx + 1)
                } else {
                    walk_step(&**r, bits, idx + 1)
                }
            }
        },
        _ => Some((node.value, idx)),
    }
}

/// Decodes a packed payload against a tree. Fails on an out-of-range trailer
/// byte, on a bit stream that ends in the middle of a walk, and on any
/// nonempty payload other than the lone zero trailer byte when the tree is a
/// single leaf.
pub fn huffman_decode(encoded_data: &[u8], huffman_tree: &HuffmanNode) -> (r: Result<
    Vec<u8>,
    crate::errors::FormatError,
>)
    ensures
        r is Ok <==> spec_decode(encoded_data@, *huffman_tree) is Some,
        r matches Ok(v) ==> Option::Some(v@) == spec_decode(encoded_data@, *huffman_tree),
{
    if encoded_data.len() == 0 {
        return Ok(Vec::new());
    }
    let leaf = match (&huffman_tree.left, &huffman_tree.right) {
        (None, None) => true,
        _ => false,
    };
    if leaf {
        if !(encoded_data.len() == 1 && encoded_data[0] == 0) {
            proof {
                assert(seq![0u8].len() == 1 && seq![0u8][0] == 0u8);
                assert(encoded_data@ != seq![0u8]);
            }
            return Err(crate::errors::FormatError);
        }
        proof {
            assert(encoded_data@ =~= seq![0u8]);
        }
        let mut out: Vec<u8> = Vec::new();
        let total = huffman_tree.frequency;
        let mut k: u32 = 0;
        while k < total
            invariant
                k <= total,
                out@ =~= Seq::new(k as nat, |i: int| huffman_tree.value),
            decreases total - k,
        {
            out.push(huffman_tree.value);
            proof {
                assert(out@ =~= Seq::new((k + 1) as nat, |i: int| huffman_tree.value));
            }
            k += 1;
        }
        return Ok(out);
    }
    let bits = match crate::bitpack::unpack_payload(encoded_data) {
        Some(b) => b,
        None => {
            return Err(crate::errors::FormatError);
        },
    };
    let mut out: Vec<u8> = Vec::new();
    let n = bits.len();
    let mut idx: usize = 0;
    proof {
        assert(bits@.skip(0) =~= bits@);
        assert(out@ + bits@ =~= bits@);
    }
    while idx < n
        invariant
            !is_leaf(*huffman_tree),
            Option::Some(bits@) == crate::bitpack::spec_unpack(encoded_data@),
            n == bits@.len(),
            idx <= n,
            spec_decode_bits(*huffman_tree, bits@) == (match spec_decode_bits(
                *huffman_tree,
                bits@.skip(idx as int),
            ) {
                Option::Some(t) => Option::Some(out@ + t),
                Option::None => Option::None::<Seq<u8>>,
            }),
        decreases n - idx,
    {
        match walk_step(huffman_tree, &bits, idx) {
            Some(step) => {
                let v = step.0;
                let j = step.1;
                if j <= idx {
                    proof {
                        assert(bits@.skip(idx as int).len() > 0);
                        assert(spec_decode_bits(*huffman_tree, bits@.skip(idx as int)) is None);
                    }
                    return Err(crate::errors::FormatError);
                }
                proof {
                    assert(bits@.skip(idx as int).len() > 0);
                    assert(bits@.skip(j as int).len() < bits@.skip(idx as int).len());
                    assert(spec_decode_bits(*huffman_tree, bits@.skip(idx as int)) == (
                    match spec_decode_bits(*huffman_tree, bits@.skip(j as int)) {
                        Option::Some(tail) => Option::Some(seq![v] + tail),
                        Option::None => Option::None::<Seq<u8>>,
                    }));
                    assert(forall|t: Seq<u8>| out@ + (seq![v] + t) =~= out@.push(v) + t);
                }
                out.push(v);
                idx = j;
            },
            None => {
                proof {
                    assert(spec_decode_bits(*huffman_tree, bits@.skip(idx as int)) is None);
                }
                return Err(crate::errors::FormatError);
            },
        }
    }
    proof {
        assert(bits@.skip(n as int).len() == 0);
        assert(out@ + Seq::<u8>::empty() =~= out@);
    }
    Ok(out)
}

/// The tree a frequency table determines, where one exists.
pub open spec fn the_tree(counts: Seq<u32>) -> HuffmanNode {
    match spec_build_tree(counts) {
        Option::Some(t) => t,
        Option::None => HuffmanNode {
            frequency: 0,
            value: 0,
            left: Option::None,
            right: Option::None,
        },
    }
}

/// The concatenated root-to-leaf paths of a buffer's bytes; bytes absent
/// from the tree contribute nothing.
pub open spec fn spec_tree_bits(s: Seq<u8>, t: HuffmanNode) -> Seq<u8>
    decreases s.len(),
{
    if s.len() == 0 {
        Seq::empty()
    } else {
        (match spec_path(t, s[0]) {
            Option::Some(p) => p,
            Option::None => Seq::empty(),
        }) + spec_tree_bits(s.skip(1), t)
    }
}

pub proof fn lemma_bits_of_eq_tree_bits(s: Seq<u8>, codes: Seq<Option<Vec<u8>>>, t: HuffmanNode)
    requires
        forall|b: u8| s.contains(b) ==> #[trigger] code_entry(codes, b as int) == spec_path(t, b),
    ensures
        spec_bits_of(s, codes) == spec_tree_bits(s, t),
    decreases s.len(),
{
    if s.len() > 0 {
        assert(s.contains(s[0]));
        assert forall|b: u8| s.skip(1).contains(b) implies #[trigger] code_entry(codes, b as int)
            == spec_path(t, b) by {
            let i = choose|i: int| 0 <= i < s.skip(1).len() && s.skip(1)[i] == b;
            assert(s[i + 1] == b);
            assert(s.contains(b));
        }
        lemma_bits_of_eq_tree_bits(s.skip(1), codes, t);
    }
}

pub proof fn lemma_path_bits_valid(n: HuffmanNode, b: u8)
    ensures
        match spec_path(n, b) {
            Option::Some(p) => crate::bitpack::bits_valid(p),
            Option::None => true,
        },
    decreases n,
{
    match (n.left, n.right) {
        (Option::Some(l), Option::Some(r)) => {
            lemma_path_bits_valid(*l, b);
            lemma_path_bits_valid(*r, b);
        },
        _ => {},
    }
}

pub proof fn lemma_tree_bits_valid(s: Seq<u8>, t: HuffmanNode)
    ensures
        crate::bitpack::bits_valid(spec_tree_bits(s, t)),
    decreases s.len(),
{
    if s.len() > 0 {
        lemma_path_bits_valid(t, s[0]);
        lemma_tree_bits_valid(s.skip(1), t);
    }
}

/// Following a leaf's path from the root reaches that leaf, whatever bits
/// follow.
pub proof fn lemma_walk_path(n: HuffmanNode, b: u8, p: Seq<u8>, rest: Seq<u8>)
    requires
        wf_shape(n),
        spec_path(n, b) == Option::Some(p),
    ensures
        spec_walk(n, p + rest) == Option::Some((b, rest)),
    decreases n,
{
    match (n.left, n.right) {
        (Option::Some(l), Option::Some(r)) => {
            match spec_path(*r, b) {
                Option::Some(pr) => {
                    assert(p == seq![1u8] + pr);
                    assert((p + rest)[0] == 1);
                    assert((p + rest).skip(1) =~= pr + rest);
                    lemma_walk_path(*r, b, pr, rest);
                },
                Option::None => {
                    let pl = spec_path(*l, b)->Some_0;
                    assert(spec_path(*l, b) == Option::Some(pl));
                    assert(p == seq![0u8] + pl);
                    assert((p + rest)[0] == 0);
                    assert((p + rest).skip(1) =~= pl + rest);
                    lemma_walk_path(*l, b, pl, rest);
                },
            }
        },
        _ => {
            assert(n.value == b && p =~= Seq::<u8>::empty());
            assert(p + rest =~= rest);
        },
    }
}

/// A path into a tree with an internal root is never empty.
pub proof fn lemma_path_nonempty(n: HuffmanNode, b: u8)
    requires
        wf_shape(n),
        !is_leaf(n),
        spec_path(n, b) is Some,
    ensures
        spec_path(n, b)->Some_0.len() >= 1,
{
}

/// A leaf value reachable in the tree has a path.
pub proof fn lemma_vals_path(n: HuffmanNode, b: u8)
    requires
        wf_shape(n),
        leaf_vals(n).contains(b),
    ensures
        spec_path(n, b) is Some,
    decreases n,
{
    match (n.left, n.right) {
        (Option::Some(l), Option::Some(r)) => {
            if leaf_vals(*r).contains(b) {
                lemma_vals_path(*r, b);
            } else {
                assert(leaf_vals(*l).contains(b));
                lemma_vals_path(*l, b);
            }
        },
        _ => {},
    }
}

/// Decoding the concatenated paths of a buffer restores the buffer.
pub proof fn lemma_decode_tree_bits(s: Seq<u8>, t: HuffmanNode)
    requires
        wf_shape(t),
        !is_leaf(t),
        forall|b: u8| s.contains(b) ==> #[trigger] spec_path(t, b) is Some,
    ensures
        spec_decode_bits(t, spec_tree_bits(s, t)) == Option::Some(s),
    decreases s.len(),
{
    if s.len() == 0 {
    } else {
        assert(s.contains(s[0]));
        let p = spec_path(t, s[0])->Some_0;
        assert(spec_path(t, s[0]) == Option::Some(p));
        let rest = spec_tree_bits(s.skip(1), t);
        let bits = spec_tree_bits(s, t);
        assert(bits == p + rest);
        lemma_walk_path(t, s[0], p, rest);
        lemma_path_nonempty(t, s[0]);
        assert(bits.len() > 0);
        assert(rest.len() < bits.len());
        assert forall|b: u8| s.skip(1).contains(b) implies #[trigger] spec_path(t, b) is Some by {
            let i = choose|i: int| 0 <= i < s.skip(1).len() && s.skip(1)[i] == b;
            assert(s[i + 1] == b);
            assert(s.contains(b));
        }
        lemma_decode_tree_bits(s.skip(1), t);
        assert(spec_decode_bits(t, bits) == Option::Some(seq![s[0]] + s.skip(1)));
        assert(seq![s[0]] + s.skip(1) =~= s);
    }
}

/// The set of leaf values over a worklist.
pub open spec fn ws_vals(ws: Seq<HuffmanNode>) -> Set<u8>
    decreases ws.len(),
{
    if ws.len() == 0 {
        Set::empty()
    } else {
        ws_vals(ws.drop_last()) + leaf_vals(ws.last())
    }
}

proof fn lemma_ws_vals_remove(ws: Seq<HuffmanNode>, i: int)
    requires
        0 <= i < ws.len(),
    ensures
        ws_vals(ws.remove(i)) + leaf_vals(ws[i]) =~= ws_vals(ws),
    decreases ws.len(),
{
    if i == ws.len() - 1 {
        assert(ws.remove(i) =~= ws.drop_last());
    } else {
        assert(ws.remove(i).drop_last() =~= ws.drop_last().remove(i));
        assert(ws.remove(i).last() == ws.last());
        lemma_ws_vals_remove(ws.drop_last(), i);
    }
}

proof fn lemma_all_wf(ws: Seq<HuffmanNode>, i: int, j: int)
    requires
        0 <= i < ws.len(),
        0 <= j < ws.remove(i).len(),
        forall|k: int| 0 <= k < ws.len() ==> wf_shape(#[trigger] ws[k]),
    ensures
        forall|k: int|
            0 <= k < ws.remove(i).remove(j).push(
                merge_nodes(ws[i], ws.remove(i)[j]),
            ).len() ==> wf_shape(
                #[trigger] ws.remove(i).remove(j).push(merge_nodes(ws[i], ws.remove(i)[j]))[k],
            ),
{
    let ws1 = ws.remove(i);
    let ws2 = ws1.remove(j);
    let merged = merge_nodes(ws[i], ws1[j]);
    assert(wf_shape(ws1[j])) by {
        if j < i {
            assert(ws1[j] == ws[j]);
        } else {
            assert(ws1[j] == ws[j + 1]);
        }
    }
    assert(wf_shape(merged));
    assert forall|k: int| 0 <= k < ws2.push(merged).len() implies wf_shape(
        #[trigger] ws2.push(merged)[k],
    ) by {
        if k < ws2.len() {
            let k1: int = if k < j {
                k
            } else {
                k + 1
            };
            assert(ws2[k] == ws1[k1]);
            let k2: int = if k1 < i {
                k1
            } else {
                k1 + 1
            };
            assert(ws1[k1] == ws[k2]);
        }
    }
}

/// The merge loop preserves well-shapedness and the set of leaf values.
proof fn lemma_build_from_props(ws: Seq<HuffmanNode>)
    requires
        ws.len() >= 1,
        forall|k: int| 0 <= k < ws.len() ==> wf_shape(#[trigger] ws[k]),
    ensures
        spec_build_from(ws) is Some,
        wf_shape(spec_build_from(ws)->Some_0),
        leaf_vals(spec_build_from(ws)->Some_0) =~= ws_vals(ws),
        ws.len() >= 2 ==> !is_leaf(spec_build_from(ws)->Some_0),
    decreases ws.len(),
{
    if ws.len() == 1 {
        assert(ws.drop_last().len() == 0);
        reveal_with_fuel(ws_vals, 2);
        assert(ws_vals(ws.drop_last()) =~= Set::empty());
        assert(ws.last() == ws[0]);
        assert(ws_vals(ws) =~= leaf_vals(ws[0]));
    } else {
        let i = min_idx(ws);
        lemma_min_idx_in_range(ws);
        let a = ws[i];
        let ws1 = ws.remove(i);
        let j = min_idx(ws1);
        lemma_min_idx_in_range(ws1);
        let b = ws1[j];
        let merged = merge_nodes(a, b);
        let next = ws1.remove(j).push(merged);
        lemma_all_wf(ws, i, j);
        lemma_build_from_props(next);
        assert(ws_vals(next) =~= ws_vals(ws)) by {
            assert(next.drop_last() =~= ws1.remove(j));
            assert(ws_vals(next) =~= ws_vals(ws1.remove(j)) + leaf_vals(merged));
            assert(leaf_vals(merged) =~= leaf_vals(a) + leaf_vals(b));
            lemma_ws_vals_remove(ws1, j);
            lemma_ws_vals_remove(ws, i);
        }
        if next.len() >= 2 {
        } else {
            assert(spec_build_from(next) == Option::Some(merged));
            assert(!is_leaf(merged));
        }
    }
}

proof fn lemma_leaves_elems(counts: Seq<u32>, b: int)
    requires
        0 <= b <= 256,
        counts.len() == 256,
    ensures
        forall|k: int|
            0 <= k < spec_leaves_upto(counts, b).len() ==> {
                let e = #[trigger] spec_leaves_upto(counts, b)[k];
                &&& e.left is None
                &&& e.right is None
                &&& (e.value as int) < b
                &&& counts[e.value as int] == e.frequency
                &&& e.frequency > 0
            },
        forall|k: int| 0 <= k < spec_leaves_upto(counts, b).len() ==> wf_shape(
            #[trigger] spec_leaves_upto(counts, b)[k],
        ),
        ws_vals(spec_leaves_upto(counts, b)) =~= Set::new(
            |v: u8| (v as int) < b && counts[v as int] > 0,
        ),
        forall|v: u8| 0 <= (v as int) < b && counts[v as int] > 0 ==> spec_leaves_upto(
            counts,
            b,
        ).len() >= 1,
    decreases b,
{
    if b > 0 {
        lemma_leaves_elems(counts, b - 1);
        let prev = spec_leaves_upto(counts, b - 1);
        let cur = spec_leaves_upto(counts, b);
        if counts[b - 1] > 0 {
            assert(cur.drop_last() =~= prev);
            assert(ws_vals(cur) =~= ws_vals(prev) + leaf_vals(cur.last()));
            assert(leaf_vals(cur.last()) =~= Set::empty().insert((b - 1) as u8));
            assert(ws_vals(cur) =~= Set::new(|v: u8| (v as int) < b && counts[v as int] > 0));
        } else {
            assert(ws_vals(cur) =~= Set::new(|v: u8| (v as int) < b && counts[v as int] > 0));
        }
    } else {
        assert(ws_vals(spec_leaves_upto(counts, 0)) =~= Set::new(
            |v: u8| (v as int) < 0 && counts[v as int] > 0,
        ));
    }
}

/// Every byte of `s` occurs in it.
proof fn lemma_occ_all_eq(s: Seq<u8>, v: u8)
    requires
        forall|i: int| 0 <= i < s.len() ==> s[i] == v,
    ensures
        occ(s, v) == s.len(),
    decreases s.len(),
{
    if s.len() > 0 {
        lemma_occ_all_eq(s.drop_last(), v);
    }
}

/// Whatever table a tree is built from, every node of it is a leaf or has
/// exactly two children.
pub proof fn lemma_built_tree_wf(counts: Seq<u32>)
    requires
        counts.len() == 256,
    ensures
        spec_build_tree(counts) matches Some(t) ==> wf_shape(t),
{
    lemma_leaves_elems(counts, 256);
    let leaves = spec_leaves_upto(counts, 256);
    if leaves.len() >= 1 {
        lemma_build_from_props(leaves);
    }
}

/// A single-leaf tree assigns the empty path to its own value, so a buffer
/// holding only that value contributes no bits at all.
proof fn lemma_tree_bits_empty_on_leaf(s: Seq<u8>, t: HuffmanNode)
    requires
        is_leaf(t),
        forall|i: int| 0 <= i < s.len() ==> s[i] == t.value,
    ensures
        spec_tree_bits(s, t) == Seq::<u8>::empty(),
    decreases s.len(),
{
    if s.len() > 0 {
        assert(spec_path(t, s[0]) == Option::Some(Seq::<u8>::empty()));
        lemma_tree_bits_empty_on_leaf(s.skip(1), t);
        assert(spec_tree_bits(s, t) =~= Seq::<u8>::empty());
    }
}

/// The tree of a buffer's counts exists for a nonempty buffer, is well
/// shaped, holds exactly the buffer's byte values in its leaves, and decoding
/// the packed concatenated paths of the buffer restores the buffer.
pub proof fn lemma_huffman_round_trip(s: Seq<u8>)
    requires
        1 <= s.len() <= u32::MAX,
    ensures
        spec_build_tree(spec_data_counts(s)) is Some,
        wf_shape(the_tree(spec_data_counts(s))),
        forall|b: u8| s.contains(b) ==> #[trigger] spec_path(the_tree(spec_data_counts(s)), b)
            is Some,
        spec_decode(
            crate::bitpack::spec_pack(spec_tree_bits(s, the_tree(spec_data_counts(s)))),
            the_tree(spec_data_counts(s)),
        ) == Option::Some(s),
{
    let counts = spec_data_counts(s);
    let leaves = spec_leaves_upto(counts, 256);
    lemma_leaves_elems(counts, 256);
    assert(s.contains(s[0]));
    crate::adaptive_dictionary::lemma_occ_contains(s, s[0]);
    crate::adaptive_dictionary::lemma_occ_le_len(s, s[0]);
    assert(counts[s[0] as int] > 0);
    assert(leaves.len() >= 1);
    lemma_build_from_props(leaves);
    let t = the_tree(counts);
    assert(leaf_vals(t) =~= Set::new(|v: u8| counts[v as int] > 0));
    assert forall|b: u8| s.contains(b) implies #[trigger] spec_path(t, b) is Some by {
        crate::adaptive_dictionary::lemma_occ_contains(s, b);
        crate::adaptive_dictionary::lemma_occ_le_len(s, b);
        assert(counts[b as int] > 0);
        assert(leaf_vals(t).contains(b));
        lemma_vals_path(t, b);
    }
    if is_leaf(t) {
        let v = t.value;
        assert(leaf_vals(t) =~= Set::empty().insert(v));
        assert forall|i: int| 0 <= i < s.len() implies s[i] == v by {
            let w = s[i];
            assert(s.contains(w));
            crate::adaptive_dictionary::lemma_occ_contains(s, w);
            crate::adaptive_dictionary::lemma_occ_le_len(s, w);
            assert(counts[w as int] > 0);
            assert(leaf_vals(t).contains(w));
        }
        lemma_occ_all_eq(s, v);
        crate::adaptive_dictionary::lemma_occ_le_len(s, v);
        assert(leaves.len() == 1) by {
            if leaves.len() >= 2 {
                assert(!is_leaf(t));
            }
        }
        assert(t == leaves[0]);
        assert(t.frequency == counts[v as int]);
        assert(counts[v as int] == occ(s, v) as u32);
        lemma_tree_bits_empty_on_leaf(s, t);
        assert(crate::bitpack::spec_pack(Seq::<u8>::empty()) =~= seq![0u8]) by {
            assert(crate::bitpack::pack_full_bytes(Seq::<u8>::empty()) =~= Seq::<u8>::empty());
        }
        assert(t.frequency > 0);
        assert(spec_decode(
            crate::bitpack::spec_pack(spec_tree_bits(s, t)),
            t,
        ) == Option::Some(Seq::new(t.frequency as nat, |i: int| v)));
        assert(Seq::new(t.frequency as nat, |i: int| v) =~= s);
    } else {
        lemma_tree_bits_valid(s, t);
        crate::bitpack::lemma_unpack_pack(spec_tree_bits(s, t));
        lemma_decode_tree_bits(s, t);
    }
}

} // verus!
