use vstd::prelude::*;

verus! {

/// One entry of the pre-order tree serialization.
#[derive(Debug, PartialEq, Eq, Structural)]
pub enum HuffmanTreeRepresentation {
    InternalNode,
    Alphabet(u16),
}

/// A Huffman code tree node: a leaf carries a symbol, an internal node owns
/// exactly two children. `count` is the total frequency under the node.
pub struct HuffmanNode {
    pub count: usize,
    pub label: Option<u16>,
    pub left: Option<Box<HuffmanNode>>,
    pub right: Option<Box<HuffmanNode>>,
}

impl HuffmanNode {
    /// A leaf holds no children; an internal node holds two well-formed ones
    /// and no symbol.
    pub open spec fn wf(self) -> bool
        decreases self,
    {
        match self.label {
            Some(_) => self.left is None && self.right is None,
            None => match (self.left, self.right) {
                (Some(l), Some(r)) => l.wf() && r.wf(),
                _ => false,
            },
        }
    }

    /// Whether some leaf under this node carries `x`.
    pub open spec fn has_label(self, x: u16) -> bool
        decreases self,
    {
        match self.label {
            Some(lab) => lab == x,
            None => {
                let in_left = match self.left {
                    Some(l) => l.has_label(x),
                    None => false,
                };
                let in_right = match self.right {
                    Some(r) => r.has_label(x),
                    None => false,
                };
                in_left || in_right
            },
        }
    }

    /// No symbol occurs under both children of any internal node.
    pub open spec fn distinct_labels(self) -> bool
        decreases self,
    {
        match (self.left, self.right) {
            (Some(l), Some(r)) => l.distinct_labels() && r.distinct_labels() && (forall|x: u16|
                !(l.has_label(x) && #[trigger] r.has_label(x))),
            _ => true,
        }
    }

    /// The branch choices from this node down to the leaf holding `x`:
    /// `false` for left, `true` for right.
    pub open spec fn code_in(self, x: u16) -> Seq<bool>
        decreases self,
    {
        match (self.label, self.left, self.right) {
            (None, Some(l), Some(r)) => if l.has_label(x) {
                seq![false] + l.code_in(x)
            } else {
                seq![true] + r.code_in(x)
            },
            _ => Seq::empty(),
        }
    }

    /// Pre-order serialization of the tree shape: every node is tagged as
    /// internal or as a leaf carrying its symbol.
    pub open spec fn preorder(self) -> Seq<HuffmanTreeRepresentation>
        decreases self,
    {
        match (self.label, self.left, self.right) {
            (Some(lab), _, _) => seq![HuffmanTreeRepresentation::Alphabet(lab)],
            (None, Some(l), Some(r)) => seq![HuffmanTreeRepresentation::InternalNode]
                + l.preorder() + r.preorder(),
            _ => seq![HuffmanTreeRepresentation::InternalNode],
        }
    }

    /// Some symbol occurs under every well-formed node.
    pub proof fn lemma_has_some_label(self) -> (x: u16)
        requires
            self.wf(),
        ensures
            self.has_label(x),
        decreases self,
    {
        match self.label {
            Some(lab) => lab,
            None => match self.left {
                Some(l) => {
                    let x = l.lemma_has_some_label();
                    x
                },
                None => 0,
            },
        }
    }

    /// A fresh leaf.
    pub fn new(label: u16, count: usize) -> (r: HuffmanNode)
        ensures
            r.count == count,
            r.label == Some(label),
            r.left is None,
            r.right is None,
            r.wf(),
            r.distinct_labels(),
            forall|x: u16| #[trigger] r.has_label(x) <==> x == label,
    {
        HuffmanNode { count, label: Some(label), left: None, right: None }
    }

    /// Joins two trees under a fresh internal node whose count is the sum.
    pub fn merge(self, other: HuffmanNode) -> (r: HuffmanNode)
        requires
            self.wf(),
            other.wf(),
            self.count + other.count <= usize::MAX,
        ensures
            r.wf(),
            r.label is None,
            r.count == self.count + other.count,
            r.left matches Some(l) && *l == self,
            r.right matches Some(rr) && *rr == other,
            forall|x: u16| #[trigger] r.has_label(x) <==> self.has_label(x) || other.has_label(x),
            (self.distinct_labels() && other.distinct_labels() && (forall|x: u16|
                !(self.has_label(x) && #[trigger] other.has_label(x)))) ==> r.distinct_labels(),
    {
        let count = self.count + other.count;
        HuffmanNode { count, label: None, left: Some(Box::new(self)), right: Some(Box::new(other)) }
    }

    /// Walks the tree, filling in each leaf symbol's code (the path bits
    /// accumulated in `bits`) and appending the pre-order serialization.
    pub fn to_table(
        self,
        bits: &mut Vec<bool>,
        table: &mut Vec<Vec<bool>>,
        tree: &mut Vec<HuffmanTreeRepresentation>,
    )
        requires
            self.wf(),
            self.distinct_labels(),
            old(table)@.len() == 65536,
        ensures
            final(table)@.len() == 65536,
            final(bits)@ == old(bits)@,
            forall|x: u16|
                self.has_label(x) ==> #[trigger] final(table)@[x as int]@ == old(bits)@
                    + self.code_in(x),
            forall|x: u16|
                !self.has_label(x) ==> #[trigger] final(table)@[x as int] == old(table)@[x as int],
            final(tree)@ == old(tree)@ + self.preorder(),
        decreases self,
    {
        let ghost this = self;
        let ghost bits0 = bits@;
        let ghost tree0 = tree@;
        let HuffmanNode { count: _, label, left, right } = self;
        match label {
            Some(lab) => {
                tree.push(HuffmanTreeRepresentation::Alphabet(lab));
                let code = copy_bits(bits);
                table[lab as usize] = code;
                proof {
                    assert(this.code_in(lab) =~= Seq::<bool>::empty());
                    assert(bits0 + this.code_in(lab) =~= bits0);
                    assert(tree@ =~= tree0 + this.preorder());
                }
            },
            None => {
                match (left, right) {
                    (Some(l), Some(r)) => {
                        tree.push(HuffmanTreeRepresentation::InternalNode);
                        bits.push(false);
                        let ghost table1 = table@;
                        (*l).to_table(bits, table, tree);
                        let ghost table2 = table@;
                        let ghost tree2 = tree@;
                        let _ = bits.pop();
                        proof {
                            assert((bits0 + seq![false]).drop_last() =~= bits0);
                        }
                        bits.push(true);
                        (*r).to_table(bits, table, tree);
                        let _ = bits.pop();
                        proof {
                            assert((bits0 + seq![true]).drop_last() =~= bits0);
                            assert(bits@ =~= bits0);
                            assert forall|x: u16| this.has_label(x) implies #[trigger] table@[x as int]@
                                == bits0 + this.code_in(x) by {
                                if l.has_label(x) {
                                    assert(!r.has_label(x));
                                    assert(table2[x as int]@ == (bits0 + seq![false]) + l.code_in(
                                        x,
                                    ));
                                    assert(table@[x as int] == table2[x as int]);
                                    assert((bits0 + seq![false]) + l.code_in(x) =~= bits0 + (
                                    seq![false] + l.code_in(x)));
                                    assert(this.code_in(x) == seq![false] + l.code_in(x));
                                } else {
                                    assert(r.has_label(x));
                                    assert(table@[x as int]@ == (bits0 + seq![true]) + r.code_in(
                                        x,
                                    ));
                                    assert((bits0 + seq![true]) + r.code_in(x) =~= bits0 + (
                                    seq![true] + r.code_in(x)));
                                    assert(this.code_in(x) == seq![true] + r.code_in(x));
                                }
                            }
                            assert forall|x: u16| !this.has_label(x) implies #[trigger] table@[x as int]
                                == table1[x as int] by {
                                assert(!l.has_label(x));
                                assert(!r.has_label(x));
                            }
                            assert(tree@ =~= tree0 + this.preorder()) by {
                                assert(tree2 =~= (tree0
                                    + seq![HuffmanTreeRepresentation::InternalNode]) + l.preorder(
                                ));
                                assert(tree@ =~= tree2 + r.preorder());
                            }
                        }
                    },
                    _ => {
                        proof {
                            assert(false);
                        }
                    },
                }
            },
        }
    }
}

/// A copy of the accumulated path bits.
fn copy_bits(bits: &Vec<bool>) -> (r: Vec<bool>)
    ensures
        r@ == bits@,
{
    let mut r: Vec<bool> = Vec::new();
    let mut k: usize = 0;
    while k < bits.len()
        invariant
            k <= bits@.len(),
            r@ =~= bits@.take(k as int),
        decreases bits@.len() - k,
    {
        r.push(bits[k]);
        proof {
            assert(r@ =~= bits@.take(k + 1));
        }
        k = k + 1;
    }
    proof {
        assert(bits@.take(bits@.len() as int) =~= bits@);
    }
    r
}

/// `a` starts `b`: every bit of `a` is the corresponding bit of `b`.
pub open spec fn is_prefix(a: Seq<bool>, b: Seq<bool>) -> bool {
    a.len() <= b.len() && forall|i: int| 0 <= i < a.len() ==> a[i] == b[i]
}

proof fn lemma_prefix_cons(x: bool, a: Seq<bool>, b: Seq<bool>)
    ensures
        is_prefix(seq![x] + a, seq![x] + b) == is_prefix(a, b),
{
    let ca = seq![x] + a;
    let cb = seq![x] + b;
    if is_prefix(a, b) {
        assert forall|i: int| 0 <= i < ca.len() implies ca[i] == cb[i] by {
            if i > 0 {
                assert(a[i - 1] == b[i - 1]);
            }
        }
    }
    if is_prefix(ca, cb) {
        assert forall|i: int| 0 <= i < a.len() implies a[i] == b[i] by {
            assert(ca[i + 1] == cb[i + 1]);
        }
    }
}

/// In a well-formed code tree, the code of one symbol never starts the code
/// of another.
pub proof fn lemma_prefix_free(n: HuffmanNode, a: u16, b: u16)
    requires
        n.wf(),
        n.label is None,
        n.has_label(a),
        n.has_label(b),
        a != b,
    ensures
        !is_prefix(n.code_in(a), n.code_in(b)),
    decreases n,
{
    match (n.left, n.right) {
        (Some(l), Some(r)) => {
            let ca = n.code_in(a);
            let cb = n.code_in(b);
            if l.has_label(a) && l.has_label(b) {
                match l.label {
                    Some(_) => {
                        assert(false);
                    },
                    None => {
                        lemma_prefix_free(*l, a, b);
                        lemma_prefix_cons(false, l.code_in(a), l.code_in(b));
                    },
                }
            } else if !l.has_label(a) && !l.has_label(b) {
                assert(r.has_label(a) && r.has_label(b));
                match r.label {
                    Some(_) => {
                        assert(false);
                    },
                    None => {
                        lemma_prefix_free(*r, a, b);
                        lemma_prefix_cons(true, r.code_in(a), r.code_in(b));
                    },
                }
            } else {
                assert(ca.len() > 0 && cb.len() > 0);
                assert(ca[0] != cb[0]);
            }
        },
        _ => {
            assert(false);
        },
    }
}

/// Sum of a sequence of counts.
pub open spec fn sum_of(s: Seq<usize>) -> int
    decreases s.len(),
{
    if s.len() == 0 {
        0
    } else {
        sum_of(s.drop_last()) + s.last()
    }
}

proof fn lemma_sum_zero(s: Seq<usize>)
    requires
        forall|i: int| 0 <= i < s.len() ==> s[i] == 0,
    ensures
        sum_of(s) == 0,
    decreases s.len(),
{
    if s.len() > 0 {
        lemma_sum_zero(s.drop_last());
    }
}

proof fn lemma_sum_update(s: Seq<usize>, j: int, v: usize)
    requires
        0 <= j < s.len(),
    ensures
        sum_of(s.update(j, v)) == sum_of(s) - s[j] + v,
    decreases s.len(),
{
    if j == s.len() - 1 {
        assert(s.update(j, v).drop_last() =~= s.drop_last());
        assert(s.update(j, v).last() == v);
    } else {
        assert(s.update(j, v).drop_last() =~= s.drop_last().update(j, v));
        lemma_sum_update(s.drop_last(), j, v);
        assert(s.update(j, v).last() == s.last());
    }
}

/// Sum of the frequency counts under each tree in a worklist.
pub open spec fn sum_counts(ns: Seq<HuffmanNode>) -> int
    decreases ns.len(),
{
    if ns.len() == 0 {
        0
    } else {
        sum_counts(ns.drop_last()) + ns.last().count
    }
}

proof fn lemma_sum_counts_nonneg(ns: Seq<HuffmanNode>)
    ensures
        sum_counts(ns) >= 0,
    decreases ns.len(),
{
    if ns.len() > 0 {
        lemma_sum_counts_nonneg(ns.drop_last());
    }
}

proof fn lemma_sum_counts_remove(ns: Seq<HuffmanNode>, j: int)
    requires
        0 <= j < ns.len(),
    ensures
        sum_counts(ns.remove(j)) == sum_counts(ns) - ns[j].count,
    decreases ns.len(),
{
    if j == ns.len() - 1 {
        assert(ns.remove(j) =~= ns.drop_last());
    } else {
        assert(ns.remove(j).drop_last() =~= ns.drop_last().remove(j));
        lemma_sum_counts_remove(ns.drop_last(), j);
        assert(ns.remove(j).last() == ns.last());
    }
}

proof fn lemma_sum_counts_push(ns: Seq<HuffmanNode>, x: HuffmanNode)
    ensures
        sum_counts(ns.push(x)) == sum_counts(ns) + x.count,
{
    assert(ns.push(x).drop_last() =~= ns);
    assert(ns.push(x).last() == x);
}

/// An internal well-formed node with disjoint children covers two distinct
/// symbols.
proof fn lemma_internal_two_labels(n: HuffmanNode) -> (r: (u16, u16))
    requires
        n.wf(),
        n.label is None,
        n.distinct_labels(),
    ensures
        r.0 != r.1,
        n.has_label(r.0),
        n.has_label(r.1),
{
    match (n.left, n.right) {
        (Some(l), Some(r)) => {
            let a = l.lemma_has_some_label();
            let b = r.lemma_has_some_label();
            assert(a != b);
            (a, b)
        },
        _ => {
            assert(false);
            (0, 0)
        },
    }
}

/// The stream holds at most one distinct symbol value.
pub open spec fn single_symbol(bytes: Seq<u16>) -> bool {
    forall|y: u16, z: u16|
        #![trigger bytes.contains(y), bytes.contains(z)]
        bytes.contains(y) && bytes.contains(z) ==> y == z
}

/// The per-symbol code table and the pre-order tree serialization.
pub struct HuffmanTree {
    pub table: Vec<Vec<bool>>,
    pub tree: Vec<HuffmanTreeRepresentation>,
}

/// One empty code slot per 16-bit symbol.
fn empty_tables() -> (r: Vec<Vec<bool>>)
    ensures
        r@.len() == 65536,
        forall|i: int| 0 <= i < 65536 ==> #[trigger] r@[i]@.len() == 0,
{
    let mut r: Vec<Vec<bool>> = Vec::new();
    let mut k: usize = 0;
    while k < 65536
        invariant
            k <= 65536,
            r@.len() == k,
            forall|i: int| 0 <= i < k ==> #[trigger] r@[i]@.len() == 0,
        decreases 65536 - k,
    {
        let slot: Vec<bool> = Vec::new();
        r.push(slot);
        k = k + 1;
    }
    r
}

/// Number of occurrences of `x` in `bytes`.
pub open spec fn count_sym(bytes: Seq<u16>, x: u16) -> int
    decreases bytes.len(),
{
    if bytes.len() == 0 {
        0
    } else {
        count_sym(bytes.drop_last(), x) + if bytes.last() == x {
            1int
        } else {
            0int
        }
    }
}

pub proof fn lemma_count_sym_bounds(bytes: Seq<u16>, x: u16)
    ensures
        0 <= count_sym(bytes, x) <= bytes.len(),
        count_sym(bytes, x) > 0 <==> bytes.contains(x),
    decreases bytes.len(),
{
    if bytes.len() > 0 {
        lemma_count_sym_bounds(bytes.drop_last(), x);
        if bytes.drop_last().contains(x) {
            let i = choose|i: int| 0 <= i < bytes.drop_last().len() && bytes.drop_last()[i] == x;
            assert(bytes[i] == x);
        }
        if bytes.contains(x) && bytes.last() != x {
            let i = choose|i: int| 0 <= i < bytes.len() && bytes[i] == x;
            assert(bytes.drop_last()[i] == x);
        }
    }
}

/// One leaf per occurring symbol below `i`, in symbol order.
pub open spec fn leaves_upto(bytes: Seq<u16>, i: int) -> Seq<HuffmanNode>
    decreases i,
{
    if i <= 0 {
        Seq::empty()
    } else {
        let rest = leaves_upto(bytes, i - 1);
        if count_sym(bytes, (i - 1) as u16) > 0 {
            rest.push(
                HuffmanNode {
                    count: count_sym(bytes, (i - 1) as u16) as usize,
                    label: Some((i - 1) as u16),
                    left: None,
                    right: None,
                },
            )
        } else {
            rest
        }
    }
}

/// Index of the first lowest-count tree in the worklist.
pub open spec fn first_min(ns: Seq<HuffmanNode>) -> int
    decreases ns.len(),
{
    if ns.len() <= 1 {
        0
    } else {
        let m = first_min(ns.drop_last());
        if ns.last().count < ns[m].count {
            ns.len() - 1
        } else {
            m
        }
    }
}

pub proof fn lemma_first_min_in_range(ns: Seq<HuffmanNode>)
    requires
        ns.len() >= 1,
    ensures
        0 <= first_min(ns) < ns.len(),
    decreases ns.len(),
{
    if ns.len() > 1 {
        lemma_first_min_in_range(ns.drop_last());
    }
}

/// The one tree left after repeatedly removing the two first-lowest-count
/// trees and appending their merge.
pub open spec fn spec_merge_rounds(ns: Seq<HuffmanNode>) -> HuffmanNode
    decreases ns.len(),
    via spec_merge_rounds_decreases
{
    if ns.len() == 0 {
        HuffmanNode { count: 0, label: Some(0), left: None, right: None }
    } else if ns.len() == 1 {
        ns[0]
    } else {
        let m1 = first_min(ns);
        let ns1 = ns.remove(m1);
        let m2 = first_min(ns1);
        let ns2 = ns1.remove(m2);
        let merged = HuffmanNode {
            count: (ns[m1].count + ns1[m2].count) as usize,
            label: None,
            left: Some(Box::new(ns[m1])),
            right: Some(Box::new(ns1[m2])),
        };
        spec_merge_rounds(ns2.push(merged))
    }
}

#[via_fn]
proof fn spec_merge_rounds_decreases(ns: Seq<HuffmanNode>) {
    if ns.len() >= 2 {
        lemma_first_min_in_range(ns);
        lemma_first_min_in_range(ns.remove(first_min(ns)));
    }
}

/// The code tree the builder grows over `bytes`: a function of the input
/// alone, so two runs on equal input agree.
pub open spec fn spec_tree(bytes: Seq<u16>) -> HuffmanNode {
    spec_merge_rounds(leaves_upto(bytes, 65536))
}

/// Index of the first lowest-count tree in the worklist.
fn min_index(nodes: &Vec<HuffmanNode>) -> (m: usize)
    requires
        nodes@.len() >= 1,
    ensures
        (m as int) < nodes@.len(),
        m as int == first_min(nodes@),
        forall|k: int| 0 <= k < nodes@.len() ==> nodes@[m as int].count <= #[trigger] nodes@[k].count,
{
    let n = nodes.len();
    let mut m: usize = 0;
    let mut k: usize = 1;
    proof {
        assert(nodes@.take(1).len() == 1);
    }
    while k < n
        invariant
            n == nodes@.len(),
            1 <= k <= n,
            (m as int) < k,
            m as int == first_min(nodes@.take(k as int)),
            forall|t: int| 0 <= t < k ==> nodes@[m as int].count <= #[trigger] nodes@[t].count,
        decreases n - k,
    {
        let ghost pre = nodes@.take(k as int);
        proof {
            assert(nodes@.take(k + 1).drop_last() =~= pre);
            assert(nodes@.take(k + 1).last() == nodes@[k as int]);
            assert(nodes@.take(k + 1)[m as int] == nodes@[m as int]);
        }
        if nodes[k].count < nodes[m].count {
            m = k;
        }
        k = k + 1;
    }
    proof {
        assert(nodes@.take(n as int) =~= nodes@);
    }
    m
}

impl HuffmanTree {
    /// Builds a prefix code over the symbols that occur in `bytes`: leaves
    /// for all occurring symbols are merged lowest-frequency-first into one
    /// tree, whose paths give the code table and whose pre-order shape is
    /// serialized. A stream with a single distinct symbol gets the one-bit
    /// code `0` as an explicit special case.
    #[verifier::loop_isolation(false)]
    pub fn new(bytes: &Vec<u16>) -> (r: HuffmanTree)
        requires
            bytes@.len() >= 1,
        ensures
            r.table@.len() == 65536,
            forall|x: u16| !bytes@.contains(x) ==> #[trigger] r.table@[x as int]@.len() == 0,
            forall|x: u16| bytes@.contains(x) ==> #[trigger] r.table@[x as int]@.len() > 0,
            forall|a: u16, b: u16|
                a != b && bytes@.contains(a) && bytes@.contains(b) ==> !is_prefix(
                    r.table@[a as int]@,
                    r.table@[b as int]@,
                ),
            single_symbol(bytes@) ==> r.tree@ == seq![
                HuffmanTreeRepresentation::Alphabet(bytes@[0]),
            ] && r.table@[bytes@[0] as int]@ == seq![false],
            !single_symbol(bytes@) ==> ({
                let root = spec_tree(bytes@);
                &&& root.wf()
                &&& root.distinct_labels()
                &&& root.label is None
                &&& forall|x: u16| #[trigger] root.has_label(x) <==> bytes@.contains(x)
                &&& forall|x: u16|
                    bytes@.contains(x) ==> #[trigger] r.table@[x as int]@ == root.code_in(x)
                &&& r.tree@ == root.preorder()
            }),
    {
        let n = bytes.len();
        // frequency counts per symbol
        let mut cnt = crate::util::fill(65536usize, 0usize);
        let mut i: usize = 0;
        proof {
            assert(bytes@.take(0) =~= Seq::<u16>::empty());
            assert(cnt@.take(0) =~= Seq::<usize>::empty());
            lemma_sum_zero(cnt@);
        }
        while i < n
            invariant
                i <= n,
                cnt@.len() == 65536,
                forall|t: int| 0 <= t < 65536 ==> #[trigger] cnt@[t] <= i,
                forall|x: u16| cnt@[x as int] > 0 <==> #[trigger] bytes@.take(i as int).contains(x),
                forall|x: u16| #[trigger] cnt@[x as int] == count_sym(bytes@.take(i as int), x),
                sum_of(cnt@) == i,
            decreases n - i,
        {
            let ghost cnt0 = cnt@;
            let x = bytes[i];
            let c = cnt[x as usize];
            cnt[x as usize] = c + 1;
            i = i + 1;
            proof {
                broadcast use vstd::seq_lib::lemma_seq_contains_after_push;

                lemma_sum_update(cnt0, x as int, (c + 1) as usize);
                assert(bytes@.take(i as int) =~= bytes@.take(i - 1).push(x));
                assert(bytes@.take(i as int).drop_last() =~= bytes@.take(i - 1));
                assert(bytes@.take(i as int).last() == x);
                assert forall|y: u16| cnt@[y as int] > 0 <==> #[trigger] bytes@.take(
                    i as int,
                ).contains(y) by {
                    assert(bytes@.take(i as int).contains(y) <==> bytes@.take(i - 1).contains(y)
                        || y == x);
                }
                assert forall|y: u16| #[trigger] cnt@[y as int] == count_sym(
                    bytes@.take(i as int),
                    y,
                ) by {
                    assert(count_sym(bytes@.take(i as int), y) == count_sym(bytes@.take(i - 1), y)
                        + if x == y {
                        1int
                    } else {
                        0int
                    });
                }
            }
        }
        proof {
            assert(bytes@.take(n as int) =~= bytes@);
        }
        // one leaf per occurring symbol
        let mut nodes: Vec<HuffmanNode> = Vec::new();
        let mut i: usize = 0;
        proof {
            assert(cnt@.take(0) =~= Seq::<usize>::empty());
            assert(nodes@ =~= leaves_upto(bytes@, 0));
        }
        while i < 65536
            invariant
                i <= 65536,
                nodes@ == leaves_upto(bytes@, i as int),
                forall|x: u16| #[trigger] cnt@[x as int] == count_sym(bytes@, x),
                forall|k: int| 0 <= k < nodes@.len() ==> (#[trigger] nodes@[k]).wf(),
                forall|k: int| 0 <= k < nodes@.len() ==> (#[trigger] nodes@[k]).distinct_labels(),
                forall|k: int, x: u16|
                    0 <= k < nodes@.len() && (#[trigger] nodes@[k].has_label(x)) ==> (x as int) < i
                        && cnt@[x as int] > 0,
                forall|k1: int, k2: int, x: u16|
                    #![trigger nodes@[k1].has_label(x), nodes@[k2].has_label(x)]
                    0 <= k1 < k2 < nodes@.len() ==> !(nodes@[k1].has_label(x)
                        && nodes@[k2].has_label(x)),
                forall|x: u16|
                    ((x as int) < i && #[trigger] cnt@[x as int] > 0) ==> exists|k: int|
                        0 <= k < nodes@.len() && (#[trigger] nodes@[k].has_label(x)),
                sum_counts(nodes@) == sum_of(cnt@.take(i as int)),
            decreases 65536 - i,
        {
            let ghost nodes0 = nodes@;
            let c = cnt[i];
            if c > 0 {
                let leaf = HuffmanNode::new(i as u16, c);
                nodes.push(leaf);
                proof {
                    lemma_sum_counts_push(nodes0, leaf);
                    assert(leaf == HuffmanNode {
                        count: count_sym(bytes@, i as u16) as usize,
                        label: Some(i as u16),
                        left: None,
                        right: None,
                    });
                    assert(nodes@ == leaves_upto(bytes@, i + 1));
                    assert forall|x: u16|
                        ((x as int) < i + 1 && #[trigger] cnt@[x as int] > 0) implies exists|k: int|
                        0 <= k < nodes@.len() && (#[trigger] nodes@[k].has_label(x)) by {
                        if (x as int) < i {
                            let k = choose|k: int|
                                0 <= k < nodes0.len() && (#[trigger] nodes0[k].has_label(x));
                            assert(nodes@[k].has_label(x));
                        } else {
                            assert(nodes@[nodes@.len() - 1].has_label(x));
                        }
                    }
                }
            }
            i = i + 1;
            proof {
                assert(cnt@.take(i as int).drop_last() =~= cnt@.take(i - 1));
                assert(sum_of(cnt@.take(i as int)) == sum_of(cnt@.take(i - 1)) + cnt@[i - 1]);
            }
        }
        proof {
            assert(cnt@.take(65536) =~= cnt@);
            assert(bytes@.contains(bytes@[0]));
            assert(nodes@.len() >= 1);
            assert(spec_merge_rounds(nodes@) == spec_tree(bytes@));
        }
        // merge the two lowest-frequency trees until one remains
        while nodes.len() > 1
            invariant
                nodes@.len() >= 1,
                spec_merge_rounds(nodes@) == spec_tree(bytes@),
                forall|k: int| 0 <= k < nodes@.len() ==> (#[trigger] nodes@[k]).wf(),
                forall|k: int| 0 <= k < nodes@.len() ==> (#[trigger] nodes@[k]).distinct_labels(),
                forall|k1: int, k2: int, x: u16|
                    #![trigger nodes@[k1].has_label(x), nodes@[k2].has_label(x)]
                    0 <= k1 < k2 < nodes@.len() ==> !(nodes@[k1].has_label(x)
                        && nodes@[k2].has_label(x)),
                forall|x: u16|
                    #[trigger] bytes@.contains(x) <==> exists|k: int|
                        0 <= k < nodes@.len() && (#[trigger] nodes@[k].has_label(x)),
                sum_counts(nodes@) == n,
            decreases nodes@.len(),
        {
            let ghost ns0 = nodes@;
            let m1 = min_index(&nodes);
            let a = nodes.remove(m1);
            let ghost ns1 = nodes@;
            let m2 = min_index(&nodes);
            let b = nodes.remove(m2);
            let ghost ns2 = nodes@;
            proof {
                lemma_sum_counts_remove(ns0, m1 as int);
                lemma_sum_counts_remove(ns1, m2 as int);
                lemma_sum_counts_nonneg(ns2);
                assert(a.count + b.count <= n);
            }
            let merged = a.merge(b);
            nodes.push(merged);
            proof {
                lemma_sum_counts_push(ns2, merged);
                assert(merged == HuffmanNode {
                    count: (ns0[m1 as int].count + ns1[m2 as int].count) as usize,
                    label: None,
                    left: Some(Box::new(ns0[m1 as int])),
                    right: Some(Box::new(ns1[m2 as int])),
                });
                assert(spec_merge_rounds(ns0) == spec_merge_rounds(nodes@));
                // every remaining slot still holds one of the old trees
                assert forall|k: int| 0 <= k < ns2.len() implies ns2[k] == ns0[(if (if k < m2 {
                    k
                } else {
                    k + 1
                }) < m1 {
                    if k < m2 {
                        k
                    } else {
                        k + 1
                    }
                } else {
                    (if k < m2 {
                        k
                    } else {
                        k + 1
                    }) + 1
                })] by {
                    let j1: int = if k < m2 {
                        k
                    } else {
                        k + 1
                    };
                    assert(ns2[k] == ns1[j1]);
                }
                let lastk = nodes@.len() - 1;
                assert(nodes@[lastk] == merged);
                assert forall|x: u16| #[trigger] bytes@.contains(x) implies exists|k: int|
                    0 <= k < nodes@.len() && (#[trigger] nodes@[k].has_label(x)) by {
                    let k0 = choose|k0: int| 0 <= k0 < ns0.len() && (#[trigger] ns0[k0].has_label(x));
                    let j1: int = if k0 < m1 {
                        k0
                    } else {
                        k0 - 1
                    };
                    if k0 == m1 {
                        assert(merged.has_label(x));
                        assert(nodes@[lastk].has_label(x));
                    } else if j1 == m2 {
                        assert(merged.has_label(x));
                        assert(nodes@[lastk].has_label(x));
                    } else {
                        let j2: int = if j1 < m2 {
                            j1
                        } else {
                            j1 - 1
                        };
                        assert(ns2[j2] == ns1[j1]);
                        assert(nodes@[j2].has_label(x));
                    }
                }
                assert forall|x: u16|
                    (exists|k: int| 0 <= k < nodes@.len() && (#[trigger] nodes@[k].has_label(x)))
                        implies #[trigger] bytes@.contains(x) by {
                    let k = choose|k: int|
                        0 <= k < nodes@.len() && (#[trigger] nodes@[k].has_label(x));
                    if k == lastk {
                        assert(a.has_label(x) || b.has_label(x));
                        assert(ns0[m1 as int].has_label(x) || ns1[m2 as int].has_label(x));
                        assert(exists|k0: int| 0 <= k0 < ns0.len() && (#[trigger] ns0[k0].has_label(x)));
                    } else {
                        assert(ns2[k].has_label(x));
                        let j1: int = if k < m2 {
                            k
                        } else {
                            k + 1
                        };
                        let j0: int = if j1 < m1 {
                            j1
                        } else {
                            j1 + 1
                        };
                        assert(ns0[j0].has_label(x));
                        assert(exists|k0: int| 0 <= k0 < ns0.len() && (#[trigger] ns0[k0].has_label(x)));
                    }
                }
            }
        }
        let ghost ns_final = nodes@;
        let root = nodes.remove(0);
        proof {
            assert(root == spec_merge_rounds(ns_final));
            assert(root == spec_tree(bytes@));
            assert forall|x: u16| #[trigger] root.has_label(x) <==> bytes@.contains(x) by {
                if root.has_label(x) {
                    assert(nodes@.len() + 1 == 1);
                }
            }
        }
        let mut table = empty_tables();
        let mut tree: Vec<HuffmanTreeRepresentation> = Vec::new();
        let ghost groot = root;
        let is_leaf = match root.label {
            Some(_) => true,
            None => false,
        };
        if is_leaf {
            let lab = match root.label {
                Some(lab) => lab,
                None => 0,
            };
            tree.push(HuffmanTreeRepresentation::Alphabet(lab));
            let mut code: Vec<bool> = Vec::new();
            code.push(false);
            proof {
                assert(code@ =~= seq![false]);
            }
            table[lab as usize] = code;
            proof {
                assert(groot.has_label(lab));
                assert(bytes@.contains(lab));
                assert(bytes@.contains(bytes@[0]));
                assert(bytes@[0] == lab);
                assert(tree@ =~= seq![HuffmanTreeRepresentation::Alphabet(bytes@[0])]);
            }
        } else {
            let mut bits: Vec<bool> = Vec::new();
            root.to_table(&mut bits, &mut table, &mut tree);
            proof {
                let (wa, wb) = lemma_internal_two_labels(groot);
                assert(bytes@.contains(wa) && bytes@.contains(wb));
                assert(!single_symbol(bytes@));
                assert forall|x: u16| bytes@.contains(x) implies #[trigger] table@[x as int]@
                    == groot.code_in(x) by {
                    assert(groot.has_label(x));
                    assert(table@[x as int]@ == Seq::<bool>::empty() + groot.code_in(x));
                    assert(Seq::<bool>::empty() + groot.code_in(x) =~= groot.code_in(x));
                }
                assert forall|a2: u16, b2: u16|
                    a2 != b2 && bytes@.contains(a2) && bytes@.contains(b2) implies !is_prefix(
                    table@[a2 as int]@,
                    table@[b2 as int]@,
                ) by {
                    lemma_prefix_free(groot, a2, b2);
                }
                assert forall|x: u16| bytes@.contains(x) implies #[trigger] table@[x as int]@.len()
                    > 0 by {
                    assert(table@[x as int]@ == groot.code_in(x));
                }
            }
        }
        HuffmanTree { table, tree }
    }
}

/// The concatenation, in input order, of each symbol's code bits.
pub open spec fn concat_codes(bytes: Seq<u16>, table: Seq<Vec<bool>>) -> Seq<bool>
    decreases bytes.len(),
{
    if bytes.len() == 0 {
        Seq::empty()
    } else {
        table[bytes[0] as int]@ + concat_codes(bytes.skip(1), table)
    }
}

/// The symbol reached and the number of bits consumed when the leading
/// branch choices of `bits` are walked down from `n`.
pub open spec fn walk(n: HuffmanNode, bits: Seq<bool>) -> (u16, int)
    decreases n,
{
    match (n.label, n.left, n.right) {
        (Some(lab), _, _) => (lab, 0),
        (None, Some(l), Some(r)) => {
            if bits.len() == 0 {
                (0, 0)
            } else if bits[0] {
                let res = walk(*r, bits.skip(1));
                (res.0, res.1 + 1)
            } else {
                let res = walk(*l, bits.skip(1));
                (res.0, res.1 + 1)
            }
        },
        _ => (0, 0),
    }
}

/// Walking a symbol's own code reaches that symbol's leaf exactly.
proof fn lemma_walk_code(n: HuffmanNode, x: u16, rest: Seq<bool>)
    requires
        n.wf(),
        n.has_label(x),
    ensures
        walk(n, n.code_in(x) + rest).0 == x,
        walk(n, n.code_in(x) + rest).1 == n.code_in(x).len(),
    decreases n,
{
    match (n.label, n.left, n.right) {
        (Some(lab), _, _) => {
            assert(n.code_in(x) + rest =~= rest);
        },
        (None, Some(l), Some(r)) => {
            if l.has_label(x) {
                let bits = n.code_in(x) + rest;
                assert(n.code_in(x) == seq![false] + l.code_in(x));
                assert(bits.len() > 0);
                assert(bits[0] == false);
                assert(bits.skip(1) =~= l.code_in(x) + rest);
                lemma_walk_code(*l, x, rest);
            } else {
                assert(r.has_label(x));
                let bits = n.code_in(x) + rest;
                assert(n.code_in(x) == seq![true] + r.code_in(x));
                assert(bits.len() > 0);
                assert(bits[0] == true);
                assert(bits.skip(1) =~= r.code_in(x) + rest);
                lemma_walk_code(*r, x, rest);
            }
        },
        _ => {
            assert(false);
        },
    }
}

/// `count` symbols decoded by repeatedly walking the tree from its root.
pub open spec fn decode_stream(n: HuffmanNode, bits: Seq<bool>, count: nat) -> Seq<u16>
    decreases count,
{
    if count == 0 {
        Seq::empty()
    } else {
        let w = walk(n, bits);
        seq![w.0] + decode_stream(n, bits.skip(w.1), (count - 1) as nat)
    }
}

/// Decoding the concatenated codes by walking the tree reproduces the input
/// symbol sequence exactly.
pub proof fn lemma_huffman_decode(root: HuffmanNode, input: Seq<u16>, table: Seq<Vec<bool>>)
    requires
        root.wf(),
        table.len() == 65536,
        forall|i: int| 0 <= i < input.len() ==> root.has_label(#[trigger] input[i]),
        forall|i: int|
            0 <= i < input.len() ==> table[input[i] as int]@ == root.code_in(#[trigger] input[i]),
    ensures
        decode_stream(root, concat_codes(input, table), input.len()) == input,
    decreases input.len(),
{
    if input.len() == 0 {
        assert(decode_stream(root, concat_codes(input, table), 0) =~= input);
    } else {
        let x = input[0];
        let rest_codes = concat_codes(input.skip(1), table);
        let bits = concat_codes(input, table);
        assert(bits == table[x as int]@ + rest_codes);
        assert(table[x as int]@ == root.code_in(x));
        lemma_walk_code(root, x, rest_codes);
        assert(walk(root, bits).0 == x);
        assert(bits.skip(root.code_in(x).len() as int) =~= rest_codes);
        assert forall|i: int| 0 <= i < input.skip(1).len() implies root.has_label(
            #[trigger] input.skip(1)[i],
        ) && table[input.skip(1)[i] as int]@ == root.code_in(input.skip(1)[i]) by {
            assert(input.skip(1)[i] == input[i + 1]);
        }
        lemma_huffman_decode(root, input.skip(1), table);
        let d = decode_stream(root, bits, input.len());
        assert(d == seq![x] + decode_stream(root, rest_codes, input.skip(1).len()));
        assert(d =~= input) by {
            assert(decode_stream(root, rest_codes, input.skip(1).len()) == input.skip(1));
            assert(forall|i: int| 1 <= i < input.len() ==> d[i] == input.skip(1)[i - 1]);
            assert(forall|i: int| 1 <= i < input.len() ==> input[i] == input.skip(1)[i - 1]);
        }
    }
}

/// Emits the code of each input symbol, in input order.
pub fn huffman_encode_with_tree(bytes: &Vec<u16>, huffman_tree: &HuffmanTree) -> (r: Vec<bool>)
    requires
        huffman_tree.table@.len() == 65536,
    ensures
        r@ == concat_codes(bytes@, huffman_tree.table@),
{
    let ghost tbl = huffman_tree.table@;
    let n = bytes.len();
    let mut bits: Vec<bool> = Vec::new();
    let mut i: usize = 0;
    proof {
        assert(bytes@.skip(0) =~= bytes@);
        assert(bits@ + concat_codes(bytes@, tbl) =~= concat_codes(bytes@, tbl));
    }
    while i < n
        invariant
            i <= n,
            n == bytes@.len(),
            tbl == huffman_tree.table@,
            tbl.len() == 65536,
            concat_codes(bytes@, tbl) == bits@ + concat_codes(bytes@.skip(i as int), tbl),
        decreases n - i,
    {
        let ghost rest = bytes@.skip(i as int);
        let ghost bits0 = bits@;
        let x = bytes[i];
        let code = &huffman_tree.table[x as usize];
        let m = code.len();
        let mut j: usize = 0;
        while j < m
            invariant
                j <= m,
                m == code@.len(),
                code@ == tbl[x as int]@,
                bits@ =~= bits0 + code@.take(j as int),
            decreases m - j,
        {
            bits.push(code[j]);
            proof {
                assert(bits0 + code@.take(j + 1) =~= (bits0 + code@.take(j as int)).push(
                    code@[j as int],
                ));
            }
            j = j + 1;
        }
        proof {
            assert(code@.take(m as int) =~= code@);
            assert(rest[0] == x);
            assert(rest.skip(1) =~= bytes@.skip(i + 1));
            assert(concat_codes(rest, tbl) == tbl[x as int]@ + concat_codes(
                bytes@.skip(i + 1),
                tbl,
            ));
            assert(bits0 + (tbl[x as int]@ + concat_codes(bytes@.skip(i + 1), tbl)) =~= bits@
                + concat_codes(bytes@.skip(i + 1), tbl));
        }
        i = i + 1;
    }
    proof {
        assert(bytes@.skip(n as int) =~= Seq::<u16>::empty());
        assert(bits@ + concat_codes(bytes@.skip(n as int), tbl) =~= bits@);
    }
    bits
}

} // verus!
