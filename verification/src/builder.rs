//! The tree builder and the code table deriver.

use crate::coder::HuffmanTree;
use crate::freq::FreqTable;
use crate::node::{code_map, Node};
use crate::table::CodeTable;
use vstd::prelude::*;

verus! {

/// Walks the tree below `node`, recording for each leaf the bit path that
/// reaches it: `code` followed by `false` for each left descent and `true`
/// for each right one.  A tree that is a single leaf gets the one-bit code
/// `0` rather than an empty path, since an empty code cannot be decoded.
pub fn build_table(node: &Node, code: Vec<bool>, table: &mut CodeTable)
    requires
        old(table).wf(),
    ensures
        final(table).wf(),
        *node is Leaf && code@.len() == 0 ==> final(table)@ == old(table)@.insert(
            node->Leaf_symbol,
            seq![false],
        ),
        !(*node is Leaf && code@.len() == 0) ==> final(table)@ == old(table)@.union_prefer_right(
            code_map(*node, code@),
        ),
    decreases *node,
{
    match node {
        Node::Leaf { symbol, .. } => {
            if code.len() == 0 {
                let one_bit = vec![false];
                proof {
                    assert(one_bit@ =~= seq![false]);
                }
                table.insert(*symbol, one_bit);
            } else {
                let ghost c = code@;
                table.insert(*symbol, code);
                proof {
                    assert(c + Seq::<bool>::empty() =~= c);
                    assert(old(table)@.insert(*symbol, c) =~= old(
                        table,
                    )@.union_prefer_right(code_map(*node, c)));
                }
            }
        },
        Node::Internal { left, right, .. } => {
            let ghost o = old(table)@;
            let ghost c = code@;
            let mut left_code = code.clone();
            left_code.push(false);
            proof {
                assert(left_code@ =~= c + seq![false]);
            }
            build_table(&**left, left_code, table);
            let ghost t1 = table@;
            let mut right_code = code.clone();
            right_code.push(true);
            proof {
                assert(right_code@ =~= c + seq![true]);
            }
            build_table(&**right, right_code, table);
            proof {
                let goal = o.union_prefer_right(code_map(*node, c));
                assert forall|s: char| #[trigger]
                    table@.dom().contains(s) == goal.dom().contains(s) by {}
                assert forall|s: char| #[trigger]
                    goal.dom().contains(s) implies table@[s] == goal[s] by {
                    if right.syms().contains(s) {
                        assert((c + seq![true]) + right.code_of(s) =~= c + node.code_of(s));
                    } else if left.syms().contains(s) {
                        assert((c + seq![false]) + left.code_of(s) =~= c + node.code_of(s));
                    }
                }
                assert(table@ =~= goal);
            }
        },
    }
}

/// The sum of the root frequencies of a list of trees.
spec fn forest_weight(s: Seq<Node>) -> int
    decreases s.len(),
{
    if s.len() == 0 {
        0
    } else {
        s[0].freq() + forest_weight(s.drop_first())
    }
}

/// The union of the leaf symbols of a list of trees.
spec fn forest_syms(s: Seq<Node>) -> Set<char>
    decreases s.len(),
{
    if s.len() == 0 {
        Set::empty()
    } else {
        s[0].syms().union(forest_syms(s.drop_first()))
    }
}

proof fn lemma_forest_weight_nonneg(s: Seq<Node>)
    ensures
        forest_weight(s) >= 0,
    decreases s.len(),
{
    if s.len() > 0 {
        lemma_forest_weight_nonneg(s.drop_first());
    }
}

proof fn lemma_forest_weight_push(s: Seq<Node>, n: Node)
    ensures
        forest_weight(s.push(n)) == forest_weight(s) + n.freq(),
    decreases s.len(),
{
    if s.len() == 0 {
        assert(s.push(n).len() == 1);
        assert(s.push(n)[0] == n);
        assert(s.push(n).drop_first() =~= Seq::<Node>::empty());
        assert(forest_weight(Seq::<Node>::empty()) == 0);
        assert(forest_weight(s.push(n)) == n.freq() + forest_weight(s.push(n).drop_first()));
        assert(forest_weight(s) == 0);
    } else {
        assert(s.push(n).drop_first() =~= s.drop_first().push(n));
        lemma_forest_weight_push(s.drop_first(), n);
    }
}

proof fn lemma_forest_weight_remove(s: Seq<Node>, i: int)
    requires
        0 <= i < s.len(),
    ensures
        forest_weight(s.remove(i)) == forest_weight(s) - s[i].freq(),
    decreases i,
{
    if i == 0 {
        assert(s.remove(0) =~= s.drop_first());
    } else {
        assert(s.remove(i).drop_first() =~= s.drop_first().remove(i - 1));
        lemma_forest_weight_remove(s.drop_first(), i - 1);
    }
}

proof fn lemma_forest_weight_bounds_element(s: Seq<Node>, i: int)
    requires
        0 <= i < s.len(),
    ensures
        s[i].freq() <= forest_weight(s),
{
    lemma_forest_weight_remove(s, i);
    lemma_forest_weight_nonneg(s.remove(i));
}

proof fn lemma_forest_syms_push(s: Seq<Node>, n: Node)
    ensures
        forest_syms(s.push(n)) =~= forest_syms(s).union(n.syms()),
    decreases s.len(),
{
    if s.len() == 0 {
        assert(s.push(n).len() == 1);
        assert(s.push(n)[0] == n);
        assert(s.push(n).drop_first() =~= Seq::<Node>::empty());
        assert(forest_syms(Seq::<Node>::empty()) =~= Set::<char>::empty());
        assert(forest_syms(s.push(n)) =~= n.syms().union(forest_syms(s.push(n).drop_first())));
        assert(forest_syms(s) =~= Set::<char>::empty());
        assert(forest_syms(s.push(n)) =~= forest_syms(s).union(n.syms()));
    } else {
        assert(s.push(n).drop_first() =~= s.drop_first().push(n));
        lemma_forest_syms_push(s.drop_first(), n);
        assert(forest_syms(s.push(n)) =~= s[0].syms().union(forest_syms(s.drop_first().push(n))));
        assert(forest_syms(s) =~= s[0].syms().union(forest_syms(s.drop_first())));
        assert(s[0].syms().union(forest_syms(s.drop_first()).union(n.syms())) =~= (s[0].syms().union(
            forest_syms(s.drop_first()),
        )).union(n.syms()));
    }
}

proof fn lemma_forest_syms_remove(s: Seq<Node>, i: int)
    requires
        0 <= i < s.len(),
    ensures
        forest_syms(s) =~= forest_syms(s.remove(i)).union(s[i].syms()),
    decreases i,
{
    if i == 0 {
        assert(s.remove(0) =~= s.drop_first());
    } else {
        assert(s.remove(i).drop_first() =~= s.drop_first().remove(i - 1));
        lemma_forest_syms_remove(s.drop_first(), i - 1);
    }
}

/// The position of a tree of minimal root frequency.
fn min_index(work: &Vec<Node>) -> (r: usize)
    requires
        work@.len() >= 1,
    ensures
        r < work@.len(),
        forall|k: int| 0 <= k < work@.len() ==> work@[r as int].freq() <= (#[trigger] work@[k]).freq(),
{
    let mut best: usize = 0;
    let mut k: usize = 1;
    while k < work.len()
        invariant
            1 <= k <= work@.len(),
            best < k,
            forall|j: int| 0 <= j < k ==> work@[best as int].freq() <= (#[trigger] work@[j]).freq(),
        decreases work@.len() - k,
    {
        if work[k].frequency() < work[best].frequency() {
            best = k;
        }
        k = k + 1;
    }
    best
}

/// Builds the coder for a non-empty frequency mapping.
///
/// One leaf per distinct symbol enters a work list; the two trees of
/// lowest root frequency are repeatedly merged under a new internal node
/// whose frequency is their sum, until one tree remains.  The code table
/// is then derived from that tree.  When two or more trees share the
/// lowest frequency, the earliest in the work list is taken first; the
/// first of the two taken becomes the left child.
pub fn build_huffman_from_frequencies(frequencies: &FreqTable) -> (r: HuffmanTree)
    requires
        frequencies.wf(),
        frequencies.num_entries() >= 1,
        frequencies.total() <= usize::MAX,
    ensures
        r.wf(),
        forall|c: char| #[trigger] r@.dom().contains(c) <==> frequencies@.dom().contains(c),
        r.spec_root().leaves_match(frequencies@),
        r.spec_root().freq_ok(),
        r.spec_root().freq() == frequencies.total(),
{
    let n = frequencies.len();
    let mut work: Vec<Node> = Vec::new();
    let mut i: usize = 0;
    while i < n
        invariant
            frequencies.wf(),
            n == frequencies.num_entries(),
            0 <= i <= n,
            work@.len() == i,
            forest_weight(work@) == frequencies.total_to(i as int),
            forall|c: char| #[trigger]
                forest_syms(work@).contains(c) <==> (exists|j: int|
                    0 <= j < i && (#[trigger] frequencies.pair_at(j)).0 == c),
            forall|k: int| 0 <= k < i ==> (#[trigger] work@[k]).leaves_match(frequencies@),
            forall|k: int| 0 <= k < i ==> (#[trigger] work@[k]).freq_ok(),
        decreases n - i,
    {
        let c = frequencies.symbol_at(i);
        let f = frequencies.count_at(i);
        let node = Node::Leaf { symbol: c, frequency: f };
        let ghost gnode = node;
        let ghost w_pre = work@;
        proof {
            lemma_forest_weight_push(work@, node);
            lemma_forest_syms_push(work@, node);
            frequencies.lemma_pair_is_view(i as int);
            assert(gnode.leaves_match(frequencies@));
            assert(gnode.freq_ok());
            assert(gnode.syms() =~= Set::<char>::empty().insert(frequencies.pair_at(i as int).0));
        }
        work.push(node);
        proof {
            assert(work@.len() == i + 1);
            assert(work@[i as int] == gnode);
            assert forall|c: char| #[trigger]
                forest_syms(work@).contains(c) implies (exists|j: int|
                0 <= j < i + 1 && (#[trigger] frequencies.pair_at(j)).0 == c) by {
                assert(forest_syms(work@) =~= forest_syms(w_pre).union(gnode.syms()));
                if c == frequencies.pair_at(i as int).0 {
                    assert(0 <= i < i + 1 && frequencies.pair_at(i as int).0 == c);
                }
            }
            assert forall|c: char|
                (exists|j: int|
                    0 <= j < i + 1 && (#[trigger] frequencies.pair_at(j)).0
                        == c) implies #[trigger] forest_syms(work@).contains(c) by {
                let j = choose|j: int|
                    0 <= j < i + 1 && (#[trigger] frequencies.pair_at(j)).0 == c;
                if j == i {
                    assert(node.syms().contains(c));
                }
            }
        }
        i = i + 1;
    }
    proof {
        assert forall|c: char| #[trigger]
            forest_syms(work@).contains(c) <==> frequencies@.dom().contains(c) by {
            if forest_syms(work@).contains(c) {
                let j = choose|j: int|
                    0 <= j < n && (#[trigger] frequencies.pair_at(j)).0 == c;
                frequencies.lemma_pair_is_view(j);
            }
            if frequencies@.dom().contains(c) {
                frequencies.lemma_view_has_index(c);
            }
        }
    }
    while work.len() > 1
        invariant
            frequencies.wf(),
            work@.len() >= 1,
            frequencies.total() <= usize::MAX,
            forest_weight(work@) == frequencies.total(),
            forall|c: char| #[trigger]
                forest_syms(work@).contains(c) <==> frequencies@.dom().contains(c),
            forall|k: int| 0 <= k < work@.len() ==> (#[trigger] work@[k]).leaves_match(
                frequencies@,
            ),
            forall|k: int| 0 <= k < work@.len() ==> (#[trigger] work@[k]).freq_ok(),
        decreases work@.len(),
    {
        let ghost w0 = work@;
        let i1 = min_index(&work);
        proof {
            lemma_forest_weight_remove(w0, i1 as int);
            lemma_forest_syms_remove(w0, i1 as int);
        }
        let left = work.remove(i1);
        let ghost w1 = work@;
        let i2 = min_index(&work);
        proof {
            lemma_forest_weight_remove(w1, i2 as int);
            lemma_forest_syms_remove(w1, i2 as int);
            lemma_forest_weight_bounds_element(w1, i2 as int);
            lemma_forest_weight_nonneg(w1.remove(i2 as int));
        }
        let right = work.remove(i2);
        let ghost w2 = work@;
        let ghost gl = left;
        let ghost gr = right;
        let lf = left.frequency();
        let rf = right.frequency();
        let node = Node::Internal {
            frequency: lf + rf,
            left: Box::new(left),
            right: Box::new(right),
        };
        let ghost gnode = node;
        proof {
            lemma_forest_weight_push(work@, node);
            lemma_forest_syms_push(work@, node);
            assert(gnode.syms() =~= gl.syms().union(gr.syms()));
        }
        work.push(node);
        proof {
            assert forall|c: char| #[trigger]
                forest_syms(work@).contains(c) <==> frequencies@.dom().contains(c) by {
                assert(forest_syms(work@) =~= forest_syms(w2).union(gnode.syms()));
                assert(forest_syms(w1) =~= forest_syms(w2).union(gr.syms()));
                assert(forest_syms(w0) =~= forest_syms(w1).union(gl.syms()));
                assert(forest_syms(w0).contains(c) <==> frequencies@.dom().contains(c));
                assert(forest_syms(work@).contains(c) <==> forest_syms(w0).contains(c));
            }
        }
    }
    let ghost wfin = work@;
    let root = work.pop().unwrap();
    proof {
        assert(wfin =~= work@.push(root));
        lemma_forest_syms_push(work@, root);
        lemma_forest_weight_push(work@, root);
        assert(forest_syms(wfin) =~= root.syms());
        assert(root.freq() == frequencies.total());
        assert(wfin[0] == root);
    }
    let mut table = CodeTable::new();
    let code: Vec<bool> = Vec::new();
    build_table(&root, code, &mut table);
    let tree = HuffmanTree { root, table };
    proof {
        tree.lemma_repr();
        match tree.spec_root() {
            Node::Leaf { symbol, .. } => {
                assert(tree@ == Map::<char, Seq<bool>>::empty().insert(symbol, seq![false]));
                assert(tree.spec_root().syms().contains(symbol));
                assert forall|c: char| #[trigger]
                    tree@.dom().contains(c) <==> frequencies@.dom().contains(c) by {
                    assert(tree@.dom().contains(c) <==> c == symbol);
                    assert(frequencies@.dom().contains(c) <==> tree.spec_root().syms().contains(
                        c,
                    ));
                }
            },
            Node::Internal { .. } => {
                assert(Map::<char, Seq<bool>>::empty().union_prefer_right(
                    code_map(tree.spec_root(), Seq::empty()),
                ) =~= code_map(tree.spec_root(), Seq::empty()));
                assert(tree@ == code_map(tree.spec_root(), Seq::empty()));
            },
        }
    }
    tree
}

} // verus!
