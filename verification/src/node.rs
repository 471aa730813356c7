//! The Huffman tree and its mathematical model.

use vstd::prelude::*;

verus! {

/// One node of a Huffman tree.
///
/// A leaf holds one symbol and its frequency; an internal node holds its
/// two subtrees and a frequency.  Each internal node exclusively owns its
/// children, so an internal node with a missing child cannot be expressed,
/// and the tree has no sharing and no cycles.
pub enum Node {
    Leaf { symbol: char, frequency: usize },
    Internal { frequency: usize, left: Box<Node>, right: Box<Node> },
}

impl Node {
    /// The frequency stored at this node.
    pub open spec fn freq(self) -> usize {
        match self {
            Node::Leaf { frequency, .. } => frequency,
            Node::Internal { frequency, .. } => frequency,
        }
    }

    /// Every internal node carries the sum of its children's frequencies.
    pub open spec fn freq_ok(self) -> bool
        decreases self,
    {
        match self {
            Node::Leaf { .. } => true,
            Node::Internal { frequency, left, right } => {
                &&& frequency == left.freq() + right.freq()
                &&& left.freq_ok()
                &&& right.freq_ok()
            },
        }
    }

    /// The set of symbols held at the leaves of this tree.
    pub open spec fn syms(self) -> Set<char>
        decreases self,
    {
        match self {
            Node::Leaf { symbol, .. } => set![symbol],
            Node::Internal { left, right, .. } => left.syms().union(right.syms()),
        }
    }

    /// Every leaf agrees with the frequency mapping `m`: its symbol is a
    /// key of `m` and its frequency is that key's count.
    pub open spec fn leaves_match(self, m: Map<char, usize>) -> bool
        decreases self,
    {
        match self {
            Node::Leaf { symbol, frequency } => m.dom().contains(symbol) && m[symbol] == frequency,
            Node::Internal { left, right, .. } => left.leaves_match(m) && right.leaves_match(m),
        }
    }

    /// The bit path from this node down to the leaf holding `s`: `false`
    /// descends left, `true` descends right.  When `s` sits in both
    /// subtrees the right one wins, matching the order in which
    /// `build_table` records codes.
    pub open spec fn code_of(self, s: char) -> Seq<bool>
        decreases self,
    {
        match self {
            Node::Leaf { .. } => Seq::empty(),
            Node::Internal { left, right, .. } => {
                if right.syms().contains(s) {
                    seq![true] + right.code_of(s)
                } else {
                    seq![false] + left.code_of(s)
                }
            },
        }
    }

    /// The frequency stored at this node, as executable code.
    pub fn frequency(&self) -> (r: usize)
        ensures
            r == self.freq(),
    {
        match self {
            Node::Leaf { frequency, .. } => *frequency,
            Node::Internal { frequency, .. } => *frequency,
        }
    }
}

/// The code table a tree describes: each symbol at a leaf of `n` is mapped
/// to `prefix` followed by its bit path within `n`.
pub open spec fn code_map(n: Node, prefix: Seq<bool>) -> Map<char, Seq<bool>> {
    Map::new(|s: char| n.syms().contains(s), |s: char| prefix + n.code_of(s))
}

/// The path to the leaf holding a symbol of the tree is never empty below
/// an internal node, and always leads to that symbol's leaf.
pub proof fn lemma_code_of_nonempty(n: Node, s: char)
    requires
        n is Internal,
    ensures
        n.code_of(s).len() >= 1,
{
}

} // verus!
