//! The coder: a Huffman tree paired with its derived code table, used to
//! encode symbol sequences to bits and to decode bits back to symbols.

use crate::builder::build_huffman_from_frequencies;
use crate::freq::{count_map, get_frequencies};
use crate::node::{code_map, lemma_code_of_nonempty, Node};
use crate::table::CodeTable;
use crate::HuffmanError;
use vstd::prelude::*;

verus! {

/// A Huffman tree together with the code table derived from it.  Created
/// once per input alphabet and never mutated afterwards; the one object
/// needed both to encode and to decode.
pub struct HuffmanTree {
    pub(crate) root: Node,
    pub(crate) table: CodeTable,
}

impl HuffmanTree {
    /// The root node of the tree.
    pub closed spec fn spec_root(self) -> Node {
        self.root
    }

    /// The stored code table keeps pairwise distinct keys.
    pub closed spec fn table_wf(self) -> bool {
        self.table.wf()
    }

    /// The coder's invariant: the code table is exactly the table the tree
    /// describes.  A tree of a single leaf gets the one-entry table that
    /// gives its symbol the one-bit code `0`; under an internal root every
    /// symbol's code is its bit path from the root.
    pub open spec fn wf(self) -> bool {
        &&& self.table_wf()
        &&& match self.spec_root() {
            Node::Leaf { symbol, .. } => self@ == Map::<char, Seq<bool>>::empty().insert(
                symbol,
                seq![false],
            ),
            Node::Internal { .. } => self@ == code_map(self.spec_root(), Seq::empty()),
        }
    }

    /// The representation behind the abstract views.
    pub(crate) proof fn lemma_repr(self)
        ensures
            self@ == self.table@,
            self.spec_root() == self.root,
            self.table_wf() == self.table.wf(),
    {
    }

    /// Builds a coder from a symbol sequence: counts the frequencies and
    /// runs the tree builder on them.  Rejects an empty sequence.
    pub fn new(chars: &[char]) -> (r: Result<HuffmanTree, HuffmanError>)
        ensures
            match r {
                Ok(t) => {
                    &&& chars@.len() > 0
                    &&& t.wf()
                    &&& (forall|c: char| #[trigger] t@.dom().contains(c) <==> chars@.contains(c))
                    &&& t.spec_root().leaves_match(count_map(chars@))
                    &&& t.spec_root().freq_ok()
                    &&& t.spec_root().freq() == chars@.len()
                },
                Err(e) => e == HuffmanError::EmptyInput && chars@.len() == 0,
            },
    {
        let n = chars.len();
        let ft = match get_frequencies(chars) {
            Ok(ft) => ft,
            Err(e) => {
                return Err(e);
            },
        };
        let t = build_huffman_from_frequencies(&ft);
        proof {
            assert forall|c: char| #[trigger]
                ft@.dom().contains(c) implies ft@[c] == count_map(chars@)[c] by {
                crate::freq::lemma_count_le_len(chars@, c);
            }
            assert(ft@ =~= count_map(chars@));
        }
        Ok(t)
    }

    /// The code recorded for `c`, or `None` when `c` is not in the
    /// coder's alphabet.
    pub fn get_code(&self, c: char) -> (r: Option<&Vec<bool>>)
        requires
            self.wf(),
        ensures
            match r {
                Some(code) => self@.dom().contains(c) && code@ == self@[c],
                None => !self@.dom().contains(c),
            },
    {
        self.table.get(c)
    }

    /// Encodes `chars`, in order, by appending each symbol's code to the
    /// output bit sequence.  A symbol absent from the alphabet rejects the
    /// whole call: no partial output is returned.
    pub fn encode(&self, chars: &[char]) -> (r: Result<Vec<bool>, HuffmanError>)
        requires
            self.wf(),
        ensures
            match r {
                Ok(bits) => all_known(self@, chars@) && bits@ == spec_encode(self@, chars@),
                Err(e) => e == HuffmanError::UnknownSymbol && !all_known(self@, chars@),
            },
    {
        let n = chars.len();
        let mut result: Vec<bool> = Vec::new();
        proof {
            assert(chars@.take(0) =~= Seq::<char>::empty());
        }
        let mut i: usize = 0;
        while i < n
            invariant
                self.wf(),
                n == chars@.len(),
                0 <= i <= n,
                all_known(self@, chars@.take(i as int)),
                result@ == spec_encode(self@, chars@.take(i as int)),
            decreases n - i,
        {
            let c = chars[i];
            match self.get_code(c) {
                None => {
                    proof {
                        assert(!all_known(self@, chars@));
                    }
                    return Err(HuffmanError::UnknownSymbol);
                },
                Some(code) => {
                    proof {
                        lemma_encode_snoc(self@, chars@.take(i as int), c);
                        assert(chars@.take(i as int + 1) =~= chars@.take(i as int).push(c));
                    }
                    append_bits(&mut result, code);
                },
            }
            i = i + 1;
        }
        proof {
            assert(chars@.take(n as int) =~= chars@);
        }
        Ok(result)
    }

    /// Decodes a bit sequence by walking the tree from the root: `false`
    /// descends left, `true` right; reaching a leaf emits its symbol and
    /// resets the cursor to the root.  Bits that end in the middle of a
    /// code reject the call with `TruncatedCode`.
    pub fn decode(&self, code: &Vec<bool>) -> (r: Result<Vec<char>, HuffmanError>)
        ensures
            match r {
                Ok(syms) => spec_decode(self.spec_root(), code@) == Some(syms@),
                Err(e) => e == HuffmanError::TruncatedCode && spec_decode(
                    self.spec_root(),
                    code@,
                ) is None,
            },
    {
        let n = code.len();
        let mut result: Vec<char> = Vec::new();
        match &self.root {
            Node::Leaf { symbol, .. } => {
                let ghost sym = *symbol;
                let mut i: usize = 0;
                while i < n
                    invariant
                        n == code@.len(),
                        0 <= i <= n,
                        *symbol == sym,
                        result@.len() == i,
                        forall|k: int| 0 <= k < i ==> result@[k] == sym,
                    decreases n - i,
                {
                    result.push(*symbol);
                    i = i + 1;
                }
                proof {
                    if n == 0 {
                        assert(result@ =~= Seq::<char>::empty());
                    } else {
                        assert(result@ =~= Seq::new(code@.len(), |k: int| sym));
                    }
                }
                Ok(result)
            },
            Node::Internal { .. } => {
                let mut i: usize = 0;
                proof {
                    assert(code@.skip(0) =~= code@);
                }
                while i < n
                    invariant
                        n == code@.len(),
                        0 <= i <= n,
                        self.spec_root() is Internal,
                        self.spec_root() == self.root,
                        spec_decode(self.spec_root(), code@) == opt_prepend(
                            result@,
                            spec_decode(self.spec_root(), code@.skip(i as int)),
                        ),
                    decreases n - i,
                {
                    let step = decode_sym_exec(&self.root, code, i);
                    match step {
                        None => {
                            proof {
                                assert(code@.skip(i as int).len() > 0);
                                assert(spec_decode(self.spec_root(), code@.skip(i as int)) is None);
                            }
                            return Err(HuffmanError::TruncatedCode);
                        },
                        Some((c, end)) => {
                            proof {
                                let pre = result@;
                                let bits_i = code@.skip(i as int);
                                let bits_end = code@.skip(end as int);
                                assert(bits_i.len() > 0);
                                assert(spec_decode_sym(self.spec_root(), bits_i) == Some(
                                    (c, bits_end),
                                ));
                                assert(spec_decode(self.spec_root(), bits_i) == opt_prepend(
                                    seq![c],
                                    spec_decode(self.spec_root(), bits_end),
                                ));
                                assert(pre.push(c) =~= pre + seq![c]);
                                match spec_decode(self.spec_root(), bits_end) {
                                    None => {},
                                    Some(tail) => {
                                        assert(pre + (seq![c] + tail) =~= (pre + seq![c]) + tail);
                                    },
                                }
                            }
                            result.push(c);
                            i = end;
                        },
                    }
                }
                proof {
                    assert(code@.skip(n as int) =~= Seq::<bool>::empty());
                    assert(result@ + Seq::<char>::empty() =~= result@);
                }
                Ok(result)
            },
        }
    }
}

/// Appends the bits of `src` to `dst`.
fn append_bits(dst: &mut Vec<bool>, src: &Vec<bool>)
    ensures
        final(dst)@ == old(dst)@ + src@,
{
    let n = src.len();
    proof {
        assert(old(dst)@ + src@.take(0) =~= old(dst)@);
    }
    let mut j: usize = 0;
    while j < n
        invariant
            n == src@.len(),
            0 <= j <= n,
            dst@ == old(dst)@ + src@.take(j as int),
        decreases n - j,
    {
        let b = src[j];
        proof {
            assert(old(dst)@ + src@.take(j as int + 1) =~= (old(dst)@ + src@.take(j as int)).push(
                b,
            ));
        }
        dst.push(b);
        j = j + 1;
    }
    proof {
        assert(src@.take(n as int) =~= src@);
    }
}

/// One decoding step as executable code: descends from `node` along the
/// bits at positions `start..` until a leaf is reached.
fn decode_sym_exec(node: &Node, bits: &Vec<bool>, start: usize) -> (r: Option<(char, usize)>)
    requires
        start <= bits@.len(),
    ensures
        match r {
            Some(step) => {
                &&& start <= step.1 <= bits@.len()
                &&& spec_decode_sym(*node, bits@.skip(start as int)) == Some(
                    (step.0, bits@.skip(step.1 as int)),
                )
                &&& (*node is Internal ==> start < step.1)
            },
            None => spec_decode_sym(*node, bits@.skip(start as int)) is None,
        },
    decreases *node,
{
    match node {
        Node::Leaf { symbol, .. } => Some((*symbol, start)),
        Node::Internal { left, right, .. } => {
            if start == bits.len() {
                proof {
                    assert(bits@.skip(start as int) =~= Seq::<bool>::empty());
                }
                None
            } else {
                let b = bits[start];
                proof {
                    assert(bits@.skip(start as int).len() > 0);
                    assert(bits@.skip(start as int)[0] == bits@[start as int]);
                    assert(bits@.skip(start as int).drop_first() =~= bits@.skip(start as int + 1));
                }
                if b {
                    decode_sym_exec(&**right, bits, start + 1)
                } else {
                    decode_sym_exec(&**left, bits, start + 1)
                }
            }
        },
    }
}

/// Prepends already-decoded symbols to the outcome of decoding the rest.
spec fn opt_prepend(pre: Seq<char>, rest: Option<Seq<char>>) -> Option<Seq<char>> {
    match rest {
        None => None,
        Some(tail) => Some(pre + tail),
    }
}

/// Following the path of a symbol's code from a node that holds the
/// symbol lands exactly on that symbol's leaf, leaving any further bits
/// untouched.
proof fn lemma_follow_code(n: Node, s: char, rest: Seq<bool>)
    requires
        n.syms().contains(s),
    ensures
        spec_decode_sym(n, n.code_of(s) + rest) == Some((s, rest)),
    decreases n,
{
    match n {
        Node::Leaf { symbol, .. } => {
            assert(s == symbol);
            assert(Seq::<bool>::empty() + rest =~= rest);
        },
        Node::Internal { left, right, .. } => {
            let bits = n.code_of(s) + rest;
            if right.syms().contains(s) {
                assert(bits.len() > 0);
                assert(bits[0] == true);
                assert(bits.drop_first() =~= right.code_of(s) + rest);
                lemma_follow_code(*right, s, rest);
            } else {
                assert(left.syms().contains(s));
                assert(bits.len() > 0);
                assert(bits[0] == false);
                assert(bits.drop_first() =~= left.code_of(s) + rest);
                lemma_follow_code(*left, s, rest);
            }
        },
    }
}

/// Under the one-entry table of a single-leaf tree, an input of known
/// symbols encodes to one `0` bit per symbol.
proof fn lemma_leaf_encode(m: Map<char, Seq<bool>>, symbol: char, syms: Seq<char>)
    requires
        m == Map::<char, Seq<bool>>::empty().insert(symbol, seq![false]),
        all_known(m, syms),
    ensures
        spec_encode(m, syms).len() == syms.len(),
        forall|k: int| 0 <= k < syms.len() ==> spec_encode(m, syms)[k] == false,
    decreases syms.len(),
{
    if syms.len() > 0 {
        assert(m.dom().contains(syms[0]));
        assert(syms[0] == symbol);
        assert(m[symbol] =~= seq![false]);
        assert forall|i: int| 0 <= i < syms.drop_first().len() implies m.dom().contains(
            #[trigger] syms.drop_first()[i],
        ) by {
            assert(syms.drop_first()[i] == syms[i + 1]);
        }
        lemma_leaf_encode(m, symbol, syms.drop_first());
        assert(spec_encode(m, syms) == m[syms[0]] + spec_encode(m, syms.drop_first()));
    }
}

/// The round-trip law: decoding the encoding of any sequence of symbols
/// from the coder's alphabet yields that sequence again.
pub proof fn lemma_round_trip(t: HuffmanTree, syms: Seq<char>)
    requires
        t.wf(),
        all_known(t@, syms),
    ensures
        spec_decode(t.spec_root(), spec_encode(t@, syms)) == Some(syms),
    decreases syms.len(),
{
    let root = t.spec_root();
    let bits = spec_encode(t@, syms);
    if syms.len() == 0 {
        assert(bits.len() == 0);
    } else {
        match root {
            Node::Leaf { symbol, .. } => {
                lemma_leaf_encode(t@, symbol, syms);
                assert(bits.len() == syms.len() > 0);
                assert(t@.dom().contains(syms[0]));
                assert forall|k: int| 0 <= k < syms.len() implies syms[k] == symbol by {
                    assert(t@.dom().contains(syms[k]));
                }
                assert(Seq::new(bits.len(), |i: int| symbol) =~= syms);
            },
            Node::Internal { .. } => {
                let s0 = syms[0];
                assert(t@.dom().contains(s0));
                assert(root.syms().contains(s0));
                assert(t@[s0] == Seq::<bool>::empty() + root.code_of(s0));
                assert(Seq::<bool>::empty() + root.code_of(s0) =~= root.code_of(s0));
                let tail = syms.drop_first();
                assert forall|i: int| 0 <= i < tail.len() implies t@.dom().contains(
                    #[trigger] tail[i],
                ) by {
                    assert(tail[i] == syms[i + 1]);
                }
                lemma_round_trip(t, tail);
                let enc_tail = spec_encode(t@, tail);
                assert(bits == t@[s0] + enc_tail);
                assert(bits =~= root.code_of(s0) + enc_tail);
                lemma_follow_code(root, s0, enc_tail);
                lemma_code_of_nonempty(root, s0);
                assert(bits.len() > 0);
                assert(spec_decode_sym(root, bits) == Some((s0, enc_tail)));
                assert(spec_decode(root, bits) == Some(seq![s0] + tail));
                assert(seq![s0] + tail =~= syms);
            },
        }
    }
}

/// Two symbols of a tree whose codes stand in the prefix relation are the
/// same symbol: the paths to two distinct leaves must part at some
/// internal node.
proof fn lemma_path_prefix(n: Node, a: char, b: char)
    requires
        n.syms().contains(a),
        n.syms().contains(b),
        n.code_of(a).is_prefix_of(n.code_of(b)),
    ensures
        a == b,
    decreases n,
{
    match n {
        Node::Leaf { symbol, .. } => {
            assert(a == symbol && b == symbol);
        },
        Node::Internal { left, right, .. } => {
            let ca = n.code_of(a);
            let cb = n.code_of(b);
            assert(ca.len() >= 1 && cb.len() >= 1);
            assert(ca[0] == cb[0]);
            if right.syms().contains(a) {
                assert(ca[0] == true);
                assert(right.syms().contains(b));
                assert(ca.drop_first() =~= right.code_of(a));
                assert(cb.drop_first() =~= right.code_of(b));
                assert(right.code_of(a).is_prefix_of(right.code_of(b))) by {
                    assert(right.code_of(a) =~= cb.subrange(0, ca.len() as int).drop_first());
                    assert(cb.subrange(0, ca.len() as int).drop_first() =~= cb.drop_first().subrange(
                        0,
                        ca.len() - 1,
                    ));
                }
                lemma_path_prefix(*right, a, b);
            } else {
                assert(left.syms().contains(a));
                assert(ca[0] == false);
                assert(!right.syms().contains(b));
                assert(left.syms().contains(b));
                assert(ca.drop_first() =~= left.code_of(a));
                assert(cb.drop_first() =~= left.code_of(b));
                assert(left.code_of(a).is_prefix_of(left.code_of(b))) by {
                    assert(left.code_of(a) =~= cb.subrange(0, ca.len() as int).drop_first());
                    assert(cb.subrange(0, ca.len() as int).drop_first() =~= cb.drop_first().subrange(
                        0,
                        ca.len() - 1,
                    ));
                }
                lemma_path_prefix(*left, a, b);
            }
        },
    }
}

/// The prefix-free law: of two distinct symbols of the coder's alphabet,
/// neither one's code is a prefix of the other's.
pub proof fn lemma_prefix_free(t: HuffmanTree, a: char, b: char)
    requires
        t.wf(),
        a != b,
        t@.dom().contains(a),
        t@.dom().contains(b),
    ensures
        !t@[a].is_prefix_of(t@[b]),
{
    match t.spec_root() {
        Node::Leaf { symbol, .. } => {
            assert(a == symbol && b == symbol);
        },
        Node::Internal { .. } => {
            let root = t.spec_root();
            assert(root.syms().contains(a) && root.syms().contains(b));
            assert(t@[a] == Seq::<bool>::empty() + root.code_of(a));
            assert(t@[a] =~= root.code_of(a));
            assert(t@[b] =~= root.code_of(b));
            if t@[a].is_prefix_of(t@[b]) {
                assert(root.code_of(a).is_prefix_of(root.code_of(b)));
                lemma_path_prefix(root, a, b);
                assert(false);
            }
        },
    }
}

/// Every code the coder hands out holds at least one bit: even the sole
/// symbol of a single-leaf tree gets the one-bit code `0`.
pub proof fn lemma_code_nonempty(t: HuffmanTree, a: char)
    requires
        t.wf(),
        t@.dom().contains(a),
    ensures
        t@[a].len() >= 1,
{
    match t.spec_root() {
        Node::Leaf { symbol, .. } => {
            assert(a == symbol);
            assert(t@[a] == seq![false]);
        },
        Node::Internal { .. } => {
            let root = t.spec_root();
            assert(t@[a] == Seq::<bool>::empty() + root.code_of(a));
            lemma_code_of_nonempty(root, a);
        },
    }
}

/// Appending one symbol to the input appends its code to the encoding.
proof fn lemma_encode_snoc(m: Map<char, Seq<bool>>, s: Seq<char>, c: char)
    ensures
        spec_encode(m, s.push(c)) == spec_encode(m, s) + m[c],
    decreases s.len(),
{
    if s.len() == 0 {
        let e = Seq::<char>::empty();
        assert(s.push(c).len() == 1);
        assert(s.push(c)[0] == c);
        assert(s.push(c).drop_first() =~= e);
        assert(spec_encode(m, s.push(c)) == m[c] + spec_encode(m, e));
        assert(spec_encode(m, e) =~= Seq::<bool>::empty());
        assert(m[c] + Seq::<bool>::empty() =~= m[c]);
        assert(spec_encode(m, s) + m[c] =~= m[c]);
    } else {
        assert(s.push(c).drop_first() =~= s.drop_first().push(c));
        assert(s.push(c)[0] == s[0]);
        lemma_encode_snoc(m, s.drop_first(), c);
        assert(spec_encode(m, s.push(c)) == m[s[0]] + spec_encode(m, s.drop_first().push(c)));
        assert(spec_encode(m, s.push(c)) == m[s[0]] + (spec_encode(m, s.drop_first()) + m[c]));
        assert(spec_encode(m, s) == m[s[0]] + spec_encode(m, s.drop_first()));
        assert((m[s[0]] + spec_encode(m, s.drop_first())) + m[c] =~= m[s[0]] + (spec_encode(
            m,
            s.drop_first(),
        ) + m[c]));
    }
}

impl View for HuffmanTree {
    type V = Map<char, Seq<bool>>;

    closed spec fn view(&self) -> Map<char, Seq<bool>> {
        self.table@
    }
}

/// Every symbol of `syms` is a key of the code table `m`.
pub open spec fn all_known(m: Map<char, Seq<bool>>, syms: Seq<char>) -> bool {
    forall|i: int| 0 <= i < syms.len() ==> m.dom().contains(#[trigger] syms[i])
}

/// The bit sequence that encodes `syms` under the code table `m`: the
/// codes of the symbols, concatenated in order.
pub open spec fn spec_encode(m: Map<char, Seq<bool>>, syms: Seq<char>) -> Seq<bool>
    decreases syms.len(),
{
    if syms.len() == 0 {
        Seq::empty()
    } else {
        m[syms[0]] + spec_encode(m, syms.drop_first())
    }
}

/// One step of decoding: descends from `n` along `bits` (`false` = left,
/// `true` = right) until a leaf is reached, and yields that leaf's symbol
/// with the bits not yet consumed; `None` when the bits end first.
pub open spec fn spec_decode_sym(n: Node, bits: Seq<bool>) -> Option<(char, Seq<bool>)>
    decreases bits.len(), n,
{
    match n {
        Node::Leaf { symbol, .. } => Some((symbol, bits)),
        Node::Internal { left, right, .. } => {
            if bits.len() == 0 {
                None
            } else if bits[0] {
                spec_decode_sym(*right, bits.drop_first())
            } else {
                spec_decode_sym(*left, bits.drop_first())
            }
        },
    }
}

/// Below an internal node, a decoding step always consumes at least one
/// bit.
pub proof fn lemma_decode_sym_consumes(n: Node, bits: Seq<bool>)
    requires
        n is Internal,
    ensures
        spec_decode_sym(n, bits) matches Some(step) ==> step.1.len() < bits.len(),
    decreases bits.len(), n,
{
    if bits.len() > 0 {
        match n {
            Node::Leaf { .. } => {},
            Node::Internal { left, right, .. } => {
                let child = if bits[0] {
                    *right
                } else {
                    *left
                };
                let rest = bits.drop_first();
                assert(spec_decode_sym(n, bits) == spec_decode_sym(child, rest));
                assert(rest.len() == bits.len() - 1);
                match child {
                    Node::Leaf { .. } => {
                        assert(spec_decode_sym(child, rest) matches Some(step) && step.1 == rest);
                    },
                    Node::Internal { .. } => {
                        lemma_decode_sym_consumes(child, rest);
                    },
                }
            },
        }
    }
}

/// What decoding `bits` against the tree rooted at `root` yields: the
/// decoded symbols, or `None` when the bits end in the middle of a code.
/// A tree that is a single leaf pairs with the table that gives its one
/// symbol the code `0`, so each bit stands for one occurrence of that
/// symbol.
pub open spec fn spec_decode(root: Node, bits: Seq<bool>) -> Option<Seq<char>>
    decreases bits.len(),
{
    if bits.len() == 0 {
        Some(Seq::empty())
    } else {
        match root {
            Node::Leaf { symbol, .. } => Some(Seq::new(bits.len(), |i: int| symbol)),
            Node::Internal { .. } => {
                proof {
                    lemma_decode_sym_consumes(root, bits);
                }
                match spec_decode_sym(root, bits) {
                    None => None,
                    Some(step) => match spec_decode(root, step.1) {
                        None => None,
                        Some(tail) => Some(seq![step.0] + tail),
                    },
                }
            },
        }
    }
}

} // verus!
