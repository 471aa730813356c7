//! The frequency analyzer: counts symbol occurrences.

use crate::HuffmanError;
use vstd::prelude::*;

verus! {

/// How often `c` occurs in `s`.
pub open spec fn count(s: Seq<char>, c: char) -> nat
    decreases s.len(),
{
    if s.len() == 0 {
        0
    } else {
        count(s.drop_last(), c) + if s.last() == c {
            1nat
        } else {
            0nat
        }
    }
}

/// A symbol never occurs more often than the sequence is long.
pub proof fn lemma_count_le_len(s: Seq<char>, c: char)
    ensures
        count(s, c) <= s.len(),
    decreases s.len(),
{
    if s.len() > 0 {
        lemma_count_le_len(s.drop_last(), c);
    }
}

/// The frequency mapping of a symbol sequence: each symbol that occurs in
/// `s` is mapped to its occurrence count.
pub open spec fn count_map(s: Seq<char>) -> Map<char, usize> {
    Map::new(|c: char| s.contains(c), |c: char| count(s, c) as usize)
}

/// A symbol that never occurs has count zero.
pub proof fn lemma_count_zero(s: Seq<char>, c: char)
    requires
        !s.contains(c),
    ensures
        count(s, c) == 0,
    decreases s.len(),
{
    if s.len() > 0 {
        assert(s[s.len() - 1] != c);
        assert forall|k: int| 0 <= k < s.len() - 1 implies s.drop_last()[k] != c by {
            assert(s[k] != c);
        }
        assert(!s.drop_last().contains(c));
        lemma_count_zero(s.drop_last(), c);
    }
}

/// A mapping from each distinct symbol of an input sequence to its
/// occurrence count, stored as a vector of pairs with pairwise distinct
/// keys and abstracted as a `Map<char, usize>`.
pub struct FreqTable {
    entries: Vec<(char, usize)>,
}

impl FreqTable {
    /// The keys of the stored pairs are pairwise distinct.
    pub closed spec fn wf(self) -> bool {
        forall|i: int, j: int|
            0 <= i < j < self.entries@.len() ==> (#[trigger] self.entries@[i]).0 != (
            #[trigger] self.entries@[j]).0
    }

    /// How many distinct symbols the table holds.
    pub closed spec fn num_entries(self) -> int {
        self.entries@.len() as int
    }

    /// The symbol/count pair at position `i`.
    pub closed spec fn pair_at(self, i: int) -> (char, usize) {
        self.entries@[i]
    }

    /// The sum of the counts of the first `k` pairs.
    pub open spec fn total_to(self, k: int) -> int
        decreases k,
    {
        if k <= 0 {
            0
        } else {
            self.total_to(k - 1) + self.pair_at(k - 1).1
        }
    }

    /// The sum of all counts.
    pub open spec fn total(self) -> int {
        self.total_to(self.num_entries())
    }

    /// The pair at index `i` is what the table maps its key to.
    pub proof fn lemma_pair_is_view(self, i: int)
        requires
            self.wf(),
            0 <= i < self.num_entries(),
        ensures
            self@.dom().contains(self.pair_at(i).0),
            self@[self.pair_at(i).0] == self.pair_at(i).1,
    {
        let c = self.entries@[i].0;
        let j = choose|j: int|
            0 <= j < self.entries@.len() && (#[trigger] self.entries@[j]).0 == c;
        if i != j {
            let lo = if i < j { i } else { j };
            let hi = if i < j { j } else { i };
            assert(self.entries@[lo].0 != self.entries@[hi].0);
        }
    }

    /// Every key of the mapping stands at some index.
    pub proof fn lemma_view_has_index(self, c: char)
        requires
            self@.dom().contains(c),
        ensures
            exists|i: int| 0 <= i < self.num_entries() && (#[trigger] self.pair_at(i)).0 == c,
    {
        let j = choose|j: int|
            0 <= j < self.entries@.len() && (#[trigger] self.entries@[j]).0 == c;
        assert(0 <= j < self.num_entries() && self.pair_at(j).0 == c);
    }

    /// The table with no entries.
    pub fn new() -> (r: FreqTable)
        ensures
            r.wf(),
            r@ == Map::<char, usize>::empty(),
            r.num_entries() == 0,
    {
        let r = FreqTable { entries: Vec::new() };
        proof {
            assert(r@ =~= Map::<char, usize>::empty());
        }
        r
    }

    /// How many distinct symbols the table holds.
    pub fn len(&self) -> (n: usize)
        ensures
            n == self.num_entries(),
    {
        self.entries.len()
    }

    /// The symbol at position `i`.
    pub fn symbol_at(&self, i: usize) -> (r: char)
        requires
            i < self.num_entries(),
        ensures
            r == self.pair_at(i as int).0,
    {
        self.entries[i].0
    }

    /// The count at position `i`.
    pub fn count_at(&self, i: usize) -> (r: usize)
        requires
            i < self.num_entries(),
        ensures
            r == self.pair_at(i as int).1,
    {
        self.entries[i].1
    }

    /// The count recorded for `c`, or `None` when `c` has no entry.
    pub fn get(&self, c: char) -> (r: Option<usize>)
        requires
            self.wf(),
        ensures
            match r {
                Some(n) => self@.dom().contains(c) && n == self@[c],
                None => !self@.dom().contains(c),
            },
    {
        let n = self.entries.len();
        let mut i: usize = 0;
        while i < n
            invariant
                self.wf(),
                n == self.entries@.len(),
                0 <= i <= n,
                forall|j: int| 0 <= j < i ==> (#[trigger] self.entries@[j]).0 != c,
            decreases n - i,
        {
            if self.entries[i].0 == c {
                proof {
                    self.lemma_pair_is_view(i as int);
                }
                return Some(self.entries[i].1);
            }
            i = i + 1;
        }
        None
    }

    /// Records count `n` for `c`, replacing any earlier entry for `c`.
    pub fn insert(&mut self, c: char, n: usize)
        requires
            old(self).wf(),
        ensures
            final(self).wf(),
            final(self)@ == old(self)@.insert(c, n),
    {
        let len = self.entries.len();
        let mut i: usize = 0;
        while i < len
            invariant
                self.wf(),
                *self == *old(self),
                len == self.entries@.len(),
                0 <= i <= len,
                forall|j: int| 0 <= j < i ==> (#[trigger] self.entries@[j]).0 != c,
            decreases len - i,
        {
            if self.entries[i].0 == c {
                let entry = &mut self.entries[i];
                *entry = (c, n);
                proof {
                    lemma_update_is_insert(*self, *old(self), i as int, c);
                }
                return ;
            }
            i = i + 1;
        }
        self.entries.push((c, n));
        proof {
            lemma_push_is_insert(*self, *old(self), c);
        }
    }
}

impl View for FreqTable {
    type V = Map<char, usize>;

    closed spec fn view(&self) -> Map<char, usize> {
        Map::new(
            |c: char|
                exists|i: int|
                    0 <= i < self.entries@.len() && (#[trigger] self.entries@[i]).0 == c,
            |c: char|
                {
                    let i = choose|i: int|
                        0 <= i < self.entries@.len() && (#[trigger] self.entries@[i]).0 == c;
                    self.entries@[i].1
                },
        )
    }
}

/// Replacing the value at the index that already holds key `c` is, at the
/// level of the mapping, an insert for `c`.
proof fn lemma_update_is_insert(cur: FreqTable, prev: FreqTable, i: int, c: char)
    requires
        prev.wf(),
        0 <= i < prev.entries@.len(),
        prev.entries@[i].0 == c,
        cur.entries@.len() == prev.entries@.len(),
        cur.entries@[i].0 == c,
        forall|j: int|
            0 <= j < prev.entries@.len() && j != i ==> cur.entries@[j] == prev.entries@[j],
    ensures
        cur.wf(),
        cur@ == prev@.insert(c, cur.entries@[i].1),
{
    assert forall|p: int, q: int|
        0 <= p < q < cur.entries@.len() implies (#[trigger] cur.entries@[p]).0 != (
    #[trigger] cur.entries@[q]).0 by {
        assert(prev.entries@[p].0 != prev.entries@[q].0);
    }
    assert forall|d: char|
        prev@.insert(c, cur.entries@[i].1).dom().contains(d) implies cur@.dom().contains(d) by {
        if d == c {
            assert(cur.entries@[i].0 == c);
        } else {
            let j = choose|j: int|
                0 <= j < prev.entries@.len() && (#[trigger] prev.entries@[j]).0 == d;
            assert(cur.entries@[j].0 == d);
        }
    }
    assert forall|d: char| #[trigger]
        cur@.dom().contains(d) implies prev@.insert(c, cur.entries@[i].1).dom().contains(d) by {
        let j = choose|j: int|
            0 <= j < cur.entries@.len() && (#[trigger] cur.entries@[j]).0 == d;
        if d != c {
            assert(prev.entries@[j].0 == d);
        }
    }
    assert forall|d: char| #[trigger]
        cur@.dom().contains(d) implies cur@[d] == prev@.insert(c, cur.entries@[i].1)[d] by {
        let j = choose|j: int|
            0 <= j < cur.entries@.len() && (#[trigger] cur.entries@[j]).0 == d;
        cur.lemma_pair_is_view(j);
        if d == c {
            if j != i {
                assert(cur.entries@[i].0 == cur.entries@[j].0);
                assert(false);
            }
        } else {
            prev.lemma_pair_is_view(j);
        }
    }
    assert(cur@ =~= prev@.insert(c, cur.entries@[i].1));
}

/// Pushing a pair whose key has no earlier entry is, at the level of the
/// mapping, an insert for that key.
proof fn lemma_push_is_insert(cur: FreqTable, prev: FreqTable, c: char)
    requires
        prev.wf(),
        forall|j: int| 0 <= j < prev.entries@.len() ==> (#[trigger] prev.entries@[j]).0 != c,
        cur.entries@.len() == prev.entries@.len() + 1,
        cur.entries@.last().0 == c,
        forall|j: int| 0 <= j < prev.entries@.len() ==> cur.entries@[j] == prev.entries@[j],
    ensures
        cur.wf(),
        cur@ == prev@.insert(c, cur.entries@.last().1),
{
    let v = cur.entries@.last().1;
    assert forall|p: int, q: int|
        0 <= p < q < cur.entries@.len() implies (#[trigger] cur.entries@[p]).0 != (
    #[trigger] cur.entries@[q]).0 by {
        if q < cur.entries@.len() - 1 {
            assert(prev.entries@[p].0 != prev.entries@[q].0);
        } else {
            assert(prev.entries@[p].0 != c);
        }
    }
    assert forall|d: char|
        prev@.insert(c, v).dom().contains(d) implies cur@.dom().contains(d) by {
        if d == c {
            assert(cur.entries@[cur.entries@.len() - 1].0 == c);
        } else {
            let j = choose|j: int|
                0 <= j < prev.entries@.len() && (#[trigger] prev.entries@[j]).0 == d;
            assert(cur.entries@[j].0 == d);
        }
    }
    assert forall|d: char| #[trigger]
        cur@.dom().contains(d) implies prev@.insert(c, v).dom().contains(d) by {
        if d != c {
            let j = choose|j: int|
                0 <= j < cur.entries@.len() && (#[trigger] cur.entries@[j]).0 == d;
            assert(prev.entries@[j].0 == d);
        }
    }
    assert forall|d: char| #[trigger]
        cur@.dom().contains(d) implies cur@[d] == prev@.insert(c, v)[d] by {
        let j = choose|j: int|
            0 <= j < cur.entries@.len() && (#[trigger] cur.entries@[j]).0 == d;
        cur.lemma_pair_is_view(j);
        if d == c {
            if j != cur.entries@.len() - 1 {
                assert(cur.entries@[j].0 != c);
                assert(false);
            }
        } else {
            prev.lemma_pair_is_view(j);
        }
    }
    assert(cur@ =~= prev@.insert(c, v));
}

/// Counts how often each distinct symbol occurs in `chars`.
///
/// Rejects an empty input: an empty alphabet cannot build a tree.
pub fn get_frequencies(chars: &[char]) -> (r: Result<FreqTable, HuffmanError>)
    ensures
        match r {
            Ok(ft) => {
                &&& chars@.len() > 0
                &&& ft.wf()
                &&& ft.num_entries() >= 1
                &&& forall|c: char| ft@.dom().contains(c) <==> chars@.contains(c)
                &&& forall|c: char| ft@.dom().contains(c) ==> ft@[c] == count(chars@, c)
                &&& ft.total() == chars@.len()
            },
            Err(e) => e == HuffmanError::EmptyInput && chars@.len() == 0,
        },
{
    let n = chars.len();
    if n == 0 {
        return Err(HuffmanError::EmptyInput);
    }
    let mut ft = FreqTable { entries: Vec::new() };
    let mut i: usize = 0;
    while i < n
        invariant
            n == chars@.len(),
            0 <= i <= n,
            ft.wf(),
            ft.total() == i,
            forall|c: char| ft@.dom().contains(c) <==> chars@.take(i as int).contains(c),
            forall|c: char| ft@.dom().contains(c) ==> ft@[c] == count(chars@.take(i as int), c),
        decreases n - i,
    {
        let c = chars[i];
        let ghost prev = ft;
        let ghost pre = chars@.take(i as int);
        let ghost post = chars@.take(i as int + 1);
        let len = ft.entries.len();
        let mut j: usize = 0;
        while j < len && ft.entries[j].0 != c
            invariant
                ft == prev,
                len == ft.entries@.len(),
                0 <= j <= len,
                forall|k: int| 0 <= k < j ==> (#[trigger] ft.entries@[k]).0 != c,
            decreases len - j,
        {
            j = j + 1;
        }
        proof {
            assert(post =~= pre.push(chars@[i as int]));
            assert(post.drop_last() =~= pre);
            assert forall|d: char| d != c implies count(post, d) == count(pre, d) by {}
            assert(count(post, c) == count(pre, c) + 1);
        }
        if j < len {
            proof {
                ft.lemma_pair_is_view(j as int);
                lemma_count_le_len(pre, c);
                assert(ft@[c] <= pre.len());
            }
            let v = ft.entries[j].1;
            let entry = &mut ft.entries[j];
            *entry = (c, v + 1);
            proof {
                lemma_update_is_insert(ft, prev, j as int, c);
                lemma_total_update(ft, prev, j as int);
                assert(v == count(pre, c));
                assert(ft@[c] == count(post, c));
            }
        } else {
            proof {
                assert(!prev@.dom().contains(c));
                assert(!pre.contains(c));
                lemma_count_zero(pre, c);
            }
            ft.entries.push((c, 1));
            proof {
                lemma_push_is_insert(ft, prev, c);
                assert(ft.total_to(ft.num_entries() - 1) == prev.total()) by {
                    lemma_total_same_prefix(ft, prev, prev.num_entries());
                }
                assert(ft@[c] == count(post, c));
            }
        }
        proof {
            assert forall|d: char| #[trigger] ft@.dom().contains(d) implies ft@[d] == count(
                post,
                d,
            ) by {
                if d != c {
                    assert(prev@.dom().contains(d));
                    assert(ft@[d] == prev@[d]);
                    assert(count(post, d) == count(pre, d));
                }
            }
            assert forall|d: char| ft@.dom().contains(d) <==> post.contains(d) by {
                if d == c {
                    assert(post[post.len() - 1] == c);
                    assert(post.contains(c));
                } else {
                    if post.contains(d) {
                        let k = choose|k: int| 0 <= k < post.len() && post[k] == d;
                        if k < post.len() - 1 {
                            assert(pre[k] == d);
                            assert(pre.contains(d));
                        }
                    }
                    if pre.contains(d) {
                        let k = choose|k: int| 0 <= k < pre.len() && pre[k] == d;
                        assert(post[k] == d);
                        assert(post.contains(d));
                    }
                }
            }
        }
        i = i + 1;
    }
    proof {
        assert(chars@.take(n as int) =~= chars@);
        assert(chars@.contains(chars@[0]));
        assert(ft@.dom().contains(chars@[0]));
        ft.lemma_view_has_index(chars@[0]);
    }
    Ok(ft)
}

/// Raising one count by one raises the total by one.
proof fn lemma_total_update(cur: FreqTable, prev: FreqTable, i: int)
    requires
        cur.entries@.len() == prev.entries@.len(),
        0 <= i < prev.entries@.len(),
        cur.entries@[i].1 == prev.entries@[i].1 + 1,
        forall|j: int|
            0 <= j < prev.entries@.len() && j != i ==> cur.entries@[j] == prev.entries@[j],
    ensures
        cur.total() == prev.total() + 1,
{
    lemma_total_to_update(cur, prev, i, cur.num_entries());
}

/// Raising one count by one raises every partial sum that covers it.
proof fn lemma_total_to_update(cur: FreqTable, prev: FreqTable, i: int, k: int)
    requires
        cur.entries@.len() == prev.entries@.len(),
        0 <= i < prev.entries@.len(),
        cur.entries@[i].1 == prev.entries@[i].1 + 1,
        forall|j: int|
            0 <= j < prev.entries@.len() && j != i ==> cur.entries@[j] == prev.entries@[j],
        i < k <= prev.entries@.len(),
    ensures
        cur.total_to(k) == prev.total_to(k) + 1,
    decreases k,
{
    if k - 1 == i {
        lemma_total_same_prefix(cur, prev, i);
    } else {
        lemma_total_to_update(cur, prev, i, k - 1);
    }
}

/// Tables that agree on their first `k` pairs agree on that partial sum.
proof fn lemma_total_same_prefix(cur: FreqTable, prev: FreqTable, k: int)
    requires
        k <= prev.entries@.len(),
        k <= cur.entries@.len(),
        forall|j: int| 0 <= j < k ==> cur.entries@[j] == prev.entries@[j],
    ensures
        cur.total_to(k) == prev.total_to(k),
    decreases k,
{
    if k > 0 {
        lemma_total_same_prefix(cur, prev, k - 1);
    }
}

} // verus!
