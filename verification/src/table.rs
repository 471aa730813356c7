//! The code table: a mapping from symbol to its bit-sequence code.

use vstd::prelude::*;

verus! {

/// A mapping from symbol to the ordered sequence of bits that encodes it
/// (`false` = 0/left, `true` = 1/right), stored as a vector of pairs with
/// pairwise distinct keys and abstracted as a `Map<char, Seq<bool>>`.
pub struct CodeTable {
    entries: Vec<(char, Vec<bool>)>,
}

impl CodeTable {
    /// The keys of the stored pairs are pairwise distinct.
    pub closed spec fn wf(self) -> bool {
        forall|i: int, j: int|
            0 <= i < j < self.entries@.len() ==> (#[trigger] self.entries@[i]).0 != (
            #[trigger] self.entries@[j]).0
    }

    /// The table with no entries.
    pub fn new() -> (r: CodeTable)
        ensures
            r.wf(),
            r@ == Map::<char, Seq<bool>>::empty(),
    {
        let r = CodeTable { entries: Vec::new() };
        proof {
            assert(r@ =~= Map::<char, Seq<bool>>::empty());
        }
        r
    }

    /// The entry at index `i` is what the table maps its key to.
    proof fn lemma_entry_is_view(self, i: int)
        requires
            self.wf(),
            0 <= i < self.entries@.len(),
        ensures
            self@.dom().contains(self.entries@[i].0),
            self@[self.entries@[i].0] == self.entries@[i].1@,
    {
        let c = self.entries@[i].0;
        let j = choose|j: int|
            0 <= j < self.entries@.len() && (#[trigger] self.entries@[j]).0 == c;
        if i != j {
            let lo = if i < j { i } else { j };
            let hi = if i < j { j } else { i };
            assert(self.entries@[lo].0 != self.entries@[hi].0);
        }
    }

    /// The code recorded for `c`, or `None` when `c` has no entry.
    pub fn get(&self, c: char) -> (r: Option<&Vec<bool>>)
        requires
            self.wf(),
        ensures
            match r {
                Some(code) => self@.dom().contains(c) && code@ == self@[c],
                None => !self@.dom().contains(c),
            },
    {
        let n = self.entries.len();
        let mut i: usize = 0;
        while i < n
            invariant
                self.wf(),
                n == self.entries@.len(),
                0 <= i <= n,
                forall|j: int| 0 <= j < i ==> (#[trigger] self.entries@[j]).0 != c,
            decreases n - i,
        {
            if self.entries[i].0 == c {
                proof {
                    self.lemma_entry_is_view(i as int);
                }
                return Some(&self.entries[i].1);
            }
            i = i + 1;
        }
        proof {
            assert(!self@.dom().contains(c));
        }
        None
    }

    /// Records `code` for `c`, replacing any earlier entry for `c`.
    pub fn insert(&mut self, c: char, code: Vec<bool>)
        requires
            old(self).wf(),
        ensures
            final(self).wf(),
            final(self)@ == old(self)@.insert(c, code@),
    {
        let n = self.entries.len();
        let mut i: usize = 0;
        while i < n
            invariant
                self.wf(),
                *self == *old(self),
                n == self.entries@.len(),
                0 <= i <= n,
                forall|j: int| 0 <= j < i ==> (#[trigger] self.entries@[j]).0 != c,
            decreases n - i,
        {
            if self.entries[i].0 == c {
                let entry = &mut self.entries[i];
                *entry = (c, code);
                proof {
                    self.lemma_update_is_insert(*old(self), i as int, c);
                }
                return ;
            }
            i = i + 1;
        }
        self.entries.push((c, code));
        proof {
            assert forall|p: int, q: int|
                0 <= p < q < self.entries@.len() implies (#[trigger] self.entries@[p]).0 != (
            #[trigger] self.entries@[q]).0 by {
                if q < self.entries@.len() - 1 {
                    assert(old(self).wf());
                }
            }
            assert forall|d: char|
                old(self)@.insert(c, code@).dom().contains(d) implies self@.dom().contains(d) by {
                if d == c {
                    assert(self.entries@[self.entries@.len() - 1].0 == c);
                } else {
                    let j = choose|j: int|
                        0 <= j < old(self).entries@.len() && (#[trigger] old(
                            self,
                        ).entries@[j]).0 == d;
                    assert(self.entries@[j].0 == d);
                }
            }
            assert forall|d: char| #[trigger]
                self@.dom().contains(d) implies old(self)@.insert(c, code@).dom().contains(d) by {
                if d != c {
                    let j = choose|j: int|
                        0 <= j < self.entries@.len() && (#[trigger] self.entries@[j]).0 == d;
                    assert(old(self).entries@[j].0 == d);
                }
            }
            assert forall|d: char| #[trigger]
                self@.dom().contains(d) implies self@[d] == old(self)@.insert(c, code@)[d] by {
                if d == c {
                    self.lemma_entry_is_view(self.entries@.len() - 1);
                } else {
                    let j = choose|j: int|
                        0 <= j < self.entries@.len() && (#[trigger] self.entries@[j]).0 == d;
                    self.lemma_entry_is_view(j);
                    old(self).lemma_entry_is_view(j);
                }
            }
            assert(self@ =~= old(self)@.insert(c, code@));
        }
    }

    /// Replacing the value at the index that already holds key `c` is, at
    /// the level of the mapping, an insert for `c`.
    proof fn lemma_update_is_insert(self, prev: CodeTable, i: int, c: char)
        requires
            prev.wf(),
            0 <= i < prev.entries@.len(),
            prev.entries@[i].0 == c,
            self.entries@.len() == prev.entries@.len(),
            self.entries@[i].0 == c,
            forall|j: int|
                0 <= j < prev.entries@.len() && j != i ==> self.entries@[j] == prev.entries@[j],
        ensures
            self.wf(),
            self@ == prev@.insert(c, self.entries@[i].1@),
    {
        assert forall|p: int, q: int|
            0 <= p < q < self.entries@.len() implies (#[trigger] self.entries@[p]).0 != (
        #[trigger] self.entries@[q]).0 by {
            assert(prev.entries@[p].0 != prev.entries@[q].0);
        }
        assert forall|d: char|
            self@.dom().contains(d) == prev@.insert(
                c,
                self.entries@[i].1@,
            ).dom().contains(d) by {
            if exists|j: int| 0 <= j < self.entries@.len() && (#[trigger] self.entries@[j]).0 == d {
                let j = choose|j: int|
                    0 <= j < self.entries@.len() && (#[trigger] self.entries@[j]).0 == d;
                assert(prev.entries@[j].0 == self.entries@[j].0);
            } else {
                if prev@.dom().contains(d) {
                    let j = choose|j: int|
                        0 <= j < prev.entries@.len() && (#[trigger] prev.entries@[j]).0 == d;
                    assert(self.entries@[j].0 == d);
                }
            }
        }
        assert forall|d: char| #[trigger]
            self@.dom().contains(d) implies self@[d] == prev@.insert(
            c,
            self.entries@[i].1@,
        )[d] by {
            let j = choose|j: int|
                0 <= j < self.entries@.len() && (#[trigger] self.entries@[j]).0 == d;
            self.lemma_entry_is_view(j);
            if d == c {
                if j != i {
                    assert(self.entries@[i].0 == self.entries@[j].0);
                    assert(false);
                }
            } else {
                prev.lemma_entry_is_view(j);
            }
        }
        assert(self@ =~= prev@.insert(c, self.entries@[i].1@));
    }
}

impl View for CodeTable {
    type V = Map<char, Seq<bool>>;

    closed spec fn view(&self) -> Map<char, Seq<bool>> {
        Map::new(
            |c: char|
                exists|i: int|
                    0 <= i < self.entries@.len() && (#[trigger] self.entries@[i]).0 == c,
            |c: char|
                {
                    let i = choose|i: int|
                        0 <= i < self.entries@.len() && (#[trigger] self.entries@[i]).0 == c;
                    self.entries@[i].1@
                },
        )
    }
}

} // verus!
