//! A finite set of words, backed by a duplicate-free vector.

use vstd::prelude::*;
use crate::strutil::str_eq;

verus! {

/// A set of words: membership and identity matter, order does not.
pub struct WordSet {
    pub words: Vec<String>,
}

impl View for WordSet {
    type V = Set<Seq<char>>;

    open spec fn view(&self) -> Set<Seq<char>> {
        self.words.deep_view().to_set()
    }
}

impl WordSet {
    /// The stored words, in insertion order.
    pub open spec fn seq_view(&self) -> Seq<Seq<char>> {
        self.words.deep_view()
    }

    /// No word is stored twice.
    pub open spec fn wf(&self) -> bool {
        self.seq_view().no_duplicates()
    }

    /// The empty set of words.
    pub fn new() -> (s: WordSet)
        ensures
            s.wf(),
            s@ == Set::<Seq<char>>::empty(),
    {
        let s = WordSet { words: Vec::new() };
        proof {
            assert(s.seq_view() =~= Seq::<Seq<char>>::empty());
            assert(s@ =~= Set::<Seq<char>>::empty());
        }
        s
    }

    /// Whether `w` is a member.
    pub fn contains(&self, w: &str) -> (b: bool)
        ensures
            b == self@.contains(w@),
    {
        let n = self.words.len();
        let mut i: usize = 0;
        while i < n
            invariant
                i <= n,
                n == self.words.len(),
                forall|j: int| 0 <= j < i ==> self.seq_view()[j] != w@,
            decreases n - i,
        {
            if str_eq(self.words[i].as_str(), w) {
                proof {
                    assert(self.seq_view()[i as int] == w@);
                }
                return true;
            }
            i = i + 1;
        }
        proof {
            assert(!self.seq_view().contains(w@));
        }
        false
    }

    /// Adds `w`; a word already present is not stored again.
    pub fn insert(&mut self, w: String)
        requires
            old(self).wf(),
        ensures
            final(self).wf(),
            final(self)@ == old(self)@.insert(w@),
    {
        if !self.contains(w.as_str()) {
            proof {
                assert(forall|j: int|
                    0 <= j < self.seq_view().len() ==> self.seq_view()[j] != w@);
            }
            let ghost before = self.seq_view();
            self.words.push(w);
            proof {
                assert(self.seq_view() =~= before.push(w@));
                assert forall|x: Seq<char>| #[trigger] self@.contains(x)
                    implies old(self)@.insert(w@).contains(x) by {
                    let i = choose|i: int|
                        0 <= i < self.seq_view().len() && self.seq_view()[i] == x;
                    if i < before.len() {
                        assert(before[i] == x);
                    }
                }
                assert forall|x: Seq<char>| old(self)@.insert(w@).contains(x)
                    implies self@.contains(x) by {
                    if x == w@ {
                        assert(self.seq_view()[before.len() as int] == x);
                    } else {
                        let i = choose|i: int| 0 <= i < before.len() && before[i] == x;
                        assert(self.seq_view()[i] == x);
                    }
                }
                assert(self@ =~= old(self)@.insert(w@));
            }
        } else {
            proof {
                assert(self@ =~= old(self)@.insert(w@));
            }
        }
    }

    /// Adds every member of `other`.
    pub fn insert_all(&mut self, other: &WordSet)
        requires
            old(self).wf(),
        ensures
            final(self).wf(),
            final(self)@ == old(self)@.union(other@),
    {
        let n = other.words.len();
        let mut i: usize = 0;
        while i < n
            invariant
                i <= n,
                n == other.words.len(),
                self.wf(),
                self@ == old(self)@.union(other.seq_view().subrange(0, i as int).to_set()),
            decreases n - i,
        {
            let w = other.words[i].clone();
            proof {
                assert(w@ == other.seq_view()[i as int]);
            }
            self.insert(w);
            proof {
                assert(other.seq_view().subrange(0, i + 1).drop_last()
                    =~= other.seq_view().subrange(0, i as int));
                assert(other.seq_view().subrange(0, i + 1).last()
                    == other.seq_view()[i as int]);
                assert(self@ =~= old(self)@.union(
                    other.seq_view().subrange(0, i + 1).to_set(),
                ));
            }
            i = i + 1;
        }
        proof {
            assert(other.seq_view().subrange(0, n as int) =~= other.seq_view());
            assert(self@ =~= old(self)@.union(other@));
        }
    }

    /// How many words are members.
    pub fn len(&self) -> (n: usize)
        requires
            self.wf(),
        ensures
            n == self@.len(),
    {
        proof {
            self.seq_view().unique_seq_to_set();
        }
        self.words.len()
    }
}

} // verus!
