//! The frequency model: how often each word occurred in a training corpus.

use vstd::prelude::*;
use crate::strutil::str_eq;

verus! {

broadcast use {
    vstd::seq_lib::group_to_multiset_ensures,
    vstd::multiset::group_multiset_axioms,
};

/// Frequency counts learned once from a corpus and queried read-only
/// thereafter. Every stored count is positive; an absent word counts 0.
pub struct FrequencyModel {
    pub entries: Vec<(String, usize)>,
}

/// The keys of an entry sequence, in order.
pub open spec fn keys_of(s: Seq<(Seq<char>, usize)>) -> Seq<Seq<char>> {
    s.map_values(|p: (Seq<char>, usize)| p.0)
}

/// The finite map that an entry sequence denotes; a later entry for a
/// key overrides an earlier one.
pub open spec fn entries_map(s: Seq<(Seq<char>, usize)>) -> Map<Seq<char>, nat>
    decreases s.len(),
{
    if s.len() == 0 {
        Map::<Seq<char>, nat>::empty()
    } else {
        entries_map(s.drop_last()).insert(s.last().0, s.last().1 as nat)
    }
}

/// The number of occurrences of each word of `tokens`: the domain holds
/// exactly the words that occur, and each maps to its occurrence count.
pub open spec fn word_frequencies(tokens: Seq<Seq<char>>) -> Map<Seq<char>, nat> {
    Map::new(
        |w: Seq<char>| tokens.to_multiset().count(w) > 0,
        |w: Seq<char>| tokens.to_multiset().count(w),
    )
}

/// Appending one element to a sequence inserts it into the denoted set.
pub proof fn lemma_push_to_set<A>(s: Seq<A>, x: A)
    ensures
        s.push(x).to_set() == s.to_set().insert(x),
{
    assert forall|y: A| #[trigger] s.push(x).to_set().contains(y)
        implies s.to_set().insert(x).contains(y) by {
        let i = choose|i: int| 0 <= i < s.push(x).len() && s.push(x)[i] == y;
        if i < s.len() {
            assert(s[i] == y);
        }
    }
    assert forall|y: A| s.to_set().insert(x).contains(y)
        implies #[trigger] s.push(x).to_set().contains(y) by {
        if y == x {
            assert(s.push(x)[s.len() as int] == y);
        } else {
            let i = choose|i: int| 0 <= i < s.len() && s[i] == y;
            assert(s.push(x)[i] == y);
        }
    }
    assert(s.push(x).to_set() =~= s.to_set().insert(x));
}

/// The domain of the denoted map holds exactly the keys of the entries.
pub proof fn lemma_entries_map_dom(s: Seq<(Seq<char>, usize)>)
    ensures
        entries_map(s).dom() == keys_of(s).to_set(),
    decreases s.len(),
{
    if s.len() == 0 {
        assert(keys_of(s) =~= Seq::<Seq<char>>::empty());
        assert(entries_map(s).dom() =~= keys_of(s).to_set());
    } else {
        lemma_entries_map_dom(s.drop_last());
        assert(keys_of(s.drop_last()) =~= keys_of(s).drop_last());
        lemma_push_to_set(keys_of(s).drop_last(), s.last().0);
        assert(keys_of(s).drop_last().push(s.last().0) =~= keys_of(s));
        assert(entries_map(s).dom() =~= keys_of(s).to_set());
    }
}

/// With duplicate-free keys, the denoted map sends each entry's key to
/// that entry's count.
pub proof fn lemma_entries_map_at(s: Seq<(Seq<char>, usize)>, i: int)
    requires
        keys_of(s).no_duplicates(),
        0 <= i < s.len(),
    ensures
        entries_map(s).contains_key(s[i].0),
        entries_map(s)[s[i].0] == s[i].1 as nat,
    decreases s.len(),
{
    if i == s.len() - 1 {
    } else {
        assert(keys_of(s.drop_last()) =~= keys_of(s).drop_last());
        lemma_entries_map_at(s.drop_last(), i);
        assert(keys_of(s)[i] != keys_of(s)[s.len() - 1]);
    }
}

/// Replacing the count of one entry replaces that key's value in the map.
proof fn lemma_entries_map_update(s: Seq<(Seq<char>, usize)>, i: int, v: usize)
    requires
        keys_of(s).no_duplicates(),
        0 <= i < s.len(),
    ensures
        entries_map(s.update(i, (s[i].0, v))) == entries_map(s).insert(s[i].0, v as nat),
    decreases s.len(),
{
    let t = s.update(i, (s[i].0, v));
    if i == s.len() - 1 {
        assert(t.drop_last() =~= s.drop_last());
        assert(t.last() == (s[i].0, v));
        assert(entries_map(t) =~= entries_map(s).insert(s[i].0, v as nat));
    } else {
        assert(keys_of(s.drop_last()) =~= keys_of(s).drop_last());
        lemma_entries_map_update(s.drop_last(), i, v);
        assert(t.drop_last() =~= s.drop_last().update(i, (s[i].0, v)));
        assert(t.last() == s.last());
        assert(keys_of(s)[i] != keys_of(s)[s.len() - 1]);
        assert(entries_map(t) =~= entries_map(s).insert(s[i].0, v as nat));
    }
}

impl View for FrequencyModel {
    type V = Map<Seq<char>, nat>;

    open spec fn view(&self) -> Map<Seq<char>, nat> {
        entries_map(self.entries.deep_view())
    }
}

impl FrequencyModel {
    /// The stored entries, as they stand.
    pub open spec fn entries_view(&self) -> Seq<(Seq<char>, usize)> {
        self.entries.deep_view()
    }

    /// Keys are unique and every stored count is positive.
    pub open spec fn wf(&self) -> bool {
        &&& keys_of(self.entries_view()).no_duplicates()
        &&& forall|i: int|
            0 <= i < self.entries_view().len() ==> (#[trigger] self.entries_view()[i]).1 >= 1
    }

    /// The model with no known words.
    pub fn new() -> (m: FrequencyModel)
        ensures
            m.wf(),
            m@ == Map::<Seq<char>, nat>::empty(),
    {
        let m = FrequencyModel { entries: Vec::new() };
        proof {
            assert(m.entries_view() =~= Seq::<(Seq<char>, usize)>::empty());
        }
        m
    }

    /// The index of the entry for `w`, if one is stored.
    fn find(&self, w: &str) -> (r: Option<usize>)
        ensures
            match r {
                Some(i) => i < self.entries_view().len() && self.entries_view()[i as int].0
                    == w@,
                None => !keys_of(self.entries_view()).contains(w@),
            },
    {
        let n = self.entries.len();
        let mut i: usize = 0;
        while i < n
            invariant
                i <= n,
                n == self.entries.len(),
                forall|j: int| 0 <= j < i ==> self.entries_view()[j].0 != w@,
            decreases n - i,
        {
            if str_eq(self.entries[i].0.as_str(), w) {
                return Some(i);
            }
            i = i + 1;
        }
        proof {
            assert forall|j: int| 0 <= j < n implies keys_of(self.entries_view())[j] != w@ by {
                assert(self.entries_view()[j].0 != w@);
            }
        }
        None
    }

    /// Whether `w` is a known word.
    pub fn contains(&self, w: &str) -> (b: bool)
        ensures
            b == self@.contains_key(w@),
    {
        proof {
            lemma_entries_map_dom(self.entries_view());
        }
        match self.find(w) {
            Some(i) => {
                proof {
                    assert(keys_of(self.entries_view())[i as int] == w@);
                }
                true
            },
            None => false,
        }
    }

    /// How often `w` occurred in the corpus; 0 for an unknown word.
    pub fn count(&self, w: &str) -> (n: usize)
        requires
            self.wf(),
        ensures
            self@.contains_key(w@) ==> n as nat == self@[w@],
            !self@.contains_key(w@) ==> n == 0,
    {
        proof {
            lemma_entries_map_dom(self.entries_view());
        }
        match self.find(w) {
            Some(i) => {
                proof {
                    lemma_entries_map_at(self.entries_view(), i as int);
                }
                self.entries[i].1
            },
            None => 0,
        }
    }

    /// How many distinct words are known.
    pub fn len(&self) -> (n: usize)
        requires
            self.wf(),
        ensures
            n == self@.dom().len(),
    {
        proof {
            lemma_entries_map_dom(self.entries_view());
            keys_of(self.entries_view()).unique_seq_to_set();
        }
        self.entries.len()
    }
}

/// Two corpora that hold the same words the same number of times train to
/// the same model, whatever order the words come in.
pub proof fn lemma_train_order_independent(t1: Seq<Seq<char>>, t2: Seq<Seq<char>>)
    requires
        t1.to_multiset() == t2.to_multiset(),
    ensures
        word_frequencies(t1) == word_frequencies(t2),
{
    assert(word_frequencies(t1) =~= word_frequencies(t2));
}

/// Builds the frequency model of a training corpus: each distinct word of
/// `corpus` maps to the number of times it occurs there, and no other word
/// is known. The order of the corpus does not affect the result.
pub fn train(corpus: Vec<String>) -> (m: FrequencyModel)
    ensures
        m.wf(),
        m@ == word_frequencies(corpus.deep_view()),
{
    let mut m = FrequencyModel { entries: Vec::new() };
    proof {
        assert(m.entries_view() =~= Seq::<(Seq<char>, usize)>::empty());
        assert(corpus.deep_view().subrange(0, 0) =~= Seq::<Seq<char>>::empty());
        assert(m@ =~= word_frequencies(corpus.deep_view().subrange(0, 0)));
    }
    let n = corpus.len();
    let mut idx: usize = 0;
    while idx < n
        invariant
            idx <= n,
            n == corpus.len(),
            m.wf(),
            m@ == word_frequencies(corpus.deep_view().subrange(0, idx as int)),
        decreases n - idx,
    {
        let ghost s = m.entries_view();
        let ghost prefix = corpus.deep_view().subrange(0, idx as int);
        let ghost longer = corpus.deep_view().subrange(0, idx + 1);
        proof {
            assert(longer.drop_last() =~= prefix);
            assert(longer =~= prefix.push(corpus.deep_view()[idx as int]));
            lemma_entries_map_dom(s);
        }
        let w = &corpus[idx];
        proof {
            assert(w@ == corpus.deep_view()[idx as int]);
        }
        match m.find(w.as_str()) {
            Some(i) => {
                let c = m.entries[i].1;
                proof {
                    lemma_entries_map_at(s, i as int);
                    assert(keys_of(s)[i as int] == w@);
                    assert(m@.contains_key(w@));
                    assert(c as nat == prefix.to_multiset().count(w@));
                    assert(prefix.to_multiset().count(w@) <= prefix.to_multiset().len());
                    assert(c < n);
                    lemma_entries_map_update(s, i as int, (c + 1) as usize);
                }
                m.entries[i].1 = c + 1;
                proof {
                    assert(m.entries_view() =~= s.update(i as int, (s[i as int].0, (c
                        + 1) as usize)));
                    assert(keys_of(m.entries_view()) =~= keys_of(s));
                    assert(m@ == entries_map(s).insert(w@, (c + 1) as nat));
                    assert(m@ =~= word_frequencies(longer));
                }
            },
            None => {
                proof {
                    assert(!m@.contains_key(w@));
                    assert(prefix.to_multiset().count(w@) == 0);
                }
                m.entries.push((w.clone(), 1));
                proof {
                    assert(m.entries_view() =~= s.push((w@, 1)));
                    assert(m.entries_view().drop_last() =~= s);
                    assert(keys_of(m.entries_view()) =~= keys_of(s).push(w@));
                    assert(keys_of(m.entries_view()).no_duplicates());
                    assert(m@ == entries_map(s).insert(w@, 1));
                    assert(m@ =~= word_frequencies(longer));
                }
            },
        }
        idx = idx + 1;
    }
    proof {
        assert(corpus.deep_view().subrange(0, n as int) =~= corpus.deep_view());
    }
    m
}

} // verus!
