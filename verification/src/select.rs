//! The candidate selector: filtering candidate words against the
//! frequency model at edit distance one and two.

use vstd::prelude::*;
use crate::edits::{edits1, edits1_of};
use crate::model::{lemma_push_to_set, FrequencyModel};
use crate::word_set::WordSet;

verus! {

/// All known words at exactly one elementary edit from a member of
/// `first`: distance-2 reachability, restricted to the keys of `dom`.
pub open spec fn known_edits2_of(first: Set<Seq<char>>, dom: Set<Seq<char>>) -> Set<Seq<char>> {
    Set::new(
        |s: Seq<char>|
            dom.contains(s) && exists|e1: Seq<char>|
                first.contains(e1) && #[trigger] edits1_of(e1).contains(s),
    )
}

/// The members of `words` that the model knows, when there are any;
/// `None` when there is none.
pub fn known(words: &WordSet, nwords: &FrequencyModel) -> (r: Option<WordSet>)
    ensures
        match r {
            Some(k) => k.wf() && k@ == words@.intersect(nwords@.dom()) && k@ != Set::<
                Seq<char>,
            >::empty(),
            None => words@.intersect(nwords@.dom()) == Set::<Seq<char>>::empty(),
        },
{
    let mut known_set = WordSet::new();
    let n = words.words.len();
    let mut i: usize = 0;
    proof {
        assert(known_set@ =~= words.seq_view().subrange(0, 0).to_set().intersect(nwords@.dom()));
    }
    while i < n
        invariant
            i <= n,
            n == words.words.len(),
            known_set.wf(),
            known_set@ == words.seq_view().subrange(0, i as int).to_set().intersect(nwords@.dom()),
        decreases n - i,
    {
        let w = &words.words[i];
        proof {
            assert(w@ == words.seq_view()[i as int]);
        }
        if nwords.contains(w.as_str()) {
            known_set.insert(w.clone());
        }
        proof {
            assert(words.seq_view().subrange(0, i + 1) =~= words.seq_view().subrange(
                0,
                i as int,
            ).push(w@));
            lemma_push_to_set(words.seq_view().subrange(0, i as int), w@);
            assert(known_set@ =~= words.seq_view().subrange(0, i + 1).to_set().intersect(
                nwords@.dom(),
            ));
        }
        i = i + 1;
    }
    proof {
        assert(words.seq_view().subrange(0, n as int) =~= words.seq_view());
    }
    if known_set.words.len() == 0 {
        proof {
            assert(known_set.seq_view().len() == 0);
            assert(known_set@ =~= Set::<Seq<char>>::empty());
        }
        None
    } else {
        proof {
            assert(known_set@.contains(known_set.seq_view()[0]));
        }
        Some(known_set)
    }
}

/// Every known word at one edit from a member of `first_edits`, when
/// there is any; `None` when there is none.
pub fn known_edits2(first_edits: &WordSet, nwords: &FrequencyModel) -> (r: Option<WordSet>)
    ensures
        match r {
            Some(k) => k.wf() && k@ == known_edits2_of(first_edits@, nwords@.dom()) && k@ != Set::<
                Seq<char>,
            >::empty(),
            None => known_edits2_of(first_edits@, nwords@.dom()) == Set::<Seq<char>>::empty(),
        },
{
    let mut acc = WordSet::new();
    let n = first_edits.words.len();
    let mut i: usize = 0;
    proof {
        assert(acc@ =~= known_edits2_of(
            first_edits.seq_view().subrange(0, 0).to_set(),
            nwords@.dom(),
        ));
    }
    while i < n
        invariant
            i <= n,
            n == first_edits.words.len(),
            acc.wf(),
            acc@ == known_edits2_of(
                first_edits.seq_view().subrange(0, i as int).to_set(),
                nwords@.dom(),
            ),
        decreases n - i,
    {
        let ghost prefix = first_edits.seq_view().subrange(0, i as int).to_set();
        let e1 = &first_edits.words[i];
        proof {
            assert(e1@ == first_edits.seq_view()[i as int]);
        }
        let second = edits1(e1.as_str());
        let m = second.words.len();
        let mut k: usize = 0;
        proof {
            assert(second.seq_view().subrange(0, 0).to_set().intersect(nwords@.dom()) =~= Set::<
                Seq<char>,
            >::empty());
            assert(acc@ =~= known_edits2_of(prefix, nwords@.dom()).union(
                second.seq_view().subrange(0, 0).to_set().intersect(nwords@.dom()),
            ));
        }
        while k < m
            invariant
                k <= m,
                m == second.words.len(),
                acc.wf(),
                acc@ == known_edits2_of(prefix, nwords@.dom()).union(
                    second.seq_view().subrange(0, k as int).to_set().intersect(nwords@.dom()),
                ),
            decreases m - k,
        {
            let e2 = &second.words[k];
            proof {
                assert(e2@ == second.seq_view()[k as int]);
            }
            if nwords.contains(e2.as_str()) {
                acc.insert(e2.clone());
            }
            proof {
                assert(second.seq_view().subrange(0, k + 1) =~= second.seq_view().subrange(
                    0,
                    k as int,
                ).push(e2@));
                lemma_push_to_set(second.seq_view().subrange(0, k as int), e2@);
                assert(acc@ =~= known_edits2_of(prefix, nwords@.dom()).union(
                    second.seq_view().subrange(0, k + 1).to_set().intersect(nwords@.dom()),
                ));
            }
            k = k + 1;
        }
        proof {
            assert(second.seq_view().subrange(0, m as int) =~= second.seq_view());
            assert(second@ == edits1_of(e1@));
            assert(first_edits.seq_view().subrange(0, i + 1) =~= first_edits.seq_view().subrange(
                0,
                i as int,
            ).push(e1@));
            lemma_push_to_set(first_edits.seq_view().subrange(0, i as int), e1@);
            let bigger = first_edits.seq_view().subrange(0, i + 1).to_set();
            assert forall|s: Seq<char>| #[trigger] known_edits2_of(bigger, nwords@.dom()).contains(
                s,
            ) implies acc@.contains(s) by {
                let e = choose|e: Seq<char>| bigger.contains(e) && #[trigger] edits1_of(e).contains(
                    s,
                );
                if e == e1@ {
                    assert(edits1_of(e1@).intersect(nwords@.dom()).contains(s));
                } else {
                    assert(prefix.contains(e));
                    assert(known_edits2_of(prefix, nwords@.dom()).contains(s));
                }
            }
            assert forall|s: Seq<char>| #[trigger] acc@.contains(s) implies known_edits2_of(
                bigger,
                nwords@.dom(),
            ).contains(s) by {
                if known_edits2_of(prefix, nwords@.dom()).contains(s) {
                    let e = choose|e: Seq<char>|
                        prefix.contains(e) && #[trigger] edits1_of(e).contains(s);
                    assert(bigger.contains(e));
                } else {
                    assert(edits1_of(e1@).contains(s));
                    assert(bigger.contains(e1@));
                }
            }
            assert(acc@ =~= known_edits2_of(bigger, nwords@.dom()));
        }
        i = i + 1;
    }
    proof {
        assert(first_edits.seq_view().subrange(0, n as int) =~= first_edits.seq_view());
    }
    if acc.words.len() == 0 {
        proof {
            assert(acc.seq_view().len() == 0);
            assert(acc@ =~= Set::<Seq<char>>::empty());
        }
        None
    } else {
        proof {
            assert(acc@.contains(acc.seq_view()[0]));
        }
        Some(acc)
    }
}

} // verus!
