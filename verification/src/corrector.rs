//! The corrector: the tiered decision procedure and the ranking rule.

use vstd::prelude::*;
use crate::edits::{edits1, edits1_of};
use crate::model::{lemma_push_to_set, FrequencyModel};
use crate::select::{known, known_edits2, known_edits2_of};
use crate::strutil::{
    lemma_lex_lt_antisymmetric, lemma_lex_lt_asymmetric, lemma_lex_lt_transitive, lex_lt,
    str_lex_lt,
};
use crate::word_set::WordSet;

verus! {

/// The sentinel that signals that no correction was found. It is a dash,
/// which no word of lowercase letters can equal.
pub open spec fn no_correction() -> Seq<char> {
    seq!['-']
}

/// `s` is the best pick from `cands` under `m`: a known candidate of
/// highest count, the lexicographically least among equally counted ones.
pub open spec fn is_best(s: Seq<char>, cands: Set<Seq<char>>, m: Map<Seq<char>, nat>) -> bool {
    &&& cands.contains(s)
    &&& m.dom().contains(s)
    &&& forall|d: Seq<char>|
        #[trigger] cands.contains(d) && m.dom().contains(d) && d != s ==> m[d] < m[s] || (m[d]
            == m[s] && lex_lt(s, d))
}

/// The candidate set of the first tier that yields one: the word itself
/// when known, else the known words at one edit, else at two edits, else
/// nothing.
pub open spec fn winning_candidates(w: Seq<char>, m: Map<Seq<char>, nat>) -> Set<Seq<char>> {
    if m.dom().contains(w) {
        set![w]
    } else if edits1_of(w).intersect(m.dom()) != Set::<Seq<char>>::empty() {
        edits1_of(w).intersect(m.dom())
    } else if known_edits2_of(edits1_of(w), m.dom()) != Set::<Seq<char>>::empty() {
        known_edits2_of(edits1_of(w), m.dom())
    } else {
        Set::<Seq<char>>::empty()
    }
}

/// What `correct` returns: the best pick of the winning tier, or the
/// no-correction sentinel when every tier is empty.
pub open spec fn correct_post(w: Seq<char>, m: Map<Seq<char>, nat>, r: Seq<char>) -> bool {
    if winning_candidates(w, m) == Set::<Seq<char>>::empty() {
        r == no_correction()
    } else {
        is_best(r, winning_candidates(w, m), m)
    }
}

/// The candidate with the highest frequency, the lexicographically least
/// among equally frequent ones; the no-correction sentinel when the model
/// knows no candidate.
pub fn best_guess(candidates: &WordSet, nwords: &FrequencyModel) -> (r: String)
    requires
        nwords.wf(),
    ensures
        candidates@.intersect(nwords@.dom()) == Set::<Seq<char>>::empty() ==> r@
            == no_correction(),
        candidates@.intersect(nwords@.dom()) != Set::<Seq<char>>::empty() ==> is_best(
            r@,
            candidates@,
            nwords@,
        ),
{
    let ghost sv = candidates.seq_view();
    let ghost m = nwords@;
    let n = candidates.words.len();
    let mut best: Option<usize> = None;
    let mut best_count: usize = 0;
    let mut i: usize = 0;
    proof {
        assert(sv.subrange(0, 0).to_set().intersect(m.dom()) =~= Set::<Seq<char>>::empty());
    }
    while i < n
        invariant
            i <= n,
            n == candidates.words.len(),
            sv == candidates.seq_view(),
            m == nwords@,
            nwords.wf(),
            best is None ==> sv.subrange(0, i as int).to_set().intersect(m.dom()) == Set::<
                Seq<char>,
            >::empty(),
            best is Some ==> {
                let bi = best->0;
                &&& bi < i
                &&& m.dom().contains(sv[bi as int])
                &&& best_count as nat == m[sv[bi as int]]
                &&& forall|d: Seq<char>|
                    #[trigger] sv.subrange(0, i as int).to_set().contains(d) && m.dom().contains(d)
                        && d != sv[bi as int] ==> m[d] < m[sv[bi as int]] || (m[d] == m[sv[
                        bi as int]] && lex_lt(sv[bi as int], d))
            },
        decreases n - i,
    {
        let ghost prefix = sv.subrange(0, i as int).to_set();
        let c = &candidates.words[i];
        proof {
            assert(c@ == sv[i as int]);
            assert(sv.subrange(0, i + 1) =~= sv.subrange(0, i as int).push(c@));
            lemma_push_to_set(sv.subrange(0, i as int), c@);
        }
        let ghost bigger = sv.subrange(0, i + 1).to_set();
        if nwords.contains(c.as_str()) {
            let cnt = nwords.count(c.as_str());
            match best {
                None => {
                    best = Some(i);
                    best_count = cnt;
                    proof {
                        assert forall|d: Seq<char>|
                            #[trigger] bigger.contains(d) && m.dom().contains(d) && d
                                != sv[i as int] implies m[d] < m[sv[i as int]] || (m[d] == m[sv[
                            i as int]] && lex_lt(sv[i as int], d)) by {
                            assert(prefix.contains(d));
                            assert(prefix.intersect(m.dom()).contains(d));
                        }
                    }
                },
                Some(bi) => {
                    let ghost b = sv[bi as int];
                    if cnt > best_count || (cnt == best_count && str_lex_lt(
                        c.as_str(),
                        candidates.words[bi].as_str(),
                    )) {
                        best = Some(i);
                        best_count = cnt;
                        proof {
                            assert forall|d: Seq<char>|
                                #[trigger] bigger.contains(d) && m.dom().contains(d) && d
                                    != sv[i as int] implies m[d] < m[sv[i as int]] || (m[d] == m[sv[
                                i as int]] && lex_lt(sv[i as int], d)) by {
                                assert(prefix.contains(d));
                                if d != b {
                                    if m[d] == m[b] && m[b] == m[c@] && lex_lt(b, d) && lex_lt(
                                        c@,
                                        b,
                                    ) {
                                        lemma_lex_lt_transitive(c@, b, d);
                                    }
                                }
                            }
                        }
                    } else {
                        proof {
                            assert forall|d: Seq<char>|
                                #[trigger] bigger.contains(d) && m.dom().contains(d) && d != b
                                    implies m[d] < m[b] || (m[d] == m[b] && lex_lt(b, d)) by {
                                if d == c@ {
                                    if cnt == best_count {
                                        if !lex_lt(b, c@) {
                                            lemma_lex_lt_antisymmetric(b, c@);
                                            assert(b == c@);
                                        }
                                    }
                                } else {
                                    assert(prefix.contains(d));
                                }
                            }
                        }
                    }
                },
            }
        } else {
            proof {
                if best is None {
                    assert(bigger.intersect(m.dom()) =~= Set::<Seq<char>>::empty());
                } else {
                    let bi = best->0;
                    assert forall|d: Seq<char>|
                        #[trigger] bigger.contains(d) && m.dom().contains(d) && d != sv[bi as int]
                            implies m[d] < m[sv[bi as int]] || (m[d] == m[sv[bi as int]] && lex_lt(
                        sv[bi as int],
                        d,
                    )) by {
                        assert(d != c@);
                        assert(prefix.contains(d));
                    }
                }
            }
        }
        i = i + 1;
    }
    proof {
        assert(sv.subrange(0, n as int) =~= sv);
    }
    match best {
        None => {
            let r = String::from_str("-");
            proof {
                reveal_strlit("-");
                assert(r@ =~= no_correction());
            }
            r
        },
        Some(bi) => {
            let r = candidates.words[bi].clone();
            proof {
                assert(r@ == sv[bi as int]);
                assert(candidates@.contains(r@));
                assert(candidates@.intersect(m.dom()).contains(r@));
                assert(is_best(r@, candidates@, m));
            }
            r
        },
    }
}

/// Corrects `word` against the model: the word itself when known; else
/// the best known word at one elementary edit; else the best at two; else
/// the no-correction sentinel.
pub fn correct(word: &str, nwords: &FrequencyModel) -> (r: String)
    requires
        nwords.wf(),
    ensures
        correct_post(word@, nwords@, r@),
{
    let ghost m = nwords@;
    let mut word_set = WordSet::new();
    word_set.insert(String::from_str(word));
    proof {
        assert(word_set@ =~= set![word@]);
    }

    match known(&word_set, nwords) {
        Some(candidates) => {
            proof {
                if !m.dom().contains(word@) {
                    assert(candidates@ =~= Set::<Seq<char>>::empty());
                }
                assert(m.dom().contains(word@));
                assert(candidates@ =~= set![word@]);
                assert(candidates@.intersect(m.dom()) =~= candidates@);
            }
            let r = best_guess(&candidates, nwords);
            proof {
                assert(winning_candidates(word@, m) == candidates@);
            }
            return r;
        },
        None => {
            proof {
                if m.dom().contains(word@) {
                    assert(word_set@.intersect(m.dom()).contains(word@));
                }
                assert(!m.dom().contains(word@));
            }
        },
    }

    let first_edits = edits1(word);

    match known(&first_edits, nwords) {
        Some(candidates) => {
            proof {
                assert(candidates@ == edits1_of(word@).intersect(m.dom()));
                assert(candidates@.intersect(m.dom()) =~= candidates@);
                assert(winning_candidates(word@, m) == candidates@);
            }
            let r = best_guess(&candidates, nwords);
            return r;
        },
        None => {},
    }

    match known_edits2(&first_edits, nwords) {
        Some(candidates) => {
            proof {
                assert(candidates@ == known_edits2_of(edits1_of(word@), m.dom()));
                assert forall|s: Seq<char>| #[trigger] candidates@.contains(s)
                    implies candidates@.intersect(m.dom()).contains(s) by {
                    assert(m.dom().contains(s));
                }
                assert(candidates@.intersect(m.dom()) =~= candidates@);
                assert(winning_candidates(word@, m) == candidates@);
            }
            let r = best_guess(&candidates, nwords);
            return r;
        },
        None => {},
    }

    let r = best_guess(&word_set, nwords);
    proof {
        assert(word_set@.intersect(m.dom()) =~= Set::<Seq<char>>::empty());
        assert(winning_candidates(word@, m) == Set::<Seq<char>>::empty());
    }
    r
}

/// A word the model knows is always returned unchanged.
pub proof fn lemma_correct_known_word_unchanged(w: Seq<char>, m: Map<Seq<char>, nat>, r: Seq<char>)
    requires
        m.dom().contains(w),
        correct_post(w, m, r),
    ensures
        r == w,
{
    let win = winning_candidates(w, m);
    assert(win == set![w]);
    assert(win.contains(w));
    assert(win != Set::<Seq<char>>::empty());
    assert(win.contains(r));
}

/// The contract of `correct` admits exactly one result per input: calls
/// on identical arguments yield identical results.
pub proof fn lemma_correct_deterministic(
    w: Seq<char>,
    m: Map<Seq<char>, nat>,
    r1: Seq<char>,
    r2: Seq<char>,
)
    requires
        correct_post(w, m, r1),
        correct_post(w, m, r2),
    ensures
        r1 == r2,
{
    let win = winning_candidates(w, m);
    if win != Set::<Seq<char>>::empty() && r1 != r2 {
        assert(m[r1] < m[r2] || (m[r1] == m[r2] && lex_lt(r2, r1)));
        assert(m[r2] < m[r1] || (m[r2] == m[r1] && lex_lt(r1, r2)));
        assert(lex_lt(r1, r2) && lex_lt(r2, r1));
        lemma_lex_lt_asymmetric(r1, r2);
    }
}

} // verus!
