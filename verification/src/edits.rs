//! The edit generator: all strings reachable from a word by one
//! elementary edit (deletion, adjacent transposition, replacement, or
//! insertion of a lowercase letter).

use vstd::prelude::*;
use crate::alphabet::{alphabet, is_lowercase_letter, letters, lemma_letters_complete};
use crate::word_set::WordSet;

verus! {

/// `w` with the character at `i` removed.
pub open spec fn delete_at(w: Seq<char>, i: int) -> Seq<char> {
    w.subrange(0, i) + w.subrange(i + 1, w.len() as int)
}

/// `w` with the characters at `i` and `i + 1` swapped.
pub open spec fn transpose_at(w: Seq<char>, i: int) -> Seq<char> {
    w.subrange(0, i) + seq![w[i + 1], w[i]] + w.subrange(i + 2, w.len() as int)
}

/// `w` with the character at `i` replaced by `c`.
pub open spec fn replace_at(w: Seq<char>, i: int, c: char) -> Seq<char> {
    w.update(i, c)
}

/// `w` with `c` inserted before position `i`.
pub open spec fn insert_at(w: Seq<char>, i: int, c: char) -> Seq<char> {
    w.subrange(0, i) + seq![c] + w.subrange(i, w.len() as int)
}

/// All strings obtained from `w` by one deletion.
pub open spec fn deletions(w: Seq<char>) -> Set<Seq<char>> {
    Set::new(|s: Seq<char>| exists|i: int| 0 <= i < w.len() && s == delete_at(w, i))
}

/// All strings obtained from `w` by one adjacent transposition.
pub open spec fn transpositions(w: Seq<char>) -> Set<Seq<char>> {
    Set::new(|s: Seq<char>| exists|i: int| 0 <= i && i + 1 < w.len() && s == transpose_at(w, i))
}

/// All strings obtained from `w` by replacing one character with a
/// lowercase letter.
pub open spec fn replacements(w: Seq<char>) -> Set<Seq<char>> {
    Set::new(
        |s: Seq<char>|
            exists|i: int, c: char|
                0 <= i < w.len() && is_lowercase_letter(c) && s == replace_at(w, i, c),
    )
}

/// All strings obtained from `w` by inserting one lowercase letter.
pub open spec fn insertions(w: Seq<char>) -> Set<Seq<char>> {
    Set::new(
        |s: Seq<char>|
            exists|i: int, c: char|
                0 <= i <= w.len() && is_lowercase_letter(c) && s == insert_at(w, i, c),
    )
}

/// All strings at exactly one elementary edit from `w`.
pub open spec fn edits1_of(w: Seq<char>) -> Set<Seq<char>> {
    deletions(w).union(transpositions(w)).union(replacements(w)).union(insertions(w))
}

/// `sp` is the full split list of `w`: one (prefix, suffix) pair for each
/// cut position from 0 to the length of `w`, in order.
pub open spec fn is_splits_of(sp: Seq<(Seq<char>, Seq<char>)>, w: Seq<char>) -> bool {
    &&& sp.len() == w.len() + 1
    &&& forall|i: int|
        0 <= i <= w.len() ==> (#[trigger] sp[i]).0 == w.subrange(0, i) && sp[i].1 == w.subrange(
            i,
            w.len() as int,
        )
}

/// The deletion a split yields: the suffix loses its first character.
pub open spec fn del_of(p: (Seq<char>, Seq<char>)) -> Seq<char> {
    p.0 + p.1.drop_first()
}

/// The transposition a split yields: the suffix's first two characters
/// trade places.
pub open spec fn trans_of(p: (Seq<char>, Seq<char>)) -> Seq<char> {
    p.0 + seq![p.1[1], p.1[0]] + p.1.subrange(2, p.1.len() as int)
}

/// The replacement a split yields for letter `c`: `c` stands in for the
/// suffix's first character.
pub open spec fn repl_of(p: (Seq<char>, Seq<char>), c: char) -> Seq<char> {
    p.0 + seq![c] + p.1.drop_first()
}

/// The insertion a split yields for letter `c`: `c` stands between
/// prefix and suffix.
pub open spec fn ins_of(p: (Seq<char>, Seq<char>), c: char) -> Seq<char> {
    p.0 + seq![c] + p.1
}

/// The deletions yielded by the first `n` splits of `sp`.
pub open spec fn split_deletes_upto(sp: Seq<(Seq<char>, Seq<char>)>, n: int) -> Set<Seq<char>> {
    Set::new(
        |s: Seq<char>| exists|j: int| 0 <= j < n && (#[trigger] sp[j]).1.len() > 0 && s == del_of(sp[j]),
    )
}

/// The deletions yielded by a split list.
pub open spec fn split_deletes(sp: Seq<(Seq<char>, Seq<char>)>) -> Set<Seq<char>> {
    split_deletes_upto(sp, sp.len() as int)
}

/// The full split list of `word`, by increasing cut position.
pub fn splits(word: &str) -> (r: Vec<(String, String)>)
    ensures
        is_splits_of(r.deep_view(), word@),
{
    let n = word.unicode_len();
    let mut r: Vec<(String, String)> = Vec::new();
    let mut i: usize = 0;
    while i < n
        invariant
            i <= n,
            n == word@.len(),
            r.deep_view().len() == i as int,
            forall|j: int|
                0 <= j < i ==> (#[trigger] r.deep_view()[j]).0 == word@.subrange(0, j)
                    && r.deep_view()[j].1 == word@.subrange(j, word@.len() as int),
        decreases n - i,
    {
        let ghost dv = r.deep_view();
        let prefix = word.substring_char(0, i).to_owned();
        let suffix = word.substring_char(i, n).to_owned();
        r.push((prefix, suffix));
        proof {
            assert(r.deep_view() =~= dv.push(
                (word@.subrange(0, i as int), word@.subrange(i as int, n as int)),
            ));
        }
        i = i + 1;
    }
    let ghost dv = r.deep_view();
    let whole = word.substring_char(0, n).to_owned();
    let empty = word.substring_char(n, n).to_owned();
    r.push((whole, empty));
    proof {
        assert(r.deep_view() =~= dv.push(
            (word@.subrange(0, n as int), word@.subrange(n as int, n as int)),
        ));
        assert(word@.subrange(0, n as int) =~= word@);
        assert(r.deep_view().len() == word@.len() + 1);
    }
    r
}

/// For every split whose suffix is non-empty, the prefix followed by the
/// suffix without its first character.
pub fn deletes(splits: &Vec<(String, String)>) -> (r: WordSet)
    ensures
        r.wf(),
        r@ == split_deletes(splits.deep_view()),
{
    let ghost sp = splits.deep_view();
    let mut r = WordSet::new();
    let n = splits.len();
    let mut j: usize = 0;
    proof {
        assert(r@ =~= split_deletes_upto(sp, 0));
    }
    while j < n
        invariant
            j <= n,
            n == splits.len(),
            sp == splits.deep_view(),
            r.wf(),
            r@ == split_deletes_upto(sp, j as int),
        decreases n - j,
    {
        let a = &splits[j].0;
        let b = &splits[j].1;
        proof {
            assert(a@ == sp[j as int].0 && b@ == sp[j as int].1);
        }
        let blen = b.as_str().unicode_len();
        if blen > 0 {
            let tail = b.as_str().substring_char(1, blen);
            let cand = a.clone().concat(tail);
            proof {
                assert(cand@ =~= del_of(sp[j as int]));
            }
            r.insert(cand);
            proof {
                assert forall|s: Seq<char>| #[trigger] split_deletes_upto(sp, j + 1).contains(s)
                    implies split_deletes_upto(sp, j as int).insert(del_of(sp[j as int])).contains(
                    s,
                ) by {
                    let j2 = choose|j2: int| 0 <= j2 < j + 1 && sp[j2].1.len() > 0 && s == del_of(
                        sp[j2],
                    );
                    if j2 < j {
                        assert(split_deletes_upto(sp, j as int).contains(s));
                    }
                }
                assert(split_deletes_upto(sp, j + 1) =~= split_deletes_upto(sp, j as int).insert(
                    del_of(sp[j as int]),
                ));
            }
        } else {
            proof {
                assert forall|s: Seq<char>| #[trigger] split_deletes_upto(sp, j + 1).contains(s)
                    implies split_deletes_upto(sp, j as int).contains(s) by {
                    let j2 = choose|j2: int| 0 <= j2 < j + 1 && sp[j2].1.len() > 0 && s == del_of(
                        sp[j2],
                    );
                    assert(j2 < j);
                }
                assert(split_deletes_upto(sp, j + 1) =~= split_deletes_upto(sp, j as int));
            }
        }
        j = j + 1;
    }
    r
}

/// The transpositions yielded by the first `n` splits of `sp`.
pub open spec fn split_transposes_upto(sp: Seq<(Seq<char>, Seq<char>)>, n: int) -> Set<Seq<char>> {
    Set::new(
        |s: Seq<char>|
            exists|j: int| 0 <= j < n && (#[trigger] sp[j]).1.len() > 1 && s == trans_of(sp[j]),
    )
}

/// The transpositions yielded by a split list.
pub open spec fn split_transposes(sp: Seq<(Seq<char>, Seq<char>)>) -> Set<Seq<char>> {
    split_transposes_upto(sp, sp.len() as int)
}

/// For every split whose suffix has two or more characters, the word with
/// the suffix's first two characters swapped.
pub fn transposes(splits: &Vec<(String, String)>) -> (r: WordSet)
    ensures
        r.wf(),
        r@ == split_transposes(splits.deep_view()),
{
    let ghost sp = splits.deep_view();
    let mut r = WordSet::new();
    let n = splits.len();
    let mut j: usize = 0;
    proof {
        assert(r@ =~= split_transposes_upto(sp, 0));
    }
    while j < n
        invariant
            j <= n,
            n == splits.len(),
            sp == splits.deep_view(),
            r.wf(),
            r@ == split_transposes_upto(sp, j as int),
        decreases n - j,
    {
        let a = &splits[j].0;
        let b = &splits[j].1;
        proof {
            assert(a@ == sp[j as int].0 && b@ == sp[j as int].1);
        }
        let blen = b.as_str().unicode_len();
        if blen > 1 {
            let second = b.as_str().substring_char(1, 2);
            let first = b.as_str().substring_char(0, 1);
            let rest = b.as_str().substring_char(2, blen);
            let cand = a.clone().concat(second).concat(first).concat(rest);
            proof {
                assert(b@.subrange(1, 2) =~= seq![b@[1]]);
                assert(b@.subrange(0, 1) =~= seq![b@[0]]);
                assert(cand@ =~= trans_of(sp[j as int]));
            }
            r.insert(cand);
            proof {
                assert forall|s: Seq<char>| #[trigger] split_transposes_upto(sp, j + 1).contains(s)
                    implies split_transposes_upto(sp, j as int).insert(
                    trans_of(sp[j as int]),
                ).contains(s) by {
                    let j2 = choose|j2: int|
                        0 <= j2 < j + 1 && sp[j2].1.len() > 1 && s == trans_of(sp[j2]);
                    if j2 < j {
                        assert(split_transposes_upto(sp, j as int).contains(s));
                    }
                }
                assert(split_transposes_upto(sp, j + 1) =~= split_transposes_upto(
                    sp,
                    j as int,
                ).insert(trans_of(sp[j as int])));
            }
        } else {
            proof {
                assert forall|s: Seq<char>| #[trigger] split_transposes_upto(sp, j + 1).contains(s)
                    implies split_transposes_upto(sp, j as int).contains(s) by {
                    let j2 = choose|j2: int|
                        0 <= j2 < j + 1 && sp[j2].1.len() > 1 && s == trans_of(sp[j2]);
                    assert(j2 < j);
                }
                assert(split_transposes_upto(sp, j + 1) =~= split_transposes_upto(sp, j as int));
            }
        }
        j = j + 1;
    }
    r
}

/// On the full split list of a word, `transposes` yields exactly the
/// transposition edits of that word.
pub proof fn lemma_split_transposes(sp: Seq<(Seq<char>, Seq<char>)>, w: Seq<char>)
    requires
        is_splits_of(sp, w),
    ensures
        split_transposes(sp) == transpositions(w),
{
    assert forall|s: Seq<char>| #[trigger] split_transposes(sp).contains(s) implies transpositions(
        w,
    ).contains(s) by {
        let j = choose|j: int| 0 <= j < sp.len() && sp[j].1.len() > 1 && s == trans_of(sp[j]);
        assert(sp[j].1 == w.subrange(j, w.len() as int));
        assert(j + 1 < w.len());
        assert(sp[j].1[0] == w[j] && sp[j].1[1] == w[j + 1]);
        assert(trans_of(sp[j]) =~= transpose_at(w, j));
    }
    assert forall|s: Seq<char>| #[trigger] transpositions(w).contains(s) implies split_transposes(
        sp,
    ).contains(s) by {
        let i = choose|i: int| 0 <= i && i + 1 < w.len() && s == transpose_at(w, i);
        assert(sp[i].1 == w.subrange(i, w.len() as int));
        assert(sp[i].1.len() > 1);
        assert(sp[i].1[0] == w[i] && sp[i].1[1] == w[i + 1]);
        assert(trans_of(sp[i]) =~= transpose_at(w, i));
    }
    assert(split_transposes(sp) =~= transpositions(w));
}

/// The replacements yielded by the first `n` splits of `sp`.
pub open spec fn split_replaces_upto(sp: Seq<(Seq<char>, Seq<char>)>, n: int) -> Set<Seq<char>> {
    Set::new(
        |s: Seq<char>|
            exists|j: int, c: char|
                0 <= j < n && sp[j].1.len() > 0 && is_lowercase_letter(c) && s == #[trigger] repl_of(
                    sp[j],
                    c,
                ),
    )
}

/// The replacements yielded by a split list.
pub open spec fn split_replaces(sp: Seq<(Seq<char>, Seq<char>)>) -> Set<Seq<char>> {
    split_replaces_upto(sp, sp.len() as int)
}

/// The replacements one split yields with the first `k` letters.
pub open spec fn repl_row_upto(p: (Seq<char>, Seq<char>), k: int) -> Set<Seq<char>> {
    Set::new(|s: Seq<char>| exists|t: int| 0 <= t < k && s == repl_of(p, letters()[t]))
}

/// The insertions yielded by the first `n` splits of `sp`.
pub open spec fn split_inserts_upto(sp: Seq<(Seq<char>, Seq<char>)>, n: int) -> Set<Seq<char>> {
    Set::new(
        |s: Seq<char>|
            exists|j: int, c: char|
                0 <= j < n && is_lowercase_letter(c) && s == #[trigger] ins_of(sp[j], c),
    )
}

/// The insertions yielded by a split list.
pub open spec fn split_inserts(sp: Seq<(Seq<char>, Seq<char>)>) -> Set<Seq<char>> {
    split_inserts_upto(sp, sp.len() as int)
}

/// The insertions one split yields with the first `k` letters.
pub open spec fn ins_row_upto(p: (Seq<char>, Seq<char>), k: int) -> Set<Seq<char>> {
    Set::new(|s: Seq<char>| exists|t: int| 0 <= t < k && s == ins_of(p, letters()[t]))
}

/// For every split whose suffix is non-empty and every lowercase letter,
/// the word with the suffix's first character replaced by that letter.
pub fn replaces(splits: &Vec<(String, String)>) -> (r: WordSet)
    ensures
        r.wf(),
        r@ == split_replaces(splits.deep_view()),
{
    let ghost sp = splits.deep_view();
    let az = alphabet();
    let mut r = WordSet::new();
    let n = splits.len();
    let mut j: usize = 0;
    proof {
        assert(r@ =~= split_replaces_upto(sp, 0));
    }
    while j < n
        invariant
            j <= n,
            n == splits.len(),
            sp == splits.deep_view(),
            az@ == letters(),
            r.wf(),
            r@ == split_replaces_upto(sp, j as int),
        decreases n - j,
    {
        let a = &splits[j].0;
        let b = &splits[j].1;
        proof {
            assert(a@ == sp[j as int].0 && b@ == sp[j as int].1);
        }
        let ghost p = sp[j as int];
        let blen = b.as_str().unicode_len();
        if blen > 0 {
            let tail = b.as_str().substring_char(1, blen);
            let mut t: usize = 0;
            proof {
                assert(split_replaces_upto(sp, j as int).union(repl_row_upto(p, 0)) =~= r@);
            }
            while t < 26
                invariant
                    t <= 26,
                    j < n,
                    n == splits.len(),
                    sp == splits.deep_view(),
                    az@ == letters(),
                    p == sp[j as int],
                    a@ == p.0,
                    tail@ == p.1.drop_first(),
                    p.1.len() > 0,
                    r.wf(),
                    r@ == split_replaces_upto(sp, j as int).union(repl_row_upto(p, t as int)),
                decreases 26 - t,
            {
                let mut cand = a.clone();
                crate::strutil::push_char(&mut cand, az[t]);
                let cand = cand.concat(tail);
                proof {
                    assert(cand@ =~= repl_of(p, letters()[t as int]));
                }
                r.insert(cand);
                proof {
                    assert forall|s: Seq<char>| #[trigger] repl_row_upto(p, t + 1).contains(s)
                        implies repl_row_upto(p, t as int).insert(
                        repl_of(p, letters()[t as int]),
                    ).contains(s) by {
                        let t2 = choose|t2: int| 0 <= t2 < t + 1 && s == repl_of(p, letters()[t2]);
                        if t2 < t {
                            assert(repl_row_upto(p, t as int).contains(s));
                        }
                    }
                    assert(repl_row_upto(p, t + 1) =~= repl_row_upto(p, t as int).insert(
                        repl_of(p, letters()[t as int]),
                    ));
                    assert(split_replaces_upto(sp, j as int).union(repl_row_upto(p, t + 1))
                        =~= split_replaces_upto(sp, j as int).union(
                        repl_row_upto(p, t as int),
                    ).insert(repl_of(p, letters()[t as int])));
                }
                t = t + 1;
            }
            proof {
                assert forall|s: Seq<char>| #[trigger] split_replaces_upto(sp, j + 1).contains(s)
                    implies split_replaces_upto(sp, j as int).union(repl_row_upto(p, 26)).contains(
                    s,
                ) by {
                    let (j2, c): (int, char) = choose|j2: int, c: char|
                        0 <= j2 < j + 1 && sp[j2].1.len() > 0 && is_lowercase_letter(c) && s
                            == repl_of(sp[j2], c);
                    if j2 < j {
                        assert(split_replaces_upto(sp, j as int).contains(s));
                    } else {
                        lemma_letters_complete(c);
                        let t2 = choose|t2: int| 0 <= t2 < 26 && letters()[t2] == c;
                        assert(s == repl_of(p, letters()[t2]));
                        assert(repl_row_upto(p, 26).contains(s));
                    }
                }
                assert forall|s: Seq<char>| repl_row_upto(p, 26).contains(s)
                    implies #[trigger] split_replaces_upto(sp, j + 1).contains(s) by {
                    let t2 = choose|t2: int| 0 <= t2 < 26 && s == repl_of(p, letters()[t2]);
                    assert(is_lowercase_letter(letters()[t2]));
                    assert(s == repl_of(sp[j as int], letters()[t2]));
                }
                assert(split_replaces_upto(sp, j + 1) =~= split_replaces_upto(sp, j as int).union(
                    repl_row_upto(p, 26),
                ));
            }
        } else {
            proof {
                assert forall|s: Seq<char>| #[trigger] split_replaces_upto(sp, j + 1).contains(s)
                    implies split_replaces_upto(sp, j as int).contains(s) by {
                    let (j2, c): (int, char) = choose|j2: int, c: char|
                        0 <= j2 < j + 1 && sp[j2].1.len() > 0 && is_lowercase_letter(c) && s
                            == repl_of(sp[j2], c);
                    assert(j2 < j);
                }
                assert(split_replaces_upto(sp, j + 1) =~= split_replaces_upto(sp, j as int));
            }
        }
        j = j + 1;
    }
    r
}

/// For every split and every lowercase letter, the word with that letter
/// inserted between prefix and suffix.
pub fn inserts(splits: &Vec<(String, String)>) -> (r: WordSet)
    ensures
        r.wf(),
        r@ == split_inserts(splits.deep_view()),
{
    let ghost sp = splits.deep_view();
    let az = alphabet();
    let mut r = WordSet::new();
    let n = splits.len();
    let mut j: usize = 0;
    proof {
        assert(r@ =~= split_inserts_upto(sp, 0));
    }
    while j < n
        invariant
            j <= n,
            n == splits.len(),
            sp == splits.deep_view(),
            az@ == letters(),
            r.wf(),
            r@ == split_inserts_upto(sp, j as int),
        decreases n - j,
    {
        let a = &splits[j].0;
        let b = &splits[j].1;
        proof {
            assert(a@ == sp[j as int].0 && b@ == sp[j as int].1);
        }
        let ghost p = sp[j as int];
        let mut t: usize = 0;
        proof {
            assert(split_inserts_upto(sp, j as int).union(ins_row_upto(p, 0)) =~= r@);
        }
        while t < 26
            invariant
                t <= 26,
                j < n,
                n == splits.len(),
                sp == splits.deep_view(),
                az@ == letters(),
                p == sp[j as int],
                a@ == p.0,
                b@ == p.1,
                r.wf(),
                r@ == split_inserts_upto(sp, j as int).union(ins_row_upto(p, t as int)),
            decreases 26 - t,
        {
            let mut cand = a.clone();
            crate::strutil::push_char(&mut cand, az[t]);
            let cand = cand.concat(b.as_str());
            proof {
                assert(cand@ =~= ins_of(p, letters()[t as int]));
            }
            r.insert(cand);
            proof {
                assert forall|s: Seq<char>| #[trigger] ins_row_upto(p, t + 1).contains(s)
                    implies ins_row_upto(p, t as int).insert(
                    ins_of(p, letters()[t as int]),
                ).contains(s) by {
                    let t2 = choose|t2: int| 0 <= t2 < t + 1 && s == ins_of(p, letters()[t2]);
                    if t2 < t {
                        assert(ins_row_upto(p, t as int).contains(s));
                    }
                }
                assert(ins_row_upto(p, t + 1) =~= ins_row_upto(p, t as int).insert(
                    ins_of(p, letters()[t as int]),
                ));
                assert(split_inserts_upto(sp, j as int).union(ins_row_upto(p, t + 1))
                    =~= split_inserts_upto(sp, j as int).union(ins_row_upto(p, t as int)).insert(
                    ins_of(p, letters()[t as int]),
                ));
            }
            t = t + 1;
        }
        proof {
            assert forall|s: Seq<char>| #[trigger] split_inserts_upto(sp, j + 1).contains(s)
                implies split_inserts_upto(sp, j as int).union(ins_row_upto(p, 26)).contains(s) by {
                let (j2, c): (int, char) = choose|j2: int, c: char|
                    0 <= j2 < j + 1 && is_lowercase_letter(c) && s == ins_of(sp[j2], c);
                if j2 < j {
                    assert(split_inserts_upto(sp, j as int).contains(s));
                } else {
                    lemma_letters_complete(c);
                    let t2 = choose|t2: int| 0 <= t2 < 26 && letters()[t2] == c;
                    assert(s == ins_of(p, letters()[t2]));
                    assert(ins_row_upto(p, 26).contains(s));
                }
            }
            assert forall|s: Seq<char>| ins_row_upto(p, 26).contains(s)
                implies #[trigger] split_inserts_upto(sp, j + 1).contains(s) by {
                let t2 = choose|t2: int| 0 <= t2 < 26 && s == ins_of(p, letters()[t2]);
                assert(is_lowercase_letter(letters()[t2]));
                assert(s == ins_of(sp[j as int], letters()[t2]));
            }
            assert(split_inserts_upto(sp, j + 1) =~= split_inserts_upto(sp, j as int).union(
                ins_row_upto(p, 26),
            ));
        }
        j = j + 1;
    }
    r
}

/// On the full split list of a word, `replaces` yields exactly the
/// replacement edits of that word.
pub proof fn lemma_split_replaces(sp: Seq<(Seq<char>, Seq<char>)>, w: Seq<char>)
    requires
        is_splits_of(sp, w),
    ensures
        split_replaces(sp) == replacements(w),
{
    assert forall|s: Seq<char>| #[trigger] split_replaces(sp).contains(s) implies replacements(
        w,
    ).contains(s) by {
        let (j, c): (int, char) = choose|j: int, c: char|
            0 <= j < sp.len() && sp[j].1.len() > 0 && is_lowercase_letter(c) && s == repl_of(
                sp[j],
                c,
            );
        assert(sp[j].1 == w.subrange(j, w.len() as int));
        assert(j < w.len());
        assert(repl_of(sp[j], c) =~= replace_at(w, j, c));
    }
    assert forall|s: Seq<char>| #[trigger] replacements(w).contains(s) implies split_replaces(
        sp,
    ).contains(s) by {
        let (i, c): (int, char) = choose|i: int, c: char|
            0 <= i < w.len() && is_lowercase_letter(c) && s == replace_at(w, i, c);
        assert(sp[i].1 == w.subrange(i, w.len() as int));
        assert(sp[i].1.len() > 0);
        assert(repl_of(sp[i], c) =~= replace_at(w, i, c));
    }
    assert(split_replaces(sp) =~= replacements(w));
}

/// On the full split list of a word, `inserts` yields exactly the
/// insertion edits of that word.
pub proof fn lemma_split_inserts(sp: Seq<(Seq<char>, Seq<char>)>, w: Seq<char>)
    requires
        is_splits_of(sp, w),
    ensures
        split_inserts(sp) == insertions(w),
{
    assert forall|s: Seq<char>| #[trigger] split_inserts(sp).contains(s) implies insertions(
        w,
    ).contains(s) by {
        let (j, c): (int, char) = choose|j: int, c: char|
            0 <= j < sp.len() && is_lowercase_letter(c) && s == ins_of(sp[j], c);
        assert(sp[j].0 == w.subrange(0, j) && sp[j].1 == w.subrange(j, w.len() as int));
        assert(ins_of(sp[j], c) == insert_at(w, j, c));
    }
    assert forall|s: Seq<char>| #[trigger] insertions(w).contains(s) implies split_inserts(
        sp,
    ).contains(s) by {
        let (i, c): (int, char) = choose|i: int, c: char|
            0 <= i <= w.len() && is_lowercase_letter(c) && s == insert_at(w, i, c);
        assert(sp[i].0 == w.subrange(0, i) && sp[i].1 == w.subrange(i, w.len() as int));
        assert(ins_of(sp[i], c) == insert_at(w, i, c));
    }
    assert(split_inserts(sp) =~= insertions(w));
}

/// The set of all strings at exactly one elementary edit from `word`.
pub fn edits1(word: &str) -> (r: WordSet)
    ensures
        r.wf(),
        r@ == edits1_of(word@),
{
    let word_splits = splits(word);
    let mut r = deletes(&word_splits);
    let t = transposes(&word_splits);
    let rep = replaces(&word_splits);
    let ins = inserts(&word_splits);
    r.insert_all(&t);
    r.insert_all(&rep);
    r.insert_all(&ins);
    proof {
        lemma_split_deletes(word_splits.deep_view(), word@);
        lemma_split_transposes(word_splits.deep_view(), word@);
        lemma_split_replaces(word_splits.deep_view(), word@);
        lemma_split_inserts(word_splits.deep_view(), word@);
        assert(r@ =~= edits1_of(word@));
    }
    r
}

/// On the full split list of a word, `deletes` yields exactly the
/// deletion edits of that word.
pub proof fn lemma_split_deletes(sp: Seq<(Seq<char>, Seq<char>)>, w: Seq<char>)
    requires
        is_splits_of(sp, w),
    ensures
        split_deletes(sp) == deletions(w),
{
    assert forall|s: Seq<char>| #[trigger] split_deletes(sp).contains(s) implies deletions(
        w,
    ).contains(s) by {
        let j = choose|j: int| 0 <= j < sp.len() && sp[j].1.len() > 0 && s == del_of(sp[j]);
        assert(sp[j].1 == w.subrange(j, w.len() as int));
        assert(j < w.len());
        assert(del_of(sp[j]) =~= delete_at(w, j));
    }
    assert forall|s: Seq<char>| #[trigger] deletions(w).contains(s) implies split_deletes(
        sp,
    ).contains(s) by {
        let i = choose|i: int| 0 <= i < w.len() && s == delete_at(w, i);
        assert(sp[i].1 == w.subrange(i, w.len() as int));
        assert(sp[i].1.len() > 0);
        assert(del_of(sp[i]) =~= delete_at(w, i));
    }
    assert(split_deletes(sp) =~= deletions(w));
}

/// How many raw candidates the four edit operations generate for a word
/// of length `n`, before duplicates collapse: `n` deletions, `n - 1`
/// transpositions, `26 n` replacements and `26 (n + 1)` insertions.
pub open spec fn edit_candidate_count(n: nat) -> nat {
    n + (if n == 0 {
        0nat
    } else {
        (n - 1) as nat
    }) + 26 * n + 26 * (n + 1)
}

/// The deletions of `w`, one per position.
pub open spec fn del_seq(w: Seq<char>) -> Seq<Seq<char>> {
    Seq::new(w.len(), |i: int| delete_at(w, i))
}

/// The transpositions of `w`, one per adjacent pair.
pub open spec fn trans_seq(w: Seq<char>) -> Seq<Seq<char>> {
    Seq::new(
        if w.len() == 0 {
            0
        } else {
            (w.len() - 1) as nat
        },
        |i: int| transpose_at(w, i),
    )
}

/// The replacements of `w`: entry `k` replaces position `k / 26` with
/// letter `k % 26`.
pub open spec fn repl_seq(w: Seq<char>) -> Seq<Seq<char>> {
    Seq::new(w.len() * 26, |k: int| replace_at(w, k / 26, letters()[k % 26]))
}

/// The insertions of `w`: entry `k` inserts letter `k % 26` before
/// position `k / 26`.
pub open spec fn ins_seq(w: Seq<char>) -> Seq<Seq<char>> {
    Seq::new((w.len() + 1) * 26, |k: int| insert_at(w, k / 26, letters()[k % 26]))
}

/// Every string the four operations generate from `w`, with repetition.
pub open spec fn generated1(w: Seq<char>) -> Seq<Seq<char>> {
    del_seq(w) + trans_seq(w) + repl_seq(w) + ins_seq(w)
}

proof fn lemma_del_seq_to_set(w: Seq<char>)
    ensures
        del_seq(w).to_set() == deletions(w),
{
    assert forall|s: Seq<char>| #[trigger] del_seq(w).to_set().contains(s) implies deletions(
        w,
    ).contains(s) by {
        let i = choose|i: int| 0 <= i < del_seq(w).len() && del_seq(w)[i] == s;
        assert(s == delete_at(w, i));
    }
    assert forall|s: Seq<char>| #[trigger] deletions(w).contains(s) implies del_seq(
        w,
    ).to_set().contains(s) by {
        let i = choose|i: int| 0 <= i < w.len() && s == delete_at(w, i);
        assert(del_seq(w)[i] == s);
    }
    assert(del_seq(w).to_set() =~= deletions(w));
}

proof fn lemma_trans_seq_to_set(w: Seq<char>)
    ensures
        trans_seq(w).to_set() == transpositions(w),
{
    assert forall|s: Seq<char>| #[trigger] trans_seq(w).to_set().contains(s) implies transpositions(
        w,
    ).contains(s) by {
        let i = choose|i: int| 0 <= i < trans_seq(w).len() && trans_seq(w)[i] == s;
        assert(s == transpose_at(w, i));
    }
    assert forall|s: Seq<char>| #[trigger] transpositions(w).contains(s) implies trans_seq(
        w,
    ).to_set().contains(s) by {
        let i = choose|i: int| 0 <= i && i + 1 < w.len() && s == transpose_at(w, i);
        assert(trans_seq(w)[i] == s);
    }
    assert(trans_seq(w).to_set() =~= transpositions(w));
}

proof fn lemma_repl_seq_to_set(w: Seq<char>)
    ensures
        repl_seq(w).to_set() == replacements(w),
{
    assert forall|s: Seq<char>| #[trigger] repl_seq(w).to_set().contains(s) implies replacements(
        w,
    ).contains(s) by {
        let k = choose|k: int| 0 <= k < repl_seq(w).len() && repl_seq(w)[k] == s;
        vstd::arithmetic::div_mod::lemma_fundamental_div_mod(k, 26);
        vstd::arithmetic::div_mod::lemma_mod_bound(k, 26);
        let i = k / 26;
        let t = k % 26;
        assert(0 <= i < w.len());
        crate::alphabet::lemma_letters_sound(t);
        assert(s == replace_at(w, i, letters()[t]));
    }
    assert forall|s: Seq<char>| #[trigger] replacements(w).contains(s) implies repl_seq(
        w,
    ).to_set().contains(s) by {
        let (i, c): (int, char) = choose|i: int, c: char|
            0 <= i < w.len() && is_lowercase_letter(c) && s == replace_at(w, i, c);
        lemma_letters_complete(c);
        let t = choose|t: int| 0 <= t < 26 && letters()[t] == c;
        let k = 26 * i + t;
        vstd::arithmetic::div_mod::lemma_fundamental_div_mod_converse(k, 26, i, t);
        assert(0 <= k < w.len() * 26);
        assert(repl_seq(w)[k] == s);
    }
    assert(repl_seq(w).to_set() =~= replacements(w));
}

proof fn lemma_ins_seq_to_set(w: Seq<char>)
    ensures
        ins_seq(w).to_set() == insertions(w),
{
    assert forall|s: Seq<char>| #[trigger] ins_seq(w).to_set().contains(s) implies insertions(
        w,
    ).contains(s) by {
        let k = choose|k: int| 0 <= k < ins_seq(w).len() && ins_seq(w)[k] == s;
        vstd::arithmetic::div_mod::lemma_fundamental_div_mod(k, 26);
        vstd::arithmetic::div_mod::lemma_mod_bound(k, 26);
        let i = k / 26;
        let t = k % 26;
        assert(0 <= i <= w.len());
        crate::alphabet::lemma_letters_sound(t);
        assert(s == insert_at(w, i, letters()[t]));
    }
    assert forall|s: Seq<char>| #[trigger] insertions(w).contains(s) implies ins_seq(
        w,
    ).to_set().contains(s) by {
        let (i, c): (int, char) = choose|i: int, c: char|
            0 <= i <= w.len() && is_lowercase_letter(c) && s == insert_at(w, i, c);
        lemma_letters_complete(c);
        let t = choose|t: int| 0 <= t < 26 && letters()[t] == c;
        let k = 26 * i + t;
        vstd::arithmetic::div_mod::lemma_fundamental_div_mod_converse(k, 26, i, t);
        assert(0 <= k < (w.len() + 1) * 26);
        assert(ins_seq(w)[k] == s);
    }
    assert(ins_seq(w).to_set() =~= insertions(w));
}

/// The edit set of `w` is exactly the distinct strings among its raw
/// candidates, which number `edit_candidate_count` with repetition.
pub proof fn lemma_generated1(w: Seq<char>)
    ensures
        generated1(w).to_set() == edits1_of(w),
        generated1(w).len() == edit_candidate_count(w.len()),
{
    lemma_del_seq_to_set(w);
    lemma_trans_seq_to_set(w);
    lemma_repl_seq_to_set(w);
    lemma_ins_seq_to_set(w);
    vstd::seq_lib::seq_to_set_distributes_over_add(del_seq(w), trans_seq(w));
    vstd::seq_lib::seq_to_set_distributes_over_add(del_seq(w) + trans_seq(w), repl_seq(w));
    vstd::seq_lib::seq_to_set_distributes_over_add(
        del_seq(w) + trans_seq(w) + repl_seq(w),
        ins_seq(w),
    );
    assert(generated1(w).to_set() =~= edits1_of(w));
}

/// The edit set of a word of length `n` holds at most
/// `n + (n - 1) + 26 n + 26 (n + 1)` strings: one per raw candidate.
pub proof fn lemma_edits1_card_bound(w: Seq<char>)
    ensures
        edits1_of(w).len() <= edit_candidate_count(w.len()),
{
    lemma_generated1(w);
    generated1(w).lemma_cardinality_of_set();
}

/// The bound of `lemma_edits1_card_bound` is attained exactly when the
/// raw candidates are pairwise distinct.
pub proof fn lemma_edits1_card_exact(w: Seq<char>)
    ensures
        edits1_of(w).len() == edit_candidate_count(w.len()) <==> generated1(w).no_duplicates(),
{
    lemma_generated1(w);
    if generated1(w).no_duplicates() {
        generated1(w).unique_seq_to_set();
    }
    if edits1_of(w).len() == edit_candidate_count(w.len()) {
        generated1(w).lemma_no_dup_set_cardinality();
    }
}

} // verus!
