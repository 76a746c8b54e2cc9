//! The tokenizer: raw text is lowered character by character, and the
//! maximal runs of lowercase letters are its words.

use vstd::prelude::*;
use crate::alphabet::is_lowercase_letter;
use crate::strutil::push_char;

verus! {

/// `c` lowered: an uppercase ASCII letter becomes its lowercase form, any
/// other character stays as it is.
pub open spec fn to_lower(c: char) -> char {
    if 'A' <= c && c <= 'Z' {
        ((c as int) + 32) as char
    } else {
        c
    }
}

/// `s` with every character lowered.
pub open spec fn lower_seq(s: Seq<char>) -> Seq<char> {
    s.map_values(|c: char| to_lower(c))
}

/// The length of the initial run of lowercase letters of `s`.
pub open spec fn run_len(s: Seq<char>) -> int
    decreases s.len(),
{
    if s.len() == 0 || !is_lowercase_letter(s[0]) {
        0
    } else {
        1 + run_len(s.drop_first())
    }
}

/// The initial run never reaches past the end of the sequence.
pub proof fn lemma_run_len_bounds(s: Seq<char>)
    ensures
        0 <= run_len(s) <= s.len(),
    decreases s.len(),
{
    if s.len() > 0 && is_lowercase_letter(s[0]) {
        lemma_run_len_bounds(s.drop_first());
    }
}

/// The initial run ends exactly at the first position that is off the
/// sequence or holds no lowercase letter.
pub proof fn lemma_run_len_is(s: Seq<char>, k: int)
    requires
        0 <= k <= s.len(),
        forall|j: int| 0 <= j < k ==> is_lowercase_letter(#[trigger] s[j]),
        k == s.len() || !is_lowercase_letter(s[k]),
    ensures
        run_len(s) == k,
    decreases s.len(),
{
    if k == 0 {
    } else {
        assert(is_lowercase_letter(s[0]));
        let t = s.drop_first();
        assert forall|j: int| 0 <= j < k - 1 implies is_lowercase_letter(#[trigger] t[j]) by {
            assert(t[j] == s[j + 1]);
        }
        if k < s.len() {
            assert(t[k - 1] == s[k]);
        }
        lemma_run_len_is(t, k - 1);
    }
}

/// The maximal runs of lowercase letters of `s`, in order.
pub open spec fn tokens_of(s: Seq<char>) -> Seq<Seq<char>>
    decreases s.len(),
    via tokens_of_decreases
{
    if s.len() == 0 {
        Seq::<Seq<char>>::empty()
    } else if !is_lowercase_letter(s[0]) {
        tokens_of(s.drop_first())
    } else {
        seq![s.subrange(0, run_len(s))] + tokens_of(s.subrange(run_len(s), s.len() as int))
    }
}

#[via_fn]
proof fn tokens_of_decreases(s: Seq<char>) {
    if s.len() != 0 && is_lowercase_letter(s[0]) {
        lemma_run_len_bounds(s);
        lemma_run_len_bounds(s.drop_first());
        assert(run_len(s) == 1 + run_len(s.drop_first()));
    }
}

/// The lowercase form of one character.
fn lower_char(c: char) -> (r: char)
    ensures
        r == to_lower(c),
{
    match c {
        'A' => 'a',
        'B' => 'b',
        'C' => 'c',
        'D' => 'd',
        'E' => 'e',
        'F' => 'f',
        'G' => 'g',
        'H' => 'h',
        'I' => 'i',
        'J' => 'j',
        'K' => 'k',
        'L' => 'l',
        'M' => 'm',
        'N' => 'n',
        'O' => 'o',
        'P' => 'p',
        'Q' => 'q',
        'R' => 'r',
        'S' => 's',
        'T' => 't',
        'U' => 'u',
        'V' => 'v',
        'W' => 'w',
        'X' => 'x',
        'Y' => 'y',
        'Z' => 'z',
        _ => c,
    }
}

/// The first position at or past `i` that ends the letter run starting
/// at `i`.
fn scan_run_end(s: &str, i: usize) -> (k: usize)
    requires
        i <= s@.len(),
    ensures
        i <= k <= s@.len(),
        forall|j: int| i <= j < k ==> is_lowercase_letter(#[trigger] s@[j]),
        k == s@.len() || !is_lowercase_letter(s@[k as int]),
{
    let n = s.unicode_len();
    let mut k = i;
    loop
        invariant
            i <= k <= n,
            n == s@.len(),
            forall|j: int| i <= j < k ==> is_lowercase_letter(#[trigger] s@[j]),
        decreases n - k,
    {
        if k == n {
            return k;
        }
        let c = s.get_char(k);
        if !(c >= 'a' && c <= 'z') {
            return k;
        }
        k = k + 1;
    }
}

/// Extracts the words of `text`: the text is lowered character by
/// character, and its maximal runs of lowercase letters are the words,
/// in order of appearance.
pub fn words(text: String) -> (r: Vec<String>)
    ensures
        r.deep_view() == tokens_of(lower_seq(text@)),
{
    let n = text.as_str().unicode_len();
    let mut lowered = String::new();
    let mut i: usize = 0;
    while i < n
        invariant
            i <= n,
            n == text@.len(),
            lowered@.len() == i as int,
            forall|j: int| 0 <= j < i ==> lowered@[j] == to_lower(#[trigger] text@[j]),
        decreases n - i,
    {
        let c = text.as_str().get_char(i);
        let lc = lower_char(c);
        push_char(&mut lowered, lc);
        i = i + 1;
    }
    proof {
        assert(lowered@ =~= lower_seq(text@));
    }

    let ghost s = lowered@;
    let m = lowered.as_str().unicode_len();
    let mut r: Vec<String> = Vec::new();
    let mut i: usize = 0;
    proof {
        assert(s.subrange(0, m as int) =~= s);
        assert(r.deep_view() + tokens_of(s) =~= tokens_of(s));
    }
    while i < m
        invariant
            i <= m,
            m == lowered@.len(),
            s == lowered@,
            r.deep_view() + tokens_of(s.subrange(i as int, m as int)) == tokens_of(s),
        decreases m - i,
    {
        let ghost rest = s.subrange(i as int, m as int);
        let c = lowered.as_str().get_char(i);
        if c >= 'a' && c <= 'z' {
            let k = scan_run_end(lowered.as_str(), i);
            proof {
                assert forall|j: int| 0 <= j < k - i implies is_lowercase_letter(
                    #[trigger] rest[j],
                ) by {
                    assert(rest[j] == s[i + j]);
                }
                if k < m {
                    assert(rest[k - i] == s[k as int]);
                }
                lemma_run_len_is(rest, k - i);
                assert(rest.subrange(0, k - i) =~= s.subrange(i as int, k as int));
                assert(rest.subrange(k - i, rest.len() as int) =~= s.subrange(k as int, m as int));
                assert(tokens_of(rest) == seq![s.subrange(i as int, k as int)] + tokens_of(
                    s.subrange(k as int, m as int),
                ));
            }
            let ghost dv = r.deep_view();
            let token = lowered.as_str().substring_char(i, k).to_owned();
            r.push(token);
            proof {
                assert(r.deep_view() =~= dv.push(s.subrange(i as int, k as int)));
                assert(r.deep_view() + tokens_of(s.subrange(k as int, m as int)) =~= tokens_of(s));
            }
            proof {
                lemma_run_len_bounds(rest);
            }
            i = k;
        } else {
            proof {
                assert(!is_lowercase_letter(rest[0]));
                assert(rest.drop_first() =~= s.subrange(i + 1, m as int));
                assert(tokens_of(rest) == tokens_of(s.subrange(i + 1, m as int)));
            }
            i = i + 1;
        }
    }
    proof {
        assert(s.subrange(m as int, m as int) =~= Seq::<char>::empty());
        assert(r.deep_view() =~= r.deep_view() + tokens_of(s.subrange(m as int, m as int)));
    }
    r
}

/// The first word of `line`: its first maximal run of lowercase letters,
/// when the line holds one.
pub fn first_word(line: &str) -> (r: Option<String>)
    ensures
        match r {
            Some(w) => tokens_of(line@).len() > 0 && w@ == tokens_of(line@)[0],
            None => tokens_of(line@).len() == 0,
        },
{
    let ghost s = line@;
    let n = line.unicode_len();
    let mut i: usize = 0;
    proof {
        assert(s.subrange(0, n as int) =~= s);
    }
    loop
        invariant
            i <= n,
            n == line@.len(),
            s == line@,
            tokens_of(s.subrange(i as int, n as int)) == tokens_of(s),
        decreases n - i,
    {
        let ghost rest = s.subrange(i as int, n as int);
        if i == n {
            proof {
                assert(rest =~= Seq::<char>::empty());
            }
            return None;
        }
        let c = line.get_char(i);
        if c >= 'a' && c <= 'z' {
            let k = scan_run_end(line, i);
            proof {
                assert forall|j: int| 0 <= j < k - i implies is_lowercase_letter(
                    #[trigger] rest[j],
                ) by {
                    assert(rest[j] == s[i + j]);
                }
                if k < n {
                    assert(rest[k - i] == s[k as int]);
                }
                lemma_run_len_is(rest, k - i);
                assert(rest.subrange(0, k - i) =~= s.subrange(i as int, k as int));
                assert(tokens_of(s)[0] == s.subrange(i as int, k as int));
            }
            return Some(line.substring_char(i, k).to_owned());
        }
        proof {
            assert(!is_lowercase_letter(rest[0]));
            assert(rest.drop_first() =~= s.subrange(i + 1, n as int));
            assert(tokens_of(rest) == tokens_of(s.subrange(i + 1, n as int)));
        }
        i = i + 1;
    }
}

} // verus!
