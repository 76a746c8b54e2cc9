//! The 26-letter lowercase alphabet used by the edit generator.

use vstd::prelude::*;

verus! {

/// Whether `c` is one of the 26 lowercase letters.
pub open spec fn is_lowercase_letter(c: char) -> bool {
    'a' <= c && c <= 'z'
}

/// The 26 lowercase letters, in order.
pub open spec fn letters() -> Seq<char> {
    Seq::new(26, |i: int| (('a' as int) + i) as char)
}

/// Every lowercase letter occurs in `letters()`.
pub proof fn lemma_letters_complete(c: char)
    requires
        is_lowercase_letter(c),
    ensures
        letters().contains(c),
{
    let i = c as int - 'a' as int;
    assert(letters()[i] == c);
}

/// Every member of `letters()` is a lowercase letter.
pub proof fn lemma_letters_sound(i: int)
    requires
        0 <= i < 26,
    ensures
        is_lowercase_letter(letters()[i]),
{
}

/// The 26 lowercase letters as an executable vector.
pub fn alphabet() -> (v: Vec<char>)
    ensures
        v@ == letters(),
{
    let mut v: Vec<char> = Vec::new();
    let mut i: u8 = 0;
    while i < 26
        invariant
            i <= 26,
            v@.len() == i as int,
            forall|j: int| 0 <= j < i as int ==> v@[j] == letters()[j],
        decreases 26 - i as int,
    {
        v.push((97 + i) as char);
        i = i + 1;
    }
    proof {
        assert(v@ =~= letters());
    }
    v
}

} // verus!
