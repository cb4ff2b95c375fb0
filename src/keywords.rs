//! The reserved words of the language: a fixed set, never changed.
use vstd::prelude::*;

verus! {

/// The reserved words of the language.
pub open spec fn keywords() -> Set<Seq<char>> {
    set![seq!['i', 'f'], seq!['e', 'l', 's', 'e'], seq!['f', 'o', 'r'], seq!['w', 'h', 'i', 'l', 'e']]
}

/// Whether `word` is one of the reserved words (exact, case-sensitive).
pub fn is_keyword(word: &str) -> (r: bool)
    ensures
        r == keywords().contains(word@),
{
    let n = word.unicode_len();
    let r = if n == 2 {
        word.get_char(0) == 'i' && word.get_char(1) == 'f'
    } else if n == 3 {
        word.get_char(0) == 'f' && word.get_char(1) == 'o' && word.get_char(2) == 'r'
    } else if n == 4 {
        word.get_char(0) == 'e' && word.get_char(1) == 'l' && word.get_char(2) == 's'
            && word.get_char(3) == 'e'
    } else if n == 5 {
        word.get_char(0) == 'w' && word.get_char(1) == 'h' && word.get_char(2) == 'i'
            && word.get_char(3) == 'l' && word.get_char(4) == 'e'
    } else {
        false
    };
    proof {
        if r {
            if n == 2 {
                assert(word@ =~= seq!['i', 'f']);
            } else if n == 3 {
                assert(word@ =~= seq!['f', 'o', 'r']);
            } else if n == 4 {
                assert(word@ =~= seq!['e', 'l', 's', 'e']);
            } else {
                assert(word@ =~= seq!['w', 'h', 'i', 'l', 'e']);
            }
        }
    }
    r
}

} // verus!
