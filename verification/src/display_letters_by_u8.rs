//! Runs of a repeated character, used for padding and indentation.

use vstd::prelude::*;
use crate::text::push_char;
use crate::text::repeat_char;

verus! {

/// A string of `count` copies of `letter`.
pub fn count_to_letter(count: u8, letter: char) -> (r: String)
    ensures
        r@ == repeat_char(count as nat, letter),
{
    let mut s = String::new();
    let mut i: u8 = 0;
    while i < count
        invariant
            i <= count,
            s@ == repeat_char(i as nat, letter),
        decreases count - i,
    {
        push_char(&mut s, letter);
        i = i + 1;
        assert(s@ =~= repeat_char(i as nat, letter));
    }
    s
}

/// A run of `letter` that fills the space left over once `occupied` of
/// `space_count` columns are taken; empty when nothing is left.
pub fn produce_letter(space_count: u8, occupied: u8, letter: char) -> (r: String)
    ensures
        r@ == repeat_char(
            if space_count > occupied {
                (space_count - occupied) as nat
            } else {
                0
            },
            letter,
        ),
{
    count_to_letter(
        if space_count > occupied {
            space_count - occupied
        } else {
            0
        },
        letter,
    )
}

/// A string of `count` spaces.
pub fn spaces_by_count(count: u8) -> (r: String)
    ensures
        r@ == repeat_char(count as nat, ' '),
{
    count_to_letter(count, ' ')
}

} // verus!
