//! Human-readable byte counts.
//!
//! The digit string of a byte count is grouped with commas every three digits
//! from the right.  The number of groups picks the unit suffix, and the first
//! two groups form the displayed value: `1234567` shows as `1.234 Mb`.
//! Grouping is decimal (powers of 1000 of digits), not binary scaling.

use vstd::prelude::*;
use vstd::string::StringExecFns;
use crate::text::dec_digits;
use crate::text::digit_chars;
use crate::text::push_char;
use crate::text::push_chars;

verus! {

/// Digit characters grouped with a comma every three digits from the right;
/// fewer than four digits stay as they are.
pub open spec fn grouped(digits: Seq<char>) -> Seq<char>
    decreases digits.len(),
{
    if digits.len() <= 3 {
        digits
    } else {
        grouped(digits.subrange(0, digits.len() - 3)) + seq![','] + digits.subrange(
            digits.len() - 3,
            digits.len() as int,
        )
    }
}

/// How many comma-separated groups the digit string of length `len` has.
pub open spec fn group_count(len: nat) -> nat {
    (len + 2) / 3
}

/// The unit suffix selected by the number of digit groups: one group is plain
/// bytes, then each further group steps a thousand higher, capped at `Tb`.
pub open spec fn size_suffix(groups: nat) -> Seq<char> {
    if groups <= 1 {
        seq!['b', 'y', 't', 'e', 's']
    } else if groups == 2 {
        seq!['K', 'b']
    } else if groups == 3 {
        seq!['M', 'b']
    } else if groups == 4 {
        seq!['G', 'b']
    } else {
        seq!['T', 'b']
    }
}

/// The full display form of a byte count `n`: the first digit group, a dot,
/// the second group and the unit suffix; a count of up to three digits shows
/// as `"<digits> bytes"`.
pub open spec fn file_size_view(n: nat) -> Seq<char> {
    let d = dec_digits(n);
    if d.len() <= 3 {
        d + seq![' '] + size_suffix(1)
    } else {
        let first = ((d.len() - 1) % 3) + 1;
        d.subrange(0, first as int) + seq!['.'] + d.subrange(first as int, first + 3) + seq![' ']
            + size_suffix(group_count(d.len()))
    }
}

/// Renders a byte count for people: with commas, or with a unit suffix.
pub trait DisplayFileSize {
    /// What `add_commas` returns, as a character sequence.
    spec fn commas_view(&self) -> Seq<char>;

    /// What `display_as_file_size` returns, as a character sequence.
    spec fn size_view(&self) -> Seq<char>;

    /// The decimal digit string with comma separators every three digits.
    fn add_commas(&self) -> (r: String)
        ensures
            r@ == self.commas_view(),
    ;

    /// The byte count with its unit suffix, as described at module level.
    fn display_as_file_size(&self) -> (r: String)
        ensures
            r@ == self.size_view(),
    ;
}

/// Appends `grouped(digits[..upto])` to the string.
fn push_grouped(s: &mut String, digits: &Vec<char>, upto: usize)
    requires
        upto <= digits@.len(),
    ensures
        final(s)@ == old(s)@ + grouped(digits@.subrange(0, upto as int)),
    decreases upto,
{
    if upto <= 3 {
        push_chars(s, digits, 0, upto);
    } else {
        push_grouped(s, digits, upto - 3);
        assert(digits@.subrange(0, upto - 3) =~= digits@.subrange(0, upto as int).subrange(
            0,
            upto - 3,
        ));
        push_char(s, ',');
        push_chars(s, digits, upto - 3, upto);
        assert(s@ =~= old(s)@ + grouped(digits@.subrange(0, upto as int)));
    }
}

impl DisplayFileSize for u64 {
    open spec fn commas_view(&self) -> Seq<char> {
        grouped(dec_digits(*self as nat))
    }

    open spec fn size_view(&self) -> Seq<char> {
        file_size_view(*self as nat)
    }

    fn add_commas(&self) -> (r: String) {
        let digits = digit_chars(*self);
        let mut s = String::new();
        push_grouped(&mut s, &digits, digits.len());
        assert(digits@.subrange(0, digits@.len() as int) =~= digits@);
        assert(s@ =~= grouped(dec_digits(*self as nat)));
        s
    }

    fn display_as_file_size(&self) -> (r: String) {
        let digits = digit_chars(*self);
        let len = digits.len();
        let mut s = String::new();
        if len <= 3 {
            push_chars(&mut s, &digits, 0, len);
            push_char(&mut s, ' ');
            s.append("bytes");
            proof {
                reveal_strlit("bytes");
                assert("bytes"@ =~= seq!['b', 'y', 't', 'e', 's']);
                assert(digits@.subrange(0, len as int) =~= digits@);
                assert(s@ =~= file_size_view(*self as nat));
            }
        } else {
            let first = ((len - 1) % 3) + 1;
            push_chars(&mut s, &digits, 0, first);
            push_char(&mut s, '.');
            push_chars(&mut s, &digits, first, first + 3);
            push_char(&mut s, ' ');
            let groups = (len - 1) / 3 + 1;
            assert(groups == group_count(len as nat));
            if groups == 2 {
                s.append("Kb");
            } else if groups == 3 {
                s.append("Mb");
            } else if groups == 4 {
                s.append("Gb");
            } else {
                s.append("Tb");
            }
            proof {
                reveal_strlit("Kb");
                reveal_strlit("Mb");
                reveal_strlit("Gb");
                reveal_strlit("Tb");
                assert("Kb"@ =~= seq!['K', 'b']);
                assert("Mb"@ =~= seq!['M', 'b']);
                assert("Gb"@ =~= seq!['G', 'b']);
                assert("Tb"@ =~= seq!['T', 'b']);
                assert(s@ =~= file_size_view(*self as nat));
            }
        }
        s
    }
}

} // verus!
