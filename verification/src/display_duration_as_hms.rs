//! Human-readable elapsed times, from a count of milliseconds.

use vstd::prelude::*;
use vstd::string::StringExecFns;
use crate::text::dec_digits;
use crate::text::push_char;
use crate::text::push_decimal;

verus! {

/// The display form of an elapsed time of `ms` milliseconds: below one second
/// `"<ms>ms"`, below one minute `"<s>.<ms>s"`, else `"<m>:<s>s <ms>ms"`.
pub open spec fn hms_view(ms: nat) -> Seq<char> {
    if ms < 1000 {
        dec_digits(ms) + seq!['m', 's']
    } else if ms / 1000 < 60 {
        dec_digits(ms / 1000) + seq!['.'] + dec_digits(ms % 1000) + seq!['s']
    } else {
        dec_digits(ms / 1000 / 60) + seq![':'] + dec_digits((ms / 1000) % 60) + seq!['s', ' ']
            + dec_digits(ms % 1000) + seq!['m', 's']
    }
}

/// Renders an elapsed time, measured in milliseconds, for people.
pub trait Hms {
    /// What `to_hms` returns, as a character sequence.
    spec fn hms_spec(&self) -> Seq<char>;

    /// The minutes / seconds / milliseconds display form described at module
    /// level.
    fn to_hms(&self) -> (r: String)
        ensures
            r@ == self.hms_spec(),
    ;
}

impl Hms for u32 {
    open spec fn hms_spec(&self) -> Seq<char> {
        hms_view(*self as nat)
    }

    fn to_hms(&self) -> (r: String) {
        let milli_seconds: u32 = *self;
        let mut s = String::new();
        if milli_seconds < 1000 {
            push_decimal(&mut s, milli_seconds as u64);
            s.append("ms");
            proof {
                reveal_strlit("ms");
                assert("ms"@ =~= seq!['m', 's']);
                assert(s@ =~= hms_view(*self as nat));
            }
            return s;
        }
        let millis: u32 = milli_seconds % 1000;
        let seconds: u32 = milli_seconds / 1000;
        if seconds < 60 {
            push_decimal(&mut s, seconds as u64);
            push_char(&mut s, '.');
            push_decimal(&mut s, millis as u64);
            push_char(&mut s, 's');
            assert(s@ =~= hms_view(*self as nat));
            return s;
        }
        let secs: u32 = seconds % 60;
        let mins: u32 = seconds / 60;
        push_decimal(&mut s, mins as u64);
        push_char(&mut s, ':');
        push_decimal(&mut s, secs as u64);
        s.append("s ");
        push_decimal(&mut s, millis as u64);
        s.append("ms");
        proof {
            reveal_strlit("s ");
            reveal_strlit("ms");
            assert("s "@ =~= seq!['s', ' ']);
            assert("ms"@ =~= seq!['m', 's']);
            assert(s@ =~= hms_view(*self as nat));
        }
        return s;
    }
}

} // verus!
