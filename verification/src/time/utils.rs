//! Cutting the decimal text of a number to a number of characters after
//! its integer part.

use vstd::prelude::*;

use crate::output::fmt::{find_dot, leading_other, trailing_run, trim_zeros};
use crate::text::{char_vec, push_chars};

verus! {

/// The number text `s` cut by `sig_figs`: text without a point is kept
/// whole; otherwise `sig_figs` minus the position of the point fraction
/// digits are kept (none: the point goes too), losing their trailing
/// zeros (and the point with them when only zeros were kept). Where the
/// text has fewer fraction digits than that, it is kept whole.
///
/// Positions count characters, which for the ASCII text that `f64`
/// writes are its bytes.
pub open spec fn point_cut_text(s: Seq<char>, sig_figs: nat) -> Seq<char> {
    let dot = leading_other(s, '.');
    if dot == s.len() {
        s
    } else if sig_figs <= dot {
        s.take(dot as int)
    } else {
        let fract_start: int = dot as int + 1;
        let fract_end: int = fract_start + sig_figs - dot;
        if fract_end > s.len() {
            s
        } else {
            let fract = s.subrange(fract_start, fract_end);
            let keep: int = fract.len() - trailing_run(fract, '0');
            if keep == 0 {
                s.take(dot as int)
            } else {
                s.take(fract_start + keep)
            }
        }
    }
}

/// Number formatting used for durations.
pub struct Formatter;

impl Formatter {
    /// Cuts the decimal text of a number (as `f64`'s `Display` writes it)
    /// so that the integer part and the fraction digits together number
    /// `sig_figs` characters, dropping trailing fraction zeros (see
    /// [`point_cut_text`]).
    pub fn format_f64(text: &str, sig_figs: usize) -> (r: String)
        ensures
            r@ == point_cut_text(text@, sig_figs as nat),
    {
        let cs: Vec<char> = char_vec(text);
        let n: usize = cs.len();
        let dot: usize = find_dot(&cs);
        let mut r: String = String::new();
        if dot == n {
            push_chars(&mut r, &cs, 0, n);
            assert(r@ =~= cs@);
            return r;
        }
        if sig_figs <= dot {
            push_chars(&mut r, &cs, 0, dot);
            assert(r@ =~= cs@.take(dot as int));
            return r;
        }
        let fract_start: usize = dot + 1;
        let fract_digits: usize = sig_figs - dot;
        if fract_digits > n - fract_start {
            push_chars(&mut r, &cs, 0, n);
            assert(r@ =~= cs@);
            return r;
        }
        let keep: usize = trim_zeros(&cs, fract_start, fract_digits);
        if keep == 0 {
            push_chars(&mut r, &cs, 0, dot);
            assert(r@ =~= cs@.take(dot as int));
        } else {
            push_chars(&mut r, &cs, 0, fract_start + keep);
            assert(r@ =~= cs@.take(fract_start + keep));
        }
        r
    }
}

} // verus!
