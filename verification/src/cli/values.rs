//! Parsing of option values: unsigned integers, comma-separated lists,
//! durations with a unit, and the shape of floating-point literals.

use vstd::prelude::*;

use crate::text::char_vec;
use crate::time::duration::{duration_as_nanos, from_micros, from_millis, from_nanos, from_secs};
use crate::util::natural::{digit_run, is_digit, lemma_digit_run_bound};
use std::time::Duration;

verus! {

/// Whether the texts `a` and `b` are equal, character by character.
pub fn text_eq(a: &Vec<char>, b: &str) -> (r: bool)
    ensures
        r == (a@ == b@),
{
    let bv: Vec<char> = char_vec(b);
    if a.len() != bv.len() {
        return false;
    }
    let mut i: usize = 0;
    while i < a.len()
        invariant
            bv@ == b@,
            a.len() == bv.len(),
            i <= a.len(),
            forall|j: int| 0 <= j < i ==> a@[j] == bv@[j],
        decreases a.len() - i,
    {
        if a[i] != bv[i] {
            assert(a@[i as int] != bv@[i as int]);
            assert(a@ != bv@);
            return false;
        }
        i = i + 1;
    }
    assert(a@ =~= bv@);
    true
}

/// Whether `s` starts with `p`.
pub fn starts_with(s: &Vec<char>, p: &str) -> (r: bool)
    ensures
        r == (p@.len() <= s@.len() && s@.take(p@.len() as int) == p@),
{
    let pv: Vec<char> = char_vec(p);
    if pv.len() > s.len() {
        return false;
    }
    let mut i: usize = 0;
    while i < pv.len()
        invariant
            pv@ == p@,
            pv.len() <= s.len(),
            i <= pv.len(),
            forall|j: int| 0 <= j < i ==> s@[j] == pv@[j],
        decreases pv.len() - i,
    {
        if s[i] != pv[i] {
            assert(s@.take(pv@.len() as int)[i as int] != pv@[i as int]);
            assert(s@.take(pv@.len() as int) != pv@);
            return false;
        }
        i = i + 1;
    }
    assert(s@.take(pv@.len() as int) =~= pv@);
    true
}

/// The value of the decimal digit string `t`.
pub open spec fn decimal_value(t: Seq<char>) -> nat
    decreases t.len(),
{
    if t.len() == 0 {
        0
    } else {
        decimal_value(t.drop_last()) * 10 + ((t.last() as int - 48) as nat)
    }
}

/// Whether every character of `t` is a decimal digit.
pub open spec fn all_digits(t: Seq<char>) -> bool {
    forall|i: int| 0 <= i < t.len() ==> is_digit(#[trigger] t[i])
}

/// `s` without one leading `+`.
pub open spec fn without_plus(s: Seq<char>) -> Seq<char> {
    if s.len() > 0 && s[0] == '+' {
        s.drop_first()
    } else {
        s
    }
}

/// The unsigned integer written by `s` when it does not exceed `max`: an
/// optional `+` followed by at least one decimal digit.
pub open spec fn parse_unsigned(s: Seq<char>, max: nat) -> Option<nat> {
    let t = without_plus(s);
    if t.len() > 0 && all_digits(t) && decimal_value(t) <= max {
        Some(decimal_value(t))
    } else {
        None
    }
}

/// Parses the digit string `cs[from..to]`, saturating at `limit`: gives
/// its value when that is below `limit`, and `limit` otherwise.
fn saturating_value(cs: &Vec<char>, from: usize, to: usize, limit: u128) -> (r: u128)
    requires
        from <= to <= cs.len(),
        all_digits(cs@.subrange(from as int, to as int)),
        0 < limit <= 0x1_0000_0000_0000_0000,
    ensures
        r == if decimal_value(cs@.subrange(from as int, to as int)) < limit {
            decimal_value(cs@.subrange(from as int, to as int))
        } else {
            limit as nat
        },
{
    let ghost t = cs@.subrange(from as int, to as int);
    let mut acc: u128 = 0;
    let mut k: usize = from;
    assert(t.take(0) =~= Seq::<char>::empty());
    while k < to
        invariant
            from <= k <= to <= cs.len(),
            t == cs@.subrange(from as int, to as int),
            all_digits(t),
            0 < limit <= 0x1_0000_0000_0000_0000,
            acc == if decimal_value(t.take(k - from)) < limit {
                decimal_value(t.take(k - from))
            } else {
                limit as nat
            },
        decreases to - k,
    {
        let c: char = cs[k];
        assert(t[k - from] == c);
        assert(is_digit(t[k - from]));
        let d: u128 = (c as u32 - 48) as u128;
        let next: u128 = acc * 10 + d;
        acc = if next < limit { next } else { limit };
        proof {
            let p = t.take(k + 1 - from);
            assert(p.drop_last() =~= t.take(k - from));
            assert(p.last() == c);
        }
        k = k + 1;
    }
    assert(t.take(to - from) =~= t);
    acc
}

/// Parses an unsigned integer not above `max` from `cs[from..to]`: an
/// optional `+` and at least one decimal digit.
pub fn parse_unsigned_range(cs: &Vec<char>, from: usize, to: usize, max: u64) -> (r: Option<u64>)
    requires
        from <= to <= cs.len(),
    ensures
        r matches Some(v) ==> parse_unsigned(cs@.subrange(from as int, to as int), max as nat)
            == Some(v as nat),
        r is None ==> parse_unsigned(cs@.subrange(from as int, to as int), max as nat) is None,
{
    let ghost s = cs@.subrange(from as int, to as int);
    let start: usize = if from < to && cs[from] == '+' { from + 1 } else { from };
    let ghost t = without_plus(s);
    assert(t =~= cs@.subrange(start as int, to as int));
    if start == to {
        return None;
    }
    let mut k: usize = start;
    while k < to
        invariant
            from <= start <= k <= to <= cs.len(),
            t == cs@.subrange(start as int, to as int),
            t == without_plus(s),
            s == cs@.subrange(from as int, to as int),
            forall|j: int| 0 <= j < k - start ==> is_digit(#[trigger] t[j]),
        decreases to - k,
    {
        if !('0' <= cs[k] && cs[k] <= '9') {
            assert(!is_digit(t[k - start]));
            assert(!all_digits(t));
            return None;
        }
        k = k + 1;
    }
    let limit: u128 = max as u128 + 1;
    let v: u128 = saturating_value(cs, start, to, limit);
    if v == limit {
        None
    } else {
        Some(v as u64)
    }
}

/// Number of leading characters of `s` that differ from `c`.
pub open spec fn until_char(s: Seq<char>, c: char) -> nat
    decreases s.len(),
{
    if s.len() > 0 && s[0] != c {
        1 + until_char(s.drop_first(), c)
    } else {
        0
    }
}

/// `until_char` never runs past the end, and stops at `c`.
pub proof fn lemma_until_char(s: Seq<char>, c: char)
    ensures
        until_char(s, c) <= s.len(),
        until_char(s, c) < s.len() ==> s[until_char(s, c) as int] == c,
        forall|j: int| 0 <= j < until_char(s, c) ==> #[trigger] s[j] != c,
    decreases s.len(),
{
    if s.len() > 0 && s[0] != c {
        lemma_until_char(s.drop_first(), c);
        assert forall|j: int| 0 <= j < until_char(s, c) implies #[trigger] s[j] != c by {
            if j > 0 {
                assert(s[j] == s.drop_first()[j - 1]);
            }
        }
    }
}

/// A prefix of length `k` free of `c`, followed by `c` or the end, makes
/// `k` the value of `until_char`.
pub proof fn lemma_until_char_at(s: Seq<char>, c: char, k: int)
    requires
        0 <= k <= s.len(),
        forall|j: int| 0 <= j < k ==> s[j] != c,
        k == s.len() || s[k] == c,
    ensures
        until_char(s, c) == k,
    decreases k,
{
    if k > 0 {
        lemma_until_char_at(s.drop_first(), c, k - 1);
    }
}

/// The comma-separated list of `u32` values written by `s`, or `None`
/// when some piece is not an unsigned integer that fits.
pub open spec fn parse_u32_list(s: Seq<char>) -> Option<Seq<u32>>
    decreases s.len(),
{
    let k = until_char(s, ',');
    match parse_unsigned(s.take(k as int), u32::MAX as nat) {
        None => None,
        Some(v) => if k >= s.len() {
            Some(seq![v as u32])
        } else {
            match parse_u32_list(s.skip(k + 1 as int)) {
                Some(rest) => Some(seq![v as u32] + rest),
                None => None,
            }
        },
    }
}

/// Index of the first `c` in `cs` at or after `from`, or the length.
fn find_char(cs: &Vec<char>, from: usize, c: char) -> (k: usize)
    requires
        from <= cs.len(),
    ensures
        k == from + until_char(cs@.skip(from as int), c),
        k <= cs.len(),
{
    let ghost t = cs@.skip(from as int);
    let mut k: usize = from;
    while k < cs.len() && cs[k] != c
        invariant
            from <= k <= cs.len(),
            t == cs@.skip(from as int),
            forall|j: int| 0 <= j < k - from ==> t[j] != c,
        decreases cs.len() - k,
    {
        k = k + 1;
    }
    proof {
        lemma_until_char_at(t, c, k - from);
    }
    k
}

/// Parses a comma-separated list of `u32` values.
pub fn parse_u32_list_exec(cs: &Vec<char>) -> (r: Option<Vec<u32>>)
    ensures
        r matches Some(v) ==> parse_u32_list(cs@) == Some(v@),
        r is None ==> parse_u32_list(cs@) is None,
{
    let ghost s = cs@;
    let mut out: Vec<u32> = Vec::new();
    let mut p: usize = 0;
    assert(s.skip(0) =~= s);
    loop
        invariant
            s == cs@,
            p <= cs.len(),
            parse_u32_list(s) == match parse_u32_list(s.skip(p as int)) {
                Some(rest) => Some(out@ + rest),
                None => None::<Seq<u32>>,
            },
        decreases cs.len() - p,
    {
        let ghost t = s.skip(p as int);
        let k: usize = find_char(cs, p, ',');
        let ghost kk = until_char(t, ',');
        assert(t.take(kk as int) =~= cs@.subrange(p as int, k as int));
        match parse_unsigned_range(cs, p, k, 0xffff_ffff) {
            None => {
                return None;
            },
            Some(v) => {
                let x: u32 = v as u32;
                let ghost before = out@;
                if k == cs.len() {
                    out.push(x);
                    assert(out@ =~= before + seq![x]);
                    return Some(out);
                }
                assert(t.skip(kk + 1 as int) =~= s.skip(k + 1 as int));
                proof {
                    match parse_u32_list(s.skip(k + 1)) {
                        Some(rest) => {
                            assert(before.push(x) + rest =~= before + (seq![x] + rest));
                        },
                        None => {},
                    }
                }
                out.push(x);
                p = k + 1;
            },
        }
    }
}

/// Why a duration text was refused.
#[derive(Clone, Copy, Debug, PartialEq, Eq, Structural)]
pub enum DurationError {
    /// No leading number, or one beyond `u64`.
    InvalidNumber,
    /// A number with no unit after it.
    MissingUnit,
    /// A unit other than `ns`, `us`, `ms` and `s`.
    UnknownUnit,
}

/// Nanoseconds in one of the duration units `ns`, `us`, `ms` and `s`.
pub open spec fn unit_nanos(u: Seq<char>) -> Option<nat> {
    if u == "ns"@ {
        Some(1)
    } else if u == "us"@ {
        Some(1_000)
    } else if u == "ms"@ {
        Some(1_000_000)
    } else if u == "s"@ {
        Some(1_000_000_000)
    } else {
        None
    }
}

/// The duration, in nanoseconds, written by `s`: a decimal number of at
/// most `u64::MAX` directly followed by one of the units.
pub open spec fn parse_duration(s: Seq<char>) -> Result<nat, DurationError> {
    let k = digit_run(s);
    let number = s.take(k as int);
    let unit = s.skip(k as int);
    if k == 0 || decimal_value(number) > u64::MAX {
        Err(DurationError::InvalidNumber)
    } else if unit.len() == 0 {
        Err(DurationError::MissingUnit)
    } else {
        match unit_nanos(unit) {
            None => Err(DurationError::UnknownUnit),
            Some(f) => Ok(decimal_value(number) * f),
        }
    }
}

/// Parses a duration such as `500ms`, `2s`, `1500us` or `100ns`.
pub fn parse_duration_exec(cs: &Vec<char>) -> (r: Result<Duration, DurationError>)
    ensures
        r matches Ok(d) ==> parse_duration(cs@) == Ok::<nat, DurationError>(
            duration_as_nanos(d) as nat,
        ),
        r matches Err(e) ==> parse_duration(cs@) == Err::<nat, DurationError>(e),
{
    let ghost s = cs@;
    proof {
        lemma_digit_run_bound(s);
    }
    let mut k: usize = 0;
    while k < cs.len() && '0' <= cs[k] && cs[k] <= '9'
        invariant
            k <= cs.len(),
            s == cs@,
            digit_run(s) <= s.len(),
            forall|j: int| 0 <= j < k ==> is_digit(#[trigger] s[j]),
        decreases cs.len() - k,
    {
        k = k + 1;
    }
    proof {
        lemma_digit_run_exact(s, k as int);
    }
    if k == 0 {
        return Err(DurationError::InvalidNumber);
    }
    assert(all_digits(s.take(k as int)));
    assert(s.take(k as int) =~= s.subrange(0, k as int));
    let limit: u128 = 0x1_0000_0000_0000_0000;
    let v: u128 = saturating_value(cs, 0, k, limit);
    if v == limit {
        return Err(DurationError::InvalidNumber);
    }
    let n: u64 = v as u64;
    let ghost unit = s.skip(k as int);
    if k == cs.len() {
        assert(unit.len() == 0);
        return Err(DurationError::MissingUnit);
    }
    let u: Vec<char> = unit_chars(cs, k);
    assert(u@ =~= unit);
    if text_eq(&u, "ns") {
        Ok(from_nanos(n))
    } else if text_eq(&u, "us") {
        Ok(from_micros(n))
    } else if text_eq(&u, "ms") {
        Ok(from_millis(n))
    } else if text_eq(&u, "s") {
        Ok(from_secs(n))
    } else {
        Err(DurationError::UnknownUnit)
    }
}

/// The characters of `cs` from `from` on.
fn unit_chars(cs: &Vec<char>, from: usize) -> (r: Vec<char>)
    requires
        from <= cs.len(),
    ensures
        r@ == cs@.skip(from as int),
{
    let mut r: Vec<char> = Vec::new();
    let mut i: usize = from;
    while i < cs.len()
        invariant
            from <= i <= cs.len(),
            r@ == cs@.subrange(from as int, i as int),
        decreases cs.len() - i,
    {
        r.push(cs[i]);
        i = i + 1;
        assert(r@ =~= cs@.subrange(from as int, i as int));
    }
    assert(cs@.skip(from as int) =~= cs@.subrange(from as int, cs@.len() as int));
    r
}

/// A prefix of length `k` made of digits, followed by a non-digit or the
/// end, makes `k` the digit run.
proof fn lemma_digit_run_exact(s: Seq<char>, k: int)
    requires
        0 <= k <= s.len(),
        forall|j: int| 0 <= j < k ==> is_digit(#[trigger] s[j]),
        k == s.len() || !is_digit(s[k]),
    ensures
        digit_run(s) == k,
    decreases k,
{
    if k > 0 {
        assert forall|j: int| 0 <= j < k - 1 implies is_digit(#[trigger] s.drop_first()[j]) by {
            assert(s.drop_first()[j] == s[j + 1]);
        }
        lemma_digit_run_exact(s.drop_first(), k - 1);
    } else if s.len() > 0 {
        assert(!is_digit(s[0]));
    }
}

/// `c` in lower case, for ASCII letters.
pub open spec fn ascii_lower(c: char) -> char {
    if 'A' <= c && c <= 'Z' {
        ((c as int) + 32) as char
    } else {
        c
    }
}

/// Whether `s` equals `word` ignoring ASCII case (`word` in lower case).
pub open spec fn eq_ignore_case(s: Seq<char>, word: Seq<char>) -> bool {
    s.len() == word.len() && forall|i: int| 0 <= i < s.len() ==> ascii_lower(#[trigger] s[i])
        == word[i]
}

/// `s` without one leading sign.
pub open spec fn without_sign(s: Seq<char>) -> Seq<char> {
    if s.len() > 0 && (s[0] == '+' || s[0] == '-') {
        s.drop_first()
    } else {
        s
    }
}

/// Whether `e` is empty or an exponent: `e` or `E`, an optional sign and
/// at least one digit.
pub open spec fn exponent_ok(e: Seq<char>) -> bool {
    e.len() == 0 || ((e[0] == 'e' || e[0] == 'E') && without_sign(e.drop_first()).len() > 0
        && all_digits(without_sign(e.drop_first())))
}

/// Whether `t` is a decimal number: digits with at most one point and at
/// least one digit, then an optional exponent.
pub open spec fn decimal_number_ok(t: Seq<char>) -> bool {
    let a = digit_run(t);
    let rest = t.skip(a as int);
    if rest.len() > 0 && rest[0] == '.' {
        let b = digit_run(rest.drop_first());
        a + b > 0 && exponent_ok(rest.drop_first().skip(b as int))
    } else {
        a > 0 && exponent_ok(rest)
    }
}

/// Whether `s` is text that `f64`'s `FromStr` accepts: an optional sign,
/// then `inf`, `infinity` or `nan` in any ASCII case, or a decimal number
/// with an optional exponent.
pub open spec fn float_text_ok(s: Seq<char>) -> bool {
    let t = without_sign(s);
    eq_ignore_case(t, "inf"@) || eq_ignore_case(t, "infinity"@) || eq_ignore_case(t, "nan"@)
        || decimal_number_ok(t)
}

/// Whether `cs[from..]` equals `word` (lower case) ignoring ASCII case.
fn eq_ignore_case_exec(cs: &Vec<char>, from: usize, word: &str) -> (r: bool)
    requires
        from <= cs.len(),
    ensures
        r == eq_ignore_case(cs@.skip(from as int), word@),
{
    let w: Vec<char> = char_vec(word);
    let ghost t = cs@.skip(from as int);
    if cs.len() - from != w.len() {
        return false;
    }
    let mut i: usize = 0;
    while i < w.len()
        invariant
            w@ == word@,
            t == cs@.skip(from as int),
            from + w.len() == cs.len(),
            i <= w.len(),
            forall|j: int| 0 <= j < i ==> ascii_lower(#[trigger] t[j]) == w@[j],
        decreases w.len() - i,
    {
        let c: char = cs[from + i];
        assert(t[i as int] == c);
        let lower: char = if 'A' <= c && c <= 'Z' {
            let code: u32 = (c as u32) + 32;
            char_from_ascii(code)
        } else {
            c
        };
        if lower != w[i] {
            return false;
        }
        i = i + 1;
    }
    true
}

/// The character with ASCII code `code`.
fn char_from_ascii(code: u32) -> (c: char)
    requires
        code < 128,
    ensures
        c == code as char,
{
    let b: u8 = code as u8;
    b as char
}

/// Index just past the digits of `cs` from `from`.
fn digits_end(cs: &Vec<char>, from: usize) -> (k: usize)
    requires
        from <= cs.len(),
    ensures
        k == from + digit_run(cs@.skip(from as int)),
        k <= cs.len(),
{
    let ghost t = cs@.skip(from as int);
    let mut k: usize = from;
    while k < cs.len() && '0' <= cs[k] && cs[k] <= '9'
        invariant
            from <= k <= cs.len(),
            t == cs@.skip(from as int),
            forall|j: int| 0 <= j < k - from ==> is_digit(#[trigger] t[j]),
        decreases cs.len() - k,
    {
        k = k + 1;
    }
    proof {
        lemma_digit_run_exact(t, k - from);
    }
    k
}

/// Whether `cs[from..]` is empty or an exponent.
fn exponent_ok_exec(cs: &Vec<char>, from: usize) -> (r: bool)
    requires
        from <= cs.len(),
    ensures
        r == exponent_ok(cs@.skip(from as int)),
{
    let ghost e = cs@.skip(from as int);
    if from == cs.len() {
        return true;
    }
    if !(cs[from] == 'e' || cs[from] == 'E') {
        return false;
    }
    let mut p: usize = from + 1;
    if p < cs.len() && (cs[p] == '+' || cs[p] == '-') {
        p = p + 1;
    }
    assert(without_sign(e.drop_first()) =~= cs@.skip(p as int));
    if p == cs.len() {
        return false;
    }
    let end: usize = digits_end(cs, p);
    proof {
        lemma_digit_run_bound(cs@.skip(p as int));
    }
    if end == cs.len() {
        assert(all_digits(cs@.skip(p as int)));
        true
    } else {
        assert(!is_digit(cs@.skip(p as int)[end - p]));
        false
    }
}

/// Whether `cs` is text that `f64`'s `FromStr` accepts.
pub fn float_text_ok_exec(cs: &Vec<char>) -> (r: bool)
    ensures
        r == float_text_ok(cs@),
{
    let ghost s = cs@;
    let start: usize = if cs.len() > 0 && (cs[0] == '+' || cs[0] == '-') { 1 } else { 0 };
    let ghost t = without_sign(s);
    assert(t =~= s.skip(start as int));
    if eq_ignore_case_exec(cs, start, "inf") || eq_ignore_case_exec(cs, start, "infinity")
        || eq_ignore_case_exec(cs, start, "nan") {
        return true;
    }
    let a_end: usize = digits_end(cs, start);
    let ghost a = digit_run(t);
    let ghost rest = t.skip(a as int);
    assert(rest =~= s.skip(a_end as int));
    if a_end < cs.len() && cs[a_end] == '.' {
        let b_end: usize = digits_end(cs, a_end + 1);
        assert(rest.drop_first() =~= s.skip(a_end + 1 as int));
        let ghost b = digit_run(rest.drop_first());
        assert(rest.drop_first().skip(b as int) =~= s.skip(b_end as int));
        let digits: usize = (a_end - start) + (b_end - a_end - 1);
        digits > 0 && exponent_ok_exec(cs, b_end)
    } else {
        a_end > start && exponent_ok_exec(cs, a_end)
    }
}

} // verus!
