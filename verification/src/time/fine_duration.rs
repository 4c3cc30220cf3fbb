//! Picosecond-precise durations and their human-readable display.

use std::time::Duration;
use vstd::prelude::*;
use vstd::std_specs::ops::{AddSpec, SubSpec};

use crate::text::{dec_digits, dec_digits_padded, push_char, push_decimal, push_str};
use crate::time::duration::{duration_as_nanos, nanos_of};

verus! {

/// Picosecond-precise duration.
#[derive(Clone, Copy, Debug, Default, PartialEq, Eq, Structural, PartialOrd, Ord)]
pub struct FineDuration {
    /// Picosecond count.
    pub picos: u128,
}

/// Picoseconds per nanosecond.
pub const NANOS: u128 = 1_000;

/// Picoseconds per microsecond.
pub const MICROS: u128 = 1_000_000;

/// Picoseconds per millisecond.
pub const MILLIS: u128 = 1_000_000_000;

/// Picoseconds per second.
pub const SEC: u128 = 1_000_000_000_000;

/// Significant figures of the default display.
pub const DISPLAY_SIG_FIGS: u32 = 4;

/// `10^DISPLAY_SIG_FIGS`: the fixed-point scale of the displayed value.
pub const DISPLAY_MULTIPLE: u128 = 10_000;

impl FineDuration {
    /// The zero duration.
    pub fn zero() -> (r: Self)
        ensures
            r.picos == 0,
    {
        FineDuration { picos: 0 }
    }

    /// The largest representable duration (a sentinel value).
    pub fn max_value() -> (r: Self)
        ensures
            r.picos == u128::MAX,
    {
        FineDuration { picos: u128::MAX }
    }

    /// Divide by a `u64` divisor, rounding toward zero.
    pub fn div_u64(self, n: u64) -> (r: Self)
        requires
            n > 0,
        ensures
            r.picos == self.picos / (n as u128),
    {
        FineDuration { picos: self.picos / (n as u128) }
    }

    /// Multiply by a `u64` factor.
    pub fn mul_u64(self, n: u64) -> (r: Self)
        requires
            self.picos * n <= u128::MAX,
        ensures
            r.picos == self.picos * n,
    {
        FineDuration { picos: self.picos * (n as u128) }
    }

    /// Subtraction, or `None` when `other` is longer than `self`.
    pub fn checked_sub(self, other: Self) -> (r: Option<Self>)
        ensures
            other.picos <= self.picos ==> r == Some(FineDuration { picos: (self.picos - other.picos) as u128 }),
            other.picos > self.picos ==> r is None,
    {
        if other.picos <= self.picos {
            Some(FineDuration { picos: self.picos - other.picos })
        } else {
            None
        }
    }

    /// Whether the duration is zero.
    pub fn is_zero(self) -> (r: bool)
        ensures
            r == (self.picos == 0),
    {
        self.picos == 0
    }

    /// In-place addition.
    pub fn add_assign(&mut self, other: Self)
        requires
            old(self).picos + other.picos <= u128::MAX,
        ensures
            final(self).picos == old(self).picos + other.picos,
    {
        self.picos = self.picos + other.picos;
    }

    /// The picosecond length of a standard-library duration.
    pub fn from_duration(duration: Duration) -> (r: Self)
        ensures
            r.picos == duration_as_nanos(duration) * 1_000,
    {
        let nanos: u128 = nanos_of(duration);
        FineDuration { picos: nanos * 1_000 }
    }
}

impl From<Duration> for FineDuration {
    fn from(duration: Duration) -> (r: Self) {
        FineDuration::from_duration(duration)
    }
}

impl vstd::std_specs::convert::FromSpecImpl<Duration> for FineDuration {
    open spec fn obeys_from_spec() -> bool {
        true
    }

    open spec fn from_spec(duration: Duration) -> Self {
        FineDuration { picos: (duration_as_nanos(duration) * 1_000) as u128 }
    }
}

impl FineDuration {

    /// The display text, to four significant figures: the value in the
    /// largest unit not exceeding it, truncated (not rounded), with
    /// trailing zeros of the fraction dropped, then a space and the unit
    /// suffix (`ps`, `ns`, `µs`, `ms`, `s`); picosecond values are shown
    /// in nanoseconds.
    pub fn to_string(&self) -> (s: String)
        requires
            self.picos * DISPLAY_MULTIPLE <= u128::MAX,
        ensures
            s@ == display_text(self.picos as nat),
    {
        let scale: TimeScale = TimeScale::for_display(self.picos);
        let n: u128 = (self.picos * DISPLAY_MULTIPLE) / scale.picos();
        let int_part: u128 = n / DISPLAY_MULTIPLE;
        let frac: u128 = n % DISPLAY_MULTIPLE;
        let mut s: String = String::new();
        push_number_text(&mut s, int_part, frac);
        push_char(&mut s, ' ');
        push_str(&mut s, scale.suffix());
        proof {
            assert(s@ =~= display_text(self.picos as nat));
        }
        s
    }
}

impl std::ops::Add for FineDuration {
    type Output = FineDuration;

    fn add(self, other: FineDuration) -> (r: FineDuration) {
        FineDuration { picos: self.picos + other.picos }
    }
}

impl vstd::std_specs::ops::AddSpecImpl for FineDuration {
    open spec fn obeys_add_spec() -> bool {
        true
    }

    open spec fn add_req(self, rhs: FineDuration) -> bool {
        self.picos + rhs.picos <= u128::MAX
    }

    open spec fn add_spec(self, rhs: FineDuration) -> FineDuration {
        FineDuration { picos: (self.picos + rhs.picos) as u128 }
    }
}

impl std::ops::Sub for FineDuration {
    type Output = FineDuration;

    fn sub(self, other: FineDuration) -> (r: FineDuration) {
        FineDuration { picos: self.picos - other.picos }
    }
}

impl vstd::std_specs::ops::SubSpecImpl for FineDuration {
    open spec fn obeys_sub_spec() -> bool {
        true
    }

    open spec fn sub_req(self, rhs: FineDuration) -> bool {
        rhs.picos <= self.picos
    }

    open spec fn sub_spec(self, rhs: FineDuration) -> FineDuration {
        FineDuration { picos: (self.picos - rhs.picos) as u128 }
    }
}

/// Adding a duration and subtracting it again gives back the start, and
/// `checked_sub` then succeeds with it.
pub proof fn lemma_add_sub_roundtrip(a: FineDuration, b: FineDuration)
    requires
        a.picos + b.picos <= u128::MAX,
    ensures
        a.add_spec(b).sub_req(b),
        a.add_spec(b).sub_spec(b) == a,
        a.add_spec(b).picos >= b.picos,
{
}

/// Subtracting a shorter duration and adding it back gives back the start.
pub proof fn lemma_sub_add_roundtrip(a: FineDuration, b: FineDuration)
    requires
        b.picos <= a.picos,
    ensures
        a.sub_spec(b).add_req(b),
        a.sub_spec(b).add_spec(b) == a,
{
}

/// Unit of the displayed value.
#[derive(Clone, Copy, Debug, PartialEq, Eq, Structural)]
pub enum TimeScale {
    /// Picoseconds.
    PicoSec,
    /// Nanoseconds.
    NanoSec,
    /// Microseconds.
    MicroSec,
    /// Milliseconds.
    MilliSec,
    /// Seconds.
    Sec,
}

/// The largest unit that does not exceed `p` picoseconds.
pub open spec fn scale_of(p: nat) -> TimeScale {
    if p < NANOS {
        TimeScale::PicoSec
    } else if p < MICROS {
        TimeScale::NanoSec
    } else if p < MILLIS {
        TimeScale::MicroSec
    } else if p < SEC {
        TimeScale::MilliSec
    } else {
        TimeScale::Sec
    }
}

/// Picoseconds in one unit of `s`.
pub open spec fn scale_picos(s: TimeScale) -> nat {
    match s {
        TimeScale::PicoSec => 1,
        TimeScale::NanoSec => NANOS as nat,
        TimeScale::MicroSec => MICROS as nat,
        TimeScale::MilliSec => MILLIS as nat,
        TimeScale::Sec => SEC as nat,
    }
}

/// Unit suffix of `s`.
pub open spec fn scale_suffix(s: TimeScale) -> Seq<char> {
    match s {
        TimeScale::PicoSec => "ps"@,
        TimeScale::NanoSec => "ns"@,
        TimeScale::MicroSec => "µs"@,
        TimeScale::MilliSec => "ms"@,
        TimeScale::Sec => "s"@,
    }
}

/// The unit used by the display: the largest unit not exceeding `p`,
/// except that sub-nanosecond values are shown in nanoseconds.
pub open spec fn display_scale(p: nat) -> TimeScale {
    if scale_of(p) == TimeScale::PicoSec {
        TimeScale::NanoSec
    } else {
        scale_of(p)
    }
}

/// `10^e`.
pub open spec fn pow10(e: nat) -> nat
    decreases e,
{
    if e == 0 {
        1
    } else {
        10 * pow10((e - 1) as nat)
    }
}

/// Drops trailing zero digits of the `k`-digit fraction `v`, giving the
/// remaining digits and their count.
pub open spec fn strip_zeros(v: nat, k: nat) -> (nat, nat)
    decreases k,
{
    if k == 0 {
        (0, 0)
    } else if v % 10 == 0 {
        strip_zeros(v / 10, (k - 1) as nat)
    } else {
        (v, k)
    }
}

/// The number of fraction digits that the display may keep when the
/// integer part has `int_len` digits.
pub open spec fn fraction_room(int_len: nat) -> nat {
    let room: int = DISPLAY_SIG_FIGS - int_len;
    if room <= 0 {
        0
    } else if room >= DISPLAY_SIG_FIGS {
        DISPLAY_SIG_FIGS as nat
    } else {
        room as nat
    }
}

/// Text of the fixed-point number `int_part + frac / 10^4`, truncated to
/// four significant figures with trailing fraction zeros dropped.
pub open spec fn number_text(int_part: nat, frac: nat) -> Seq<char> {
    let i = dec_digits(int_part);
    let k = fraction_room(i.len());
    let kept = frac / pow10((DISPLAY_SIG_FIGS - k) as nat);
    let (v, m) = strip_zeros(kept, k);
    if m == 0 {
        i
    } else {
        i + seq!['.'] + dec_digits_padded(v, m)
    }
}

/// The display text of a duration of `p` picoseconds.
pub open spec fn display_text(p: nat) -> Seq<char> {
    let s = display_scale(p);
    let n: nat = (p * (DISPLAY_MULTIPLE as nat)) / scale_picos(s);
    number_text(n / (DISPLAY_MULTIPLE as nat), n % (DISPLAY_MULTIPLE as nat)) + seq![' '] + scale_suffix(s)
}

impl TimeScale {
    /// The largest unit that does not exceed `p` picoseconds.
    pub fn from_picos(p: u128) -> (r: Self)
        ensures
            r == scale_of(p as nat),
    {
        if p < NANOS {
            TimeScale::PicoSec
        } else if p < MICROS {
            TimeScale::NanoSec
        } else if p < MILLIS {
            TimeScale::MicroSec
        } else if p < SEC {
            TimeScale::MilliSec
        } else {
            TimeScale::Sec
        }
    }

    /// The unit that the default display uses for `p` picoseconds.
    pub fn for_display(p: u128) -> (r: Self)
        ensures
            r == display_scale(p as nat),
    {
        let scale: TimeScale = TimeScale::from_picos(p);
        match scale {
            TimeScale::PicoSec => TimeScale::NanoSec,
            _ => scale,
        }
    }

    /// Picoseconds in one unit.
    pub fn picos(self) -> (r: u128)
        ensures
            r == scale_picos(self),
            r >= 1,
    {
        match self {
            TimeScale::PicoSec => 1,
            TimeScale::NanoSec => NANOS,
            TimeScale::MicroSec => MICROS,
            TimeScale::MilliSec => MILLIS,
            TimeScale::Sec => SEC,
        }
    }

    /// The unit's suffix.
    pub fn suffix(self) -> (r: &'static str)
        ensures
            r@ == scale_suffix(self),
    {
        match self {
            TimeScale::PicoSec => "ps",
            TimeScale::NanoSec => "ns",
            TimeScale::MicroSec => "µs",
            TimeScale::MilliSec => "ms",
            TimeScale::Sec => "s",
        }
    }
}

/// `10^e` for the small exponents the display needs.
fn pow10_u128(e: u32) -> (r: u128)
    requires
        e <= DISPLAY_SIG_FIGS,
    ensures
        r == pow10(e as nat),
        r >= 1,
{
    proof {
        reveal_with_fuel(pow10, 5);
    }
    match e {
        0 => 1,
        1 => 10,
        2 => 100,
        3 => 1_000,
        _ => 10_000,
    }
}

/// The number of decimal digits of `n`.
fn decimal_len(n: u128) -> (r: u32)
    ensures
        r as nat == dec_digits(n as nat).len(),
        r <= 39,
    decreases n,
{
    if n < 10 {
        1
    } else {
        proof {
            lemma_dec_len_bound(n as nat);
        }
        decimal_len(n / 10) + 1
    }
}

/// A `u128` has at most 39 decimal digits.
proof fn lemma_dec_len_bound(n: nat)
    requires
        n <= u128::MAX,
    ensures
        dec_digits(n).len() <= 39,
    decreases n,
{
    reveal_with_fuel(pow10, 40);
    assert(pow10(39) == 1_000_000_000_000_000_000_000_000_000_000_000_000_000);
    lemma_dec_len_le(n, 39);
}

/// `n < 10^k` (with `k >= 1`) has at most `k` decimal digits.
proof fn lemma_dec_len_le(n: nat, k: nat)
    requires
        k >= 1,
        n < pow10(k),
    ensures
        dec_digits(n).len() <= k,
    decreases k,
{
    reveal_with_fuel(pow10, 2);
    if n >= 10 {
        assert(k >= 2) by {
            if k == 1 {
                assert(pow10(1) == 10);
            }
        }
        assert(n / 10 < pow10((k - 1) as nat)) by (nonlinear_arith)
            requires
                n < 10 * pow10((k - 1) as nat),
        ;
        lemma_dec_len_le(n / 10, (k - 1) as nat);
    }
}

/// Appends the `m`-digit zero-padded decimal of `v`.
fn push_padded(s: &mut String, v: u128, m: u32)
    ensures
        final(s)@ == old(s)@ + dec_digits_padded(v as nat, m as nat),
{
    let len: u32 = decimal_len(v);
    let mut i: u32 = len;
    let ghost start = s@;
    while i < m
        invariant
            len <= i,
            i <= m || i == len,
            s@ == start + Seq::new((i - len) as nat, |j: int| '0'),
        decreases m - i,
    {
        push_char(s, '0');
        i = i + 1;
        proof {
            assert(s@ =~= start + Seq::new((i - len) as nat, |j: int| '0'));
        }
    }
    push_decimal(s, v);
    proof {
        if len >= m {
            assert(s@ =~= start + dec_digits_padded(v as nat, m as nat));
        } else {
            assert(s@ =~= start + dec_digits_padded(v as nat, m as nat));
        }
    }
}

/// Appends the text of the fixed-point number `int_part + frac / 10^4`.
fn push_number_text(s: &mut String, int_part: u128, frac: u128)
    requires
        frac < DISPLAY_MULTIPLE,
    ensures
        final(s)@ == old(s)@ + number_text(int_part as nat, frac as nat),
{
    let int_len: u32 = decimal_len(int_part);
    let k: u32 = if int_len >= DISPLAY_SIG_FIGS { 0 } else { DISPLAY_SIG_FIGS - int_len };
    let divisor: u128 = pow10_u128(DISPLAY_SIG_FIGS - k);
    let mut v: u128 = frac / divisor;
    let mut m: u32 = k;
    proof {
        assert(k as nat == fraction_room(int_len as nat));
    }
    while m > 0 && v % 10 == 0
        invariant
            strip_zeros(v as nat, m as nat) == strip_zeros(frac as nat / pow10((DISPLAY_SIG_FIGS - k) as nat), k as nat),
        decreases m,
    {
        v = v / 10;
        m = m - 1;
    }
    let ghost start = s@;
    push_decimal(s, int_part);
    if m > 0 {
        push_char(s, '.');
        push_padded(s, v, m);
    }
    proof {
        assert(s@ =~= start + number_text(int_part as nat, frac as nat));
    }
}

/// Whether `c` is a decimal digit.
pub open spec fn is_digit_char(c: char) -> bool {
    '0' <= c <= '9'
}

/// Whether every character of `s` is a decimal digit.
pub open spec fn all_digits(s: Seq<char>) -> bool {
    forall|i: int| 0 <= i < s.len() ==> is_digit_char(#[trigger] s[i])
}

/// The number that the decimal digits `s` denote (most significant
/// first; zero for no digits).
pub open spec fn digits_value(s: Seq<char>) -> nat
    decreases s.len(),
{
    if s.len() == 0 {
        0
    } else {
        digits_value(s.drop_last()) * 10 + ((s.last() as int - '0' as int) as nat)
    }
}

/// Whether `text` shows, in the unit `u`, the value of `p` picoseconds
/// truncated to the digits it shows: it is an integer part, optionally a
/// point and fraction digits (at most four significant digits in all
/// when there is a fraction), a space and the unit's suffix, and the
/// shown number is `p / picos(u)` cut after its last shown digit.
pub open spec fn shows_truncated(text: Seq<char>, p: nat, u: TimeScale) -> bool {
    exists|ip: Seq<char>, fp: Seq<char>|
        #![trigger all_digits(ip), all_digits(fp)]
        {
            &&& ip.len() >= 1
            &&& all_digits(ip)
            &&& all_digits(fp)
            &&& (fp.len() > 0 ==> ip.len() + fp.len() <= DISPLAY_SIG_FIGS)
            &&& text == (if fp.len() == 0 {
                ip
            } else {
                ip + seq!['.'] + fp
            }) + seq![' '] + scale_suffix(u)
            &&& digits_value(ip) * pow10(fp.len()) + digits_value(fp) == (p * pow10(
                fp.len(),
            )) / scale_picos(u)
        }
}

/// The display of a duration shows its value in the display unit,
/// truncated to the digits shown: reading the shown number back gives
/// `p / picos(unit)` cut after the last shown digit.
pub proof fn lemma_display_value(p: nat)
    ensures
        shows_truncated(display_text(p), p, display_scale(p)),
{
    let u = display_scale(p);
    let sp = scale_picos(u);
    let n: nat = (p * 10000) / sp;
    let int_part: nat = n / 10000;
    let frac: nat = n % 10000;
    let i = dec_digits(int_part);
    let k = fraction_room(i.len());
    let kept = frac / pow10((4 - k) as nat);
    let (v, m) = strip_zeros(kept, k);
    reveal_with_fuel(pow10, 5);
    assert(pow10(4) == 10000);
    assert(sp >= 1);
    lemma_pow10_add((4 - k) as nat, k);
    lemma_pow10_pos((4 - k) as nat);
    lemma_pow10_pos(k);
    assert(kept < pow10(k)) by (nonlinear_arith)
        requires
            frac < pow10((4 - k) as nat) * pow10(k),
            kept == frac / pow10((4 - k) as nat),
            pow10((4 - k) as nat) > 0,
    ;
    lemma_strip_zeros(kept, k);
    lemma_dec_digits_value(int_part);
    let fp = if m == 0 { Seq::<char>::empty() } else { dec_digits_padded(v, m) };
    if m > 0 {
        lemma_padded_value(v, m);
    }
    assert(fp.len() == m);
    assert(digits_value(fp) == v);
    // n / 10^(4 - m) is the number cut after m fraction digits.
    let d = pow10((4 - m) as nat);
    lemma_pow10_add((4 - m) as nat, m);
    lemma_pow10_add((4 - k) as nat, (k - m) as nat);
    lemma_pow10_pos((4 - m) as nat);
    lemma_pow10_pos(m);
    lemma_pow10_pos((k - m) as nat);
    assert(((4 - k) + (k - m)) as nat == (4 - m) as nat);
    vstd::arithmetic::div_mod::lemma_div_denominator(frac as int, pow10((4 - k) as nat) as int, pow10((k - m) as nat) as int);
    assert(kept / pow10((k - m) as nat) == v) by {
        vstd::arithmetic::div_mod::lemma_div_multiples_vanish(v as int, pow10((k - m) as nat) as int);
        assert(kept == pow10((k - m) as nat) * v) by (nonlinear_arith)
            requires
                kept == v * pow10((k - m) as nat),
        ;
    }
    assert(frac / d == v);
    lemma_div_shift(int_part * pow10(m), frac, d);
    assert(n == int_part * pow10(m) * d + frac) by (nonlinear_arith)
        requires
            n == 10000 * int_part + frac,
            10000 == d * pow10(m),
    {
    }
    vstd::arithmetic::div_mod::lemma_fundamental_div_mod(n as int, 10000);
    assert(n / d == int_part * pow10(m) + v);
    vstd::arithmetic::div_mod::lemma_div_denominator((p * 10000) as int, sp as int, d as int);
    assert(p * 10000 == (p * pow10(m)) * d) by (nonlinear_arith)
        requires
            10000 == d * pow10(m),
    ;
    vstd::arithmetic::div_mod::lemma_div_multiples_vanish_quotient(d as int, (p * pow10(m)) as int, sp as int);
    assert((p * 10000) / (sp * d) == (p * pow10(m)) / sp) by (nonlinear_arith)
        requires
            p * 10000 == (p * pow10(m)) * d,
            (p * pow10(m)) / sp == (d * (p * pow10(m))) / (d * sp),
    ;
    assert(digits_value(i) * pow10(fp.len()) + digits_value(fp) == (p * pow10(fp.len())) / sp);
    assert(display_text(p) == (if fp.len() == 0 {
        i
    } else {
        i + seq!['.'] + fp
    }) + seq![' '] + scale_suffix(u));
    assert(fp.len() > 0 ==> i.len() + fp.len() <= DISPLAY_SIG_FIGS);
    assert(all_digits(i) && all_digits(fp));
}

/// `(a * d + b) / d == a + b / d`.
proof fn lemma_div_shift(a: nat, b: nat, d: nat)
    requires
        d > 0,
    ensures
        (a * d + b) / d == a + b / d,
{
    vstd::arithmetic::div_mod::lemma_fundamental_div_mod(b as int, d as int);
    let q = b / d;
    let r = b % d;
    assert(a * d + b == d * (a + q) + r) by (nonlinear_arith)
        requires
            b == d * q + r,
    ;
    vstd::arithmetic::div_mod::lemma_div_multiples_vanish_fancy((a + q) as int, r as int, d as int);
}

/// `10^(a + b) == 10^a * 10^b`.
proof fn lemma_pow10_add(a: nat, b: nat)
    ensures
        pow10(a + b) == pow10(a) * pow10(b),
    decreases a,
{
    if a > 0 {
        let a1 = (a - 1) as nat;
        lemma_pow10_add(a1, b);
        assert((a + b - 1) as nat == a1 + b);
        assert(pow10(a + b) == 10 * pow10(a1 + b));
        assert(pow10(a) == 10 * pow10(a1));
        assert(10 * (pow10(a1) * pow10(b)) == (10 * pow10(a1)) * pow10(b)) by (nonlinear_arith);
    } else {
        assert(pow10(0) == 1);
        assert(a + b == b);
    }
}

/// Powers of ten are positive.
proof fn lemma_pow10_pos(a: nat)
    ensures
        pow10(a) >= 1,
    decreases a,
{
    if a > 0 {
        lemma_pow10_pos((a - 1) as nat);
    }
}

/// Stripping trailing zeros from a `k`-digit fraction leaves `m <= k`
/// digits `v` with `kept == v * 10^(k - m)`, and `v < 10^m`.
proof fn lemma_strip_zeros(kept: nat, k: nat)
    requires
        kept < pow10(k),
    ensures
        strip_zeros(kept, k).1 <= k,
        kept == strip_zeros(kept, k).0 * pow10((k - strip_zeros(kept, k).1) as nat),
        strip_zeros(kept, k).0 < pow10(strip_zeros(kept, k).1),
    decreases k,
{
    reveal_with_fuel(pow10, 2);
    if k == 0 {
        assert(kept == 0);
    } else if kept % 10 == 0 {
        assert(kept / 10 < pow10((k - 1) as nat)) by (nonlinear_arith)
            requires
                kept < 10 * pow10((k - 1) as nat),
        ;
        lemma_strip_zeros(kept / 10, (k - 1) as nat);
        let (v, m) = strip_zeros(kept / 10, (k - 1) as nat);
        assert(strip_zeros(kept, k) == (v, m));
        lemma_pow10_add(1, (k - 1 - m) as nat);
        assert(((k - m) as nat) == 1 + ((k - 1 - m) as nat));
        assert(kept == 10 * (kept / 10));
        assert(kept == v * pow10((k - m) as nat)) by (nonlinear_arith)
            requires
                kept == 10 * (kept / 10),
                kept / 10 == v * pow10((k - 1 - m) as nat),
                pow10((k - m) as nat) == 10 * pow10((k - 1 - m) as nat),
        ;
    } else {
        assert(strip_zeros(kept, k) == (kept, k));
        assert(pow10(0) == 1);
        assert(kept == kept * pow10(0));
    }
}

/// The digits of `n` denote `n`.
proof fn lemma_dec_digits_value(n: nat)
    ensures
        digits_value(dec_digits(n)) == n,
        all_digits(dec_digits(n)),
        dec_digits(n).len() >= 1,
    decreases n,
{
    assert('0' as int == 48);
    if n >= 10 {
        lemma_dec_digits_value(n / 10);
        let d = dec_digits(n / 10);
        let c = crate::text::digit_char(n % 10);
        assert(c as int == 48 + n % 10);
        assert(dec_digits(n) == d.push(c));
        assert(dec_digits(n).drop_last() =~= d);
        assert(dec_digits(n).last() == c);
        assert(digits_value(dec_digits(n)) == digits_value(d) * 10 + n % 10);
        assert forall|j: int| 0 <= j < dec_digits(n).len() implies is_digit_char(
            #[trigger] dec_digits(n)[j],
        ) by {
            if j < d.len() {
                assert(dec_digits(n)[j] == d[j]);
            }
        }
    } else {
        let c = crate::text::digit_char(n);
        assert(c as int == 48 + n);
        assert(seq![c].drop_last() =~= Seq::<char>::empty());
        assert(digits_value(Seq::<char>::empty()) == 0);
        assert(seq![c].last() == c);
        assert(dec_digits(n) == seq![c]);
        assert(digits_value(seq![c]) == digits_value(seq![c].drop_last()) * 10 + ((c as int - '0' as int) as nat));
    }
}

/// The digits of `a + b` denote `a` shifted by the length of `b`, plus `b`.
proof fn lemma_digits_value_concat(a: Seq<char>, b: Seq<char>)
    ensures
        digits_value(a + b) == digits_value(a) * pow10(b.len()) + digits_value(b),
    decreases b.len(),
{
    if b.len() == 0 {
        assert(a + b =~= a);
        assert(pow10(0) == 1);
        assert(digits_value(b) == 0);
    } else {
        lemma_digits_value_concat(a, b.drop_last());
        assert((a + b).drop_last() =~= a + b.drop_last());
        assert((a + b).last() == b.last());
        let x = digits_value(a);
        let y = digits_value(b.drop_last());
        let t = ((b.last() as int - '0' as int) as nat);
        assert(digits_value(a + b) == digits_value(a + b.drop_last()) * 10 + t);
        assert(digits_value(b) == y * 10 + t);
        assert(b.drop_last().len() == (b.len() - 1) as nat);
        assert(pow10(b.len()) == 10 * pow10((b.len() - 1) as nat));
        let q = pow10((b.len() - 1) as nat);
        assert(digits_value(a + b.drop_last()) == x * q + y);
        assert((x * q + y) * 10 + t == x * (10 * q) + (y * 10 + t)) by (nonlinear_arith);
    }
}

/// Zeros denote zero.
proof fn lemma_zeros_value(z: nat)
    ensures
        digits_value(Seq::new(z, |j: int| '0')) == 0,
        all_digits(Seq::new(z, |j: int| '0')),
    decreases z,
{
    if z > 0 {
        lemma_zeros_value((z - 1) as nat);
        assert(Seq::new(z, |j: int| '0').drop_last() =~= Seq::new((z - 1) as nat, |j: int| '0'));
    }
}

/// `v < 10^m` padded to `m` digits is `m` digits denoting `v`.
proof fn lemma_padded_value(v: nat, m: nat)
    requires
        m >= 1,
        v < pow10(m),
    ensures
        dec_digits_padded(v, m).len() == m,
        digits_value(dec_digits_padded(v, m)) == v,
        all_digits(dec_digits_padded(v, m)),
{
    lemma_dec_len_le(v, m);
    lemma_dec_digits_value(v);
    let d = dec_digits(v);
    if d.len() < m {
        let z = Seq::new((m - d.len()) as nat, |j: int| '0');
        lemma_zeros_value((m - d.len()) as nat);
        lemma_digits_value_concat(z, d);
        assert(dec_digits_padded(v, m) =~= z + d);
        assert forall|j: int| 0 <= j < (z + d).len() implies is_digit_char(#[trigger] (z + d)[j]) by {
            if j >= z.len() {
                assert((z + d)[j] == d[j - z.len()]);
            }
        }
    }
}

} // verus!
