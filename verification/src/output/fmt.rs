//! Unit suffixes for auto-scaled quantities and significant-figure
//! truncation of decimal number text.

use vstd::prelude::*;

use crate::cli::BytesFormat;
use crate::counter::CounterKind;
use crate::text::{char_vec, push_char, push_chars, push_str};

verus! {

/// Magnitude step of an auto-scaled quantity: a power of 1000 (decimal)
/// or of 1024 (binary).
#[derive(Clone, Copy, Debug, PartialEq, Eq, Structural)]
pub enum Scale {
    /// 10^0 / 2^0.
    One,
    /// 10^3 / 2^10.
    Kilo,
    /// 10^6 / 2^20.
    Mega,
    /// 10^9 / 2^30.
    Giga,
    /// 10^12 / 2^40.
    Tera,
    /// 10^15 / 2^50.
    Peta,
}

/// What a scaled quantity measures, which decides its unit suffix.
#[derive(Clone, Copy, Debug, PartialEq, Eq, Structural)]
pub enum ScaleFormat {
    /// Raw byte values (B, KB, MiB, ...).
    Bytes(BytesFormat),
    /// Byte throughput (B/s, KB/s, MiB/s, ...).
    BytesThroughput(BytesFormat),
    /// Character throughput (char/s, Kchar/s, ...).
    CharsThroughput,
    /// CPU cycle frequency (Hz, KHz, MHz, ...).
    CyclesThroughput,
    /// Generic item throughput (item/s, Kitem/s, ...).
    ItemsThroughput,
}

/// The position of a scale in the ladder One, Kilo, ..., Peta.
pub open spec fn scale_index(s: Scale) -> nat {
    match s {
        Scale::One => 0,
        Scale::Kilo => 1,
        Scale::Mega => 2,
        Scale::Giga => 3,
        Scale::Tera => 4,
        Scale::Peta => 5,
    }
}

/// The metric prefix of a scale in decimal notation.
pub open spec fn decimal_prefix(s: Scale) -> Seq<char> {
    match s {
        Scale::One => seq![],
        Scale::Kilo => seq!['K'],
        Scale::Mega => seq!['M'],
        Scale::Giga => seq!['G'],
        Scale::Tera => seq!['T'],
        Scale::Peta => seq!['P'],
    }
}

/// The byte-unit prefix of a scale: `K`, `M`, ... for decimal and `Ki`,
/// `Mi`, ... for binary.
pub open spec fn byte_prefix(s: Scale, bf: BytesFormat) -> Seq<char> {
    match bf {
        BytesFormat::Decimal => decimal_prefix(s),
        BytesFormat::Binary => if s == Scale::One {
            seq![]
        } else {
            decimal_prefix(s).push('i')
        },
    }
}

/// The full unit suffix of a scale in a format.
pub open spec fn suffix_text(s: Scale, f: ScaleFormat) -> Seq<char> {
    match f {
        ScaleFormat::Bytes(bf) => byte_prefix(s, bf).push('B'),
        ScaleFormat::BytesThroughput(bf) => byte_prefix(s, bf) + seq!['B', '/', 's'],
        ScaleFormat::CharsThroughput => decimal_prefix(s) + seq!['c', 'h', 'a', 'r', '/', 's'],
        ScaleFormat::CyclesThroughput => decimal_prefix(s) + seq!['H', 'z'],
        ScaleFormat::ItemsThroughput => decimal_prefix(s) + seq!['i', 't', 'e', 'm', '/', 's'],
    }
}

impl Scale {
    /// Unit suffix of this scale in the given format context.
    pub fn suffix(self, format: ScaleFormat) -> (r: String)
        ensures
            r@ == suffix_text(self, format),
    {
        let mut r: String = String::new();
        let bf: BytesFormat = format.bytes_format();
        let binary: bool = match format {
            ScaleFormat::Bytes(_) | ScaleFormat::BytesThroughput(_) => bf == BytesFormat::Binary,
            _ => false,
        };
        match self {
            Scale::One => {},
            Scale::Kilo => push_char(&mut r, 'K'),
            Scale::Mega => push_char(&mut r, 'M'),
            Scale::Giga => push_char(&mut r, 'G'),
            Scale::Tera => push_char(&mut r, 'T'),
            Scale::Peta => push_char(&mut r, 'P'),
        }
        if binary && self != Scale::One {
            push_char(&mut r, 'i');
        }
        let ghost prefix = r@;
        match format {
            ScaleFormat::Bytes(_) => push_char(&mut r, 'B'),
            ScaleFormat::BytesThroughput(_) => {
                push_char(&mut r, 'B');
                push_char(&mut r, '/');
                push_char(&mut r, 's');
            },
            ScaleFormat::CharsThroughput => {
                push_char(&mut r, 'c');
                push_char(&mut r, 'h');
                push_char(&mut r, 'a');
                push_char(&mut r, 'r');
                push_char(&mut r, '/');
                push_char(&mut r, 's');
            },
            ScaleFormat::CyclesThroughput => {
                push_char(&mut r, 'H');
                push_char(&mut r, 'z');
            },
            ScaleFormat::ItemsThroughput => {
                push_char(&mut r, 'i');
                push_char(&mut r, 't');
                push_char(&mut r, 'e');
                push_char(&mut r, 'm');
                push_char(&mut r, '/');
                push_char(&mut r, 's');
            },
        }
        assert(r@ =~= suffix_text(self, format));
        r
    }
}

impl ScaleFormat {
    /// The bytes format relevant to this context; formats that do not
    /// count bytes always step by powers of 1000.
    pub fn bytes_format(self) -> (r: BytesFormat)
        ensures
            r == match self {
                ScaleFormat::Bytes(bf) => bf,
                ScaleFormat::BytesThroughput(bf) => bf,
                _ => BytesFormat::Decimal,
            },
    {
        match self {
            ScaleFormat::Bytes(bf) => bf,
            ScaleFormat::BytesThroughput(bf) => bf,
            ScaleFormat::CharsThroughput => BytesFormat::Decimal,
            ScaleFormat::CyclesThroughput => BytesFormat::Decimal,
            ScaleFormat::ItemsThroughput => BytesFormat::Decimal,
        }
    }

    /// The throughput format of a counter kind.
    pub fn throughput(kind: CounterKind, bytes_format: BytesFormat) -> (r: Self)
        ensures
            r == match kind {
                CounterKind::Bytes => ScaleFormat::BytesThroughput(bytes_format),
                CounterKind::Chars => ScaleFormat::CharsThroughput,
                CounterKind::Cycles => ScaleFormat::CyclesThroughput,
                CounterKind::Items => ScaleFormat::ItemsThroughput,
            },
    {
        match kind {
            CounterKind::Bytes => ScaleFormat::BytesThroughput(bytes_format),
            CounterKind::Chars => ScaleFormat::CharsThroughput,
            CounterKind::Cycles => ScaleFormat::CyclesThroughput,
            CounterKind::Items => ScaleFormat::ItemsThroughput,
        }
    }
}

/// Number of leading characters of `s` that differ from `c`: the index of
/// the first `c`, or the length when there is none.
pub open spec fn leading_other(s: Seq<char>, c: char) -> nat
    decreases s.len(),
{
    if s.len() > 0 && s[0] != c {
        1 + leading_other(s.drop_first(), c)
    } else {
        0
    }
}

/// Number of leading characters of `s` equal to `c`.
pub open spec fn leading_run(s: Seq<char>, c: char) -> nat
    decreases s.len(),
{
    if s.len() > 0 && s[0] == c {
        1 + leading_run(s.drop_first(), c)
    } else {
        0
    }
}

/// Number of trailing characters of `s` equal to `c`.
pub open spec fn trailing_run(s: Seq<char>, c: char) -> nat
    decreases s.len(),
{
    if s.len() > 0 && s.last() == c {
        1 + trailing_run(s.drop_last(), c)
    } else {
        0
    }
}

/// The integer digits of a number text with at most one leading minus
/// sign removed.
pub open spec fn unsigned_part(int_text: Seq<char>) -> Seq<char> {
    if int_text.len() > 0 && int_text[0] == '-' {
        int_text.drop_first()
    } else {
        int_text
    }
}

/// The decimal text `s` cut to `sig_figs` significant figures.
///
/// Text without a decimal point is kept whole. Integer digits are never
/// dropped; a lone `0` before the point does not count as significant,
/// and neither do the zeros right after the point that follow it. The
/// fraction is truncated (not rounded) and loses its trailing zeros, and
/// the point goes too when no fraction digit is left.
pub open spec fn sig_fig_text(s: Seq<char>, sig_figs: nat) -> Seq<char> {
    let dot = leading_other(s, '.');
    if dot == s.len() {
        s
    } else {
        let abs_int = unsigned_part(s.take(dot as int));
        let int_sig: nat = if abs_int =~= seq!['0'] { 0 } else { abs_int.len() };
        if int_sig >= sig_figs {
            s.take(dot as int)
        } else {
            let fract = s.skip(dot as int + 1);
            let zeros: nat = if int_sig == 0 { leading_run(fract, '0') } else { 0 };
            let digits: nat = (sig_figs - int_sig + zeros) as nat;
            let kept = if digits <= fract.len() { fract.take(digits as int) } else { fract };
            let keep: int = kept.len() - trailing_run(kept, '0');
            if keep == 0 {
                s.take(dot as int)
            } else {
                s.take(dot as int + 1 + keep)
            }
        }
    }
}

/// A prefix of length `k` free of `c`, followed by `c` or the end, makes
/// `k` the count of leading characters other than `c`.
pub proof fn lemma_leading_other(s: Seq<char>, c: char, k: int)
    requires
        0 <= k <= s.len(),
        forall|j: int| 0 <= j < k ==> s[j] != c,
        k == s.len() || s[k] == c,
    ensures
        leading_other(s, c) == k,
    decreases k,
{
    if k > 0 {
        lemma_leading_other(s.drop_first(), c, k - 1);
    }
}

/// A prefix of length `k` made of `c`, followed by another character or
/// the end, makes `k` the leading run of `c`.
pub proof fn lemma_leading_run(s: Seq<char>, c: char, k: int)
    requires
        0 <= k <= s.len(),
        forall|j: int| 0 <= j < k ==> s[j] == c,
        k == s.len() || s[k] != c,
    ensures
        leading_run(s, c) == k,
    decreases k,
{
    if k > 0 {
        lemma_leading_run(s.drop_first(), c, k - 1);
    }
}

/// A suffix of length `k` made of `c`, preceded by another character or
/// the start, makes `k` the trailing run of `c`.
pub proof fn lemma_trailing_run(s: Seq<char>, c: char, k: int)
    requires
        0 <= k <= s.len(),
        forall|j: int| s.len() - k <= j < s.len() ==> s[j] == c,
        k == s.len() || s[s.len() - k - 1] != c,
    ensures
        trailing_run(s, c) == k,
    decreases k,
{
    if k > 0 {
        lemma_trailing_run(s.drop_last(), c, k - 1);
    }
}

/// Index of the first `.` in `cs`, or its length when there is none.
pub(crate) fn find_dot(cs: &Vec<char>) -> (dot: usize)
    ensures
        dot == leading_other(cs@, '.'),
        dot <= cs.len(),
{
    let n: usize = cs.len();
    let mut dot: usize = 0;
    while dot < n && cs[dot] != '.'
        invariant
            n == cs@.len(),
            dot <= n,
            forall|j: int| 0 <= j < dot ==> cs@[j] != '.',
        decreases n - dot,
    {
        dot = dot + 1;
    }
    proof {
        lemma_leading_other(cs@, '.', dot as int);
    }
    dot
}

/// Number of `0` characters in `cs` from index `from` on, up to the first
/// other character.
fn count_zeros(cs: &Vec<char>, from: usize) -> (k: usize)
    requires
        from <= cs.len(),
    ensures
        k == leading_run(cs@.skip(from as int), '0'),
        from + k <= cs.len(),
{
    let n: usize = cs.len();
    let ghost t = cs@.skip(from as int);
    let mut k: usize = 0;
    while from + k < n && cs[from + k] == '0'
        invariant
            n == cs@.len(),
            t == cs@.skip(from as int),
            from + k <= n,
            forall|j: int| 0 <= j < k ==> t[j] == '0',
        decreases n - k,
    {
        k = k + 1;
    }
    proof {
        lemma_leading_run(t, '0', k as int);
    }
    k
}

/// Length of `cs[from..from + len]` once its trailing `0` characters are
/// dropped.
pub(crate) fn trim_zeros(cs: &Vec<char>, from: usize, len: usize) -> (keep: usize)
    requires
        from + len <= cs.len(),
    ensures
        keep == len - trailing_run(cs@.subrange(from as int, from + len), '0'),
{
    let ghost t = cs@.subrange(from as int, from + len);
    let mut keep: usize = len;
    while keep > 0 && cs[from + keep - 1] == '0'
        invariant
            t == cs@.subrange(from as int, from + len),
            from + len <= cs.len(),
            keep <= len,
            forall|j: int| keep <= j < len ==> t[j] == '0',
        decreases keep,
    {
        keep = keep - 1;
    }
    proof {
        lemma_trailing_run(t, '0', (len - keep) as int);
    }
    keep
}

/// Number of significant integer digits before the point at `dot`: the
/// digits after an optional minus sign, where a lone `0` counts none.
fn integer_sig(cs: &Vec<char>, dot: usize) -> (k: usize)
    requires
        dot <= cs.len(),
    ensures
        k == (if unsigned_part(cs@.take(dot as int)) =~= seq!['0'] {
            0
        } else {
            unsigned_part(cs@.take(dot as int)).len()
        }),
{
    let start: usize = if dot > 0 && cs[0] == '-' { 1 } else { 0 };
    let abs_len: usize = dot - start;
    let ghost abs_int = unsigned_part(cs@.take(dot as int));
    assert(abs_int =~= cs@.subrange(start as int, dot as int));
    if abs_len == 1 && cs[start] == '0' {
        assert(abs_int =~= seq!['0']);
        0
    } else {
        assert(!(abs_int =~= seq!['0'])) by {
            if abs_int =~= seq!['0'] {
                assert(abs_int[0] == cs@[start as int]);
            }
        }
        abs_len
    }
}

/// Number formatting helpers.
pub struct Fmt;

impl Fmt {
    /// Cuts the decimal text of a number (as `f64`'s `Display` writes it)
    /// to `sig_figs` significant figures, truncating rather than rounding
    /// and dropping trailing fraction zeros.
    pub fn format_f64(text: &str, sig_figs: usize) -> (r: String)
        ensures
            r@ == sig_fig_text(text@, sig_figs as nat),
    {
        let cs: Vec<char> = char_vec(text);
        let n: usize = cs.len();
        let ghost s = cs@;
        let dot: usize = find_dot(&cs);
        let mut r: String = String::new();
        if dot == n {
            push_chars(&mut r, &cs, 0, n);
            assert(r@ =~= s);
            return r;
        }
        let int_sig: usize = integer_sig(&cs, dot);
        if int_sig >= sig_figs {
            push_chars(&mut r, &cs, 0, dot);
            assert(r@ =~= s.take(dot as int));
            return r;
        }
        let fract_start: usize = dot + 1;
        let ghost fract = s.skip(fract_start as int);
        let zeros: usize = if int_sig == 0 { count_zeros(&cs, fract_start) } else { 0 };
        assert(cs@.skip(fract_start as int) == fract);
        let fract_len: usize = n - fract_start;
        let want: usize = sig_figs - int_sig;
        let digits: usize = if want >= fract_len || zeros >= fract_len - want {
            fract_len
        } else {
            want + zeros
        };
        let ghost kept = if sig_figs - int_sig + zeros <= fract.len() {
            fract.take(sig_figs - int_sig + zeros)
        } else {
            fract
        };
        assert(kept =~= cs@.subrange(fract_start as int, fract_start + digits));
        let keep: usize = trim_zeros(&cs, fract_start, digits);
        if keep == 0 {
            push_chars(&mut r, &cs, 0, dot);
            assert(r@ =~= s.take(dot as int));
        } else {
            push_chars(&mut r, &cs, 0, fract_start + keep);
            assert(r@ =~= s.take(fract_start + keep));
        }
        r
    }

    /// The text of a scaled quantity: its number text cut to `sig_figs`
    /// significant figures, a space, and the unit suffix of `scale` in
    /// `format`.
    pub fn format_scaled(text: &str, sig_figs: usize, scale: Scale, format: ScaleFormat) -> (r:
        String)
        ensures
            r@ == sig_fig_text(text@, sig_figs as nat).push(' ') + suffix_text(scale, format),
    {
        let mut r: String = Self::format_f64(text, sig_figs);
        push_char(&mut r, ' ');
        let suffix: String = scale.suffix(format);
        push_str(&mut r, suffix.as_str());
        r
    }
}

} // verus!
