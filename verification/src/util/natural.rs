//! Natural ("human") ordering of names: runs of decimal digits compare by
//! their numeric value, so `bench_2` sorts before `bench_10`.

use std::cmp::Ordering;

use vstd::prelude::*;

use crate::output::fmt::{leading_run, lemma_leading_run};
use crate::text::char_vec;

verus! {

/// Whether `c` is an ASCII decimal digit.
pub open spec fn is_digit(c: char) -> bool {
    '0' <= c && c <= '9'
}

/// Length of the run of digits at the start of `s`.
pub open spec fn digit_run(s: Seq<char>) -> nat
    decreases s.len(),
{
    if s.len() > 0 && is_digit(s[0]) {
        1 + digit_run(s.drop_first())
    } else {
        0
    }
}

/// Character-wise lexicographic comparison (-1, 0 or 1); a proper prefix
/// comes first.
pub open spec fn lex_order(x: Seq<char>, y: Seq<char>) -> int
    decreases x.len(),
{
    if x.len() == 0 && y.len() == 0 {
        0
    } else if x.len() == 0 {
        -1
    } else if y.len() == 0 {
        1
    } else if x[0] < y[0] {
        -1
    } else if x[0] > y[0] {
        1
    } else {
        lex_order(x.drop_first(), y.drop_first())
    }
}

/// Comparison of two digit strings by the numbers they denote: leading
/// zeros are ignored, a longer significant part is larger, and equal
/// lengths compare digit by digit.
pub open spec fn numeric_order(x: Seq<char>, y: Seq<char>) -> int {
    let xs = x.skip(leading_run(x, '0') as int);
    let ys = y.skip(leading_run(y, '0') as int);
    if xs.len() < ys.len() {
        -1
    } else if xs.len() > ys.len() {
        1
    } else {
        lex_order(xs, ys)
    }
}

/// A digit run never extends past the end of the text.
pub proof fn lemma_digit_run_bound(s: Seq<char>)
    ensures
        digit_run(s) <= s.len(),
        forall|j: int| 0 <= j < digit_run(s) ==> is_digit(#[trigger] s[j]),
        digit_run(s) < s.len() ==> !is_digit(s[digit_run(s) as int]),
    decreases s.len(),
{
    if s.len() > 0 && is_digit(s[0]) {
        lemma_digit_run_bound(s.drop_first());
        assert forall|j: int| 0 <= j < digit_run(s) implies is_digit(#[trigger] s[j]) by {
            if j > 0 {
                assert(s[j] == s.drop_first()[j - 1]);
            }
        }
    }
}

/// A leading run of `c` never extends past the end of the text.
pub proof fn lemma_leading_run_bound(s: Seq<char>, c: char)
    ensures
        leading_run(s, c) <= s.len(),
    decreases s.len(),
{
    if s.len() > 0 && s[0] == c {
        lemma_leading_run_bound(s.drop_first(), c);
    }
}

/// Natural comparison (-1, 0 or 1) of two names.
///
/// Where both texts continue with a digit, the two digit runs compare by
/// numeric value; runs of equal value but different length (leading
/// zeros) put the shorter first. Other characters compare by code point,
/// and a text that ends first comes first.
pub open spec fn natural_order(a: Seq<char>, b: Seq<char>) -> int
    decreases a.len() + b.len(),
{
    if a.len() == 0 || b.len() == 0 {
        if a.len() == 0 && b.len() == 0 {
            0
        } else if a.len() == 0 {
            -1
        } else {
            1
        }
    } else if is_digit(a[0]) && is_digit(b[0]) {
        proof {
            lemma_digit_run_bound(a);
            lemma_digit_run_bound(b);
        }
        let ra = digit_run(a);
        let rb = digit_run(b);
        let c = numeric_order(a.take(ra as int), b.take(rb as int));
        if c != 0 {
            c
        } else if ra < rb {
            -1
        } else if ra > rb {
            1
        } else {
            natural_order(a.skip(ra as int), b.skip(rb as int))
        }
    } else if a[0] < b[0] {
        -1
    } else if a[0] > b[0] {
        1
    } else {
        natural_order(a.drop_first(), b.drop_first())
    }
}

/// Lexicographic comparison is antisymmetric and is zero exactly on equal
/// texts.
pub proof fn lemma_lex_order_antisym(x: Seq<char>, y: Seq<char>)
    ensures
        lex_order(x, y) == -lex_order(y, x),
        lex_order(x, y) == 0 <==> x == y,
        -1 <= lex_order(x, y) <= 1,
    decreases x.len(),
{
    if x.len() > 0 && y.len() > 0 && x[0] == y[0] {
        lemma_lex_order_antisym(x.drop_first(), y.drop_first());
        if x.drop_first() == y.drop_first() {
            assert(x =~= seq![x[0]] + x.drop_first());
            assert(y =~= seq![y[0]] + y.drop_first());
        }
        if x == y {
            assert(x.drop_first() =~= y.drop_first());
        }
    } else if x.len() == 0 && y.len() == 0 {
        assert(x =~= y);
    } else {
        if x == y {
            assert(x.len() == y.len());
        }
    }
}

/// Numeric comparison of digit strings is antisymmetric.
pub proof fn lemma_numeric_order_antisym(x: Seq<char>, y: Seq<char>)
    ensures
        numeric_order(x, y) == -numeric_order(y, x),
        -1 <= numeric_order(x, y) <= 1,
{
    let xs = x.skip(leading_run(x, '0') as int);
    let ys = y.skip(leading_run(y, '0') as int);
    lemma_lex_order_antisym(xs, ys);
}

/// Two digit strings of equal numeric value and equal length are equal.
pub proof fn lemma_numeric_order_zero(x: Seq<char>, y: Seq<char>)
    requires
        numeric_order(x, y) == 0,
        x.len() == y.len(),
    ensures
        x == y,
{
    lemma_leading_run_bound(x, '0');
    lemma_leading_run_bound(y, '0');
    let zx = leading_run(x, '0');
    let zy = leading_run(y, '0');
    let xs = x.skip(zx as int);
    let ys = y.skip(zy as int);
    lemma_lex_order_antisym(xs, ys);
    assert(xs == ys);
    assert(zx == zy);
    lemma_leading_run_prefix(x, '0');
    lemma_leading_run_prefix(y, '0');
    assert(x =~= x.take(zx as int) + xs);
    assert(y =~= y.take(zy as int) + ys);
    assert(x.take(zx as int) =~= y.take(zy as int));
}

/// The leading run of `c` consists of `c`.
pub proof fn lemma_leading_run_prefix(s: Seq<char>, c: char)
    ensures
        forall|j: int| 0 <= j < leading_run(s, c) ==> #[trigger] s[j] == c,
    decreases s.len(),
{
    if s.len() > 0 && s[0] == c {
        lemma_leading_run_prefix(s.drop_first(), c);
        lemma_leading_run_bound(s.drop_first(), c);
        assert forall|j: int| 0 <= j < leading_run(s, c) implies #[trigger] s[j] == c by {
            if j > 0 {
                assert(s[j] == s.drop_first()[j - 1]);
            }
        }
    }
}

/// Natural comparison is antisymmetric, ranges over -1, 0 and 1, and is
/// zero exactly when the two names are equal.
pub proof fn lemma_natural_order_antisym(a: Seq<char>, b: Seq<char>)
    ensures
        natural_order(a, b) == -natural_order(b, a),
        -1 <= natural_order(a, b) <= 1,
        natural_order(a, b) == 0 <==> a == b,
    decreases a.len() + b.len(),
{
    if a.len() == 0 || b.len() == 0 {
        if a.len() == 0 && b.len() == 0 {
            assert(a =~= b);
        }
    } else if is_digit(a[0]) && is_digit(b[0]) {
        lemma_digit_run_bound(a);
        lemma_digit_run_bound(b);
        let ra = digit_run(a);
        let rb = digit_run(b);
        lemma_numeric_order_antisym(a.take(ra as int), b.take(rb as int));
        if numeric_order(a.take(ra as int), b.take(rb as int)) == 0 && ra == rb {
            lemma_natural_order_antisym(a.skip(ra as int), b.skip(rb as int));
            lemma_numeric_order_zero(a.take(ra as int), b.take(rb as int));
            assert(a =~= a.take(ra as int) + a.skip(ra as int));
            assert(b =~= b.take(rb as int) + b.skip(rb as int));
            if a == b {
                assert(a.skip(ra as int) =~= b.skip(rb as int));
            }
        }
        if a == b {
            assert(ra == rb);
            lemma_lex_order_antisym(
                a.take(ra as int).skip(leading_run(a.take(ra as int), '0') as int),
                b.take(rb as int).skip(leading_run(b.take(rb as int), '0') as int),
            );
        }
    } else if a[0] == b[0] {
        lemma_natural_order_antisym(a.drop_first(), b.drop_first());
        assert(a =~= seq![a[0]] + a.drop_first());
        assert(b =~= seq![b[0]] + b.drop_first());
        if a == b {
            assert(a.drop_first() =~= b.drop_first());
        }
    } else {
        if a == b {
            assert(a[0] == b[0]);
        }
    }
}

/// Lexicographic comparison is transitive.
pub proof fn lemma_lex_order_trans(x: Seq<char>, y: Seq<char>, z: Seq<char>)
    requires
        lex_order(x, y) <= 0,
        lex_order(y, z) <= 0,
    ensures
        lex_order(x, z) <= 0,
    decreases x.len(),
{
    if x.len() > 0 && y.len() > 0 && z.len() > 0 && x[0] == y[0] && y[0] == z[0] {
        lemma_lex_order_trans(x.drop_first(), y.drop_first(), z.drop_first());
    }
}

/// Numeric comparison of digit strings is transitive.
pub proof fn lemma_numeric_order_trans(x: Seq<char>, y: Seq<char>, z: Seq<char>)
    requires
        numeric_order(x, y) <= 0,
        numeric_order(y, z) <= 0,
    ensures
        numeric_order(x, z) <= 0,
{
    let xs = x.skip(leading_run(x, '0') as int);
    let ys = y.skip(leading_run(y, '0') as int);
    let zs = z.skip(leading_run(z, '0') as int);
    if xs.len() == ys.len() && ys.len() == zs.len() {
        lemma_lex_order_trans(xs, ys, zs);
    }
}

/// Natural comparison is transitive: with [`lemma_natural_order_antisym`]
/// it orders names totally.
pub proof fn lemma_natural_order_trans(a: Seq<char>, b: Seq<char>, c: Seq<char>)
    requires
        natural_order(a, b) <= 0,
        natural_order(b, c) <= 0,
    ensures
        natural_order(a, c) <= 0,
    decreases a.len() + b.len() + c.len(),
{
    if a.len() > 0 && b.len() > 0 && c.len() > 0 {
        if is_digit(a[0]) && is_digit(b[0]) && is_digit(c[0]) {
            lemma_digit_run_bound(a);
            lemma_digit_run_bound(b);
            lemma_digit_run_bound(c);
            let ra = digit_run(a);
            let rb = digit_run(b);
            let rc = digit_run(c);
            let x = a.take(ra as int);
            let y = b.take(rb as int);
            let z = c.take(rc as int);
            lemma_numeric_order_antisym(x, y);
            lemma_numeric_order_antisym(y, z);
            lemma_numeric_order_antisym(x, z);
            lemma_numeric_order_trans(x, y, z);
            if numeric_order(x, z) == 0 {
                lemma_numeric_order_trans(y, z, x);
                lemma_numeric_order_trans(z, x, y);
                if ra == rb && rb == rc {
                    lemma_natural_order_trans(a.skip(ra as int), b.skip(rb as int), c.skip(rc as int));
                }
            }
        } else if a[0] == b[0] && b[0] == c[0] {
            lemma_natural_order_trans(a.drop_first(), b.drop_first(), c.drop_first());
        }
    }
}

/// Index just past the run of digits in `cs` starting at `from`.
fn run_end(cs: &Vec<char>, from: usize) -> (end: usize)
    requires
        from <= cs.len(),
    ensures
        end == from + digit_run(cs@.skip(from as int)),
        end <= cs.len(),
{
    proof {
        lemma_digit_run_bound(cs@.skip(from as int));
    }
    let ghost t = cs@.skip(from as int);
    let mut k: usize = from;
    while k < cs.len() && '0' <= cs[k] && cs[k] <= '9'
        invariant
            from <= k <= cs.len(),
            t == cs@.skip(from as int),
            forall|j: int| 0 <= j < k - from ==> is_digit(#[trigger] t[j]),
        decreases cs.len() - k,
    {
        k = k + 1;
    }
    proof {
        lemma_digit_run_char(t, k - from);
    }
    k
}

/// A prefix of length `k` made of digits, followed by a non-digit or the
/// end, makes `k` the digit run.
proof fn lemma_digit_run_char(s: Seq<char>, k: int)
    requires
        0 <= k <= s.len(),
        forall|j: int| 0 <= j < k ==> is_digit(#[trigger] s[j]),
        k == s.len() || !is_digit(s[k]),
    ensures
        digit_run(s) == k,
    decreases k,
{
    if k > 0 {
        assert forall|j: int| 0 <= j < k - 1 implies is_digit(#[trigger] s.drop_first()[j]) by {
            assert(s.drop_first()[j] == s[j + 1]);
        }
        lemma_digit_run_char(s.drop_first(), k - 1);
    } else if s.len() > 0 {
        assert(!is_digit(s[0]));
    }
}

/// Index just past the zeros in `cs` from `from`, stopping at `to`.
fn skip_zeros(cs: &Vec<char>, from: usize, to: usize) -> (k: usize)
    requires
        from <= to <= cs.len(),
    ensures
        k == from + leading_run(cs@.subrange(from as int, to as int), '0'),
        k <= to,
{
    let ghost t = cs@.subrange(from as int, to as int);
    let mut k: usize = from;
    while k < to && cs[k] == '0'
        invariant
            from <= k <= to <= cs.len(),
            t == cs@.subrange(from as int, to as int),
            forall|j: int| 0 <= j < k - from ==> t[j] == '0',
        decreases to - k,
    {
        k = k + 1;
    }
    proof {
        lemma_leading_run(t, '0', k - from);
    }
    k
}

/// Lexicographic comparison of `xs[xi..xi + len]` and `ys[yi..yi + len]`.
fn lex_order_equal_len(xs: &Vec<char>, xi: usize, ys: &Vec<char>, yi: usize, len: usize) -> (r: i8)
    requires
        xi + len <= xs.len(),
        yi + len <= ys.len(),
    ensures
        r == lex_order(xs@.subrange(xi as int, xi + len), ys@.subrange(yi as int, yi + len)),
{
    let ghost x = xs@.subrange(xi as int, xi + len);
    let ghost y = ys@.subrange(yi as int, yi + len);
    let mut k: usize = 0;
    assert(x.skip(0) =~= x);
    assert(y.skip(0) =~= y);
    while k < len
        invariant
            k <= len,
            xi + len <= xs.len(),
            yi + len <= ys.len(),
            x == xs@.subrange(xi as int, xi + len),
            y == ys@.subrange(yi as int, yi + len),
            lex_order(x, y) == lex_order(x.skip(k as int), y.skip(k as int)),
        decreases len - k,
    {
        let cx: char = xs[xi + k];
        let cy: char = ys[yi + k];
        assert(x.skip(k as int)[0] == cx);
        assert(y.skip(k as int)[0] == cy);
        if cx < cy {
            return -1;
        }
        if cx > cy {
            return 1;
        }
        assert(x.skip(k as int).drop_first() =~= x.skip(k + 1));
        assert(y.skip(k as int).drop_first() =~= y.skip(k + 1));
        k = k + 1;
    }
    assert(x.skip(len as int).len() == 0);
    assert(y.skip(len as int).len() == 0);
    0
}

/// Numeric comparison of the digit strings `a[i..ei]` and `b[j..ej]`.
fn numeric_order_exec(a: &Vec<char>, i: usize, ei: usize, b: &Vec<char>, j: usize, ej: usize) -> (r:
    i8)
    requires
        i <= ei <= a.len(),
        j <= ej <= b.len(),
    ensures
        r == numeric_order(a@.subrange(i as int, ei as int), b@.subrange(j as int, ej as int)),
{
    let ghost x = a@.subrange(i as int, ei as int);
    let ghost y = b@.subrange(j as int, ej as int);
    let si: usize = skip_zeros(a, i, ei);
    let sj: usize = skip_zeros(b, j, ej);
    assert(x.skip(si - i) =~= a@.subrange(si as int, ei as int));
    assert(y.skip(sj - j) =~= b@.subrange(sj as int, ej as int));
    let la: usize = ei - si;
    let lb: usize = ej - sj;
    if la < lb {
        -1
    } else if la > lb {
        1
    } else {
        lex_order_equal_len(a, si, b, sj, la)
    }
}

/// Natural comparison (-1, 0 or 1) of two names.
pub fn natural_order_of(a: &str, b: &str) -> (r: i8)
    ensures
        r == natural_order(a@, b@),
{
    NaturalCmp::compare_chars(&char_vec(a), &char_vec(b))
}

/// Natural-order comparison of names.
pub struct NaturalCmp;

impl NaturalCmp {
    /// Compares two names in natural order: digit runs by numeric value,
    /// other characters by code point (see [`natural_order`]).
    pub fn compare(a: &str, b: &str) -> (r: Ordering)
        ensures
            r == Ordering::Less <==> natural_order(a@, b@) < 0,
            r == Ordering::Equal <==> natural_order(a@, b@) == 0,
            r == Ordering::Greater <==> natural_order(a@, b@) > 0,
    {
        let c: i8 = Self::compare_chars(&char_vec(a), &char_vec(b));
        if c < 0 {
            Ordering::Less
        } else if c == 0 {
            Ordering::Equal
        } else {
            Ordering::Greater
        }
    }

    /// Natural comparison (-1, 0 or 1) of two character sequences.
    fn compare_chars(av: &Vec<char>, bv: &Vec<char>) -> (r: i8)
        ensures
            r == natural_order(av@, bv@),
    {
        let ghost a = av@;
        let ghost b = bv@;
        let na: usize = av.len();
        let nb: usize = bv.len();
        let mut i: usize = 0;
        let mut j: usize = 0;
        assert(a.skip(0) =~= a);
        assert(b.skip(0) =~= b);
        loop
            invariant
                a == av@,
                b == bv@,
                na == a.len(),
                nb == b.len(),
                i <= na,
                j <= nb,
                natural_order(a, b) == natural_order(a.skip(i as int), b.skip(j as int)),
            decreases na - i + nb - j,
        {
            let ghost sa = a.skip(i as int);
            let ghost sb = b.skip(j as int);
            if i == na || j == nb {
                if i == na && j == nb {
                    return 0;
                } else if i == na {
                    return -1;
                } else {
                    return 1;
                }
            }
            let ca: char = av[i];
            let cb: char = bv[j];
            assert(sa[0] == ca && sb[0] == cb);
            if '0' <= ca && ca <= '9' && '0' <= cb && cb <= '9' {
                let ei: usize = run_end(av, i);
                let ej: usize = run_end(bv, j);
                let ghost ra = digit_run(sa);
                let ghost rb = digit_run(sb);
                assert(sa.take(ra as int) =~= a.subrange(i as int, ei as int));
                assert(sb.take(rb as int) =~= b.subrange(j as int, ej as int));
                let c: i8 = numeric_order_exec(av, i, ei, bv, j, ej);
                if c != 0 {
                    return c;
                }
                if ei - i < ej - j {
                    return -1;
                }
                if ei - i > ej - j {
                    return 1;
                }
                assert(sa.skip(ra as int) =~= a.skip(ei as int));
                assert(sb.skip(rb as int) =~= b.skip(ej as int));
                i = ei;
                j = ej;
            } else {
                if ca < cb {
                    return -1;
                }
                if ca > cb {
                    return 1;
                }
                assert(sa.drop_first() =~= a.skip(i + 1));
                assert(sb.drop_first() =~= b.skip(j + 1));
                i = i + 1;
                j = j + 1;
            }
        }
    }
}

} // verus!
