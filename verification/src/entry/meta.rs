//! Metadata of registered benchmarks and groups: name, module path and
//! source location.

use vstd::prelude::*;
use vstd::string::StrSliceExecFns;

verus! {

/// Source location of a benchmark or group entry.
#[derive(Clone, Copy, Debug, Default, PartialEq, Eq, PartialOrd, Ord)]
pub struct EntryLocation {
    /// Source file path.
    pub file: &'static str,
    /// Line number.
    pub line: u32,
    /// Column number.
    pub col: u32,
}

/// Metadata common to benchmark and group entries.
#[derive(Clone, Copy, Debug)]
pub struct EntryMeta {
    /// The entry's function or module name (e.g. `"my_bench"`).
    pub raw_name: &'static str,
    /// The entry's module path (e.g. `"my_crate::tests"`).
    pub mod_path: &'static str,
    /// Source location where the entry was defined.
    pub location: EntryLocation,
}

/// Index of the first `::` in `s`, or its length when there is none.
pub open spec fn first_separator(s: Seq<char>) -> nat
    decreases s.len(),
{
    if s.len() < 2 {
        s.len()
    } else if s[0] == ':' && s[1] == ':' {
        0
    } else {
        1 + first_separator(s.drop_first())
    }
}

/// `first_separator` never runs past the end, and a separator stands
/// where it stops short of it.
pub proof fn lemma_first_separator(s: Seq<char>)
    ensures
        first_separator(s) <= s.len(),
        first_separator(s) < s.len() ==> first_separator(s) + 2 <= s.len() && s[first_separator(
            s,
        ) as int] == ':' && s[first_separator(s) + 1 as int] == ':',
    decreases s.len(),
{
    if s.len() >= 2 && !(s[0] == ':' && s[1] == ':') {
        lemma_first_separator(s.drop_first());
    }
}

/// The pieces of `s` between the `::` separators, read left to right
/// (`"a::b::c"` gives `a`, `b`, `c`; text without a separator gives
/// itself).
pub open spec fn split_path(s: Seq<char>) -> Seq<Seq<char>>
    decreases s.len(),
{
    proof {
        lemma_first_separator(s);
    }
    let k = first_separator(s);
    if k >= s.len() {
        seq![s]
    } else {
        seq![s.take(k as int)] + split_path(s.skip(k + 2 as int))
    }
}

/// The texts of string slices.
pub open spec fn piece_views(v: Seq<&'static str>) -> Seq<Seq<char>> {
    v.map_values(|c: &'static str| c@)
}

/// Index of the first `::` in `cs` at or after `from`, or the length.
fn find_separator(cs: &Vec<char>, from: usize) -> (k: usize)
    requires
        from <= cs.len(),
    ensures
        k == from + first_separator(cs@.skip(from as int)),
        k <= cs.len(),
{
    let ghost t = cs@.skip(from as int);
    let mut k: usize = from;
    loop
        invariant
            from <= k <= cs.len(),
            t == cs@.skip(from as int),
            first_separator(t) == (k - from) + first_separator(cs@.skip(k as int)),
        decreases cs.len() - k,
    {
        let ghost u = cs@.skip(k as int);
        if cs.len() - k < 2 {
            return cs.len();
        }
        if cs[k] == ':' && cs[k + 1] == ':' {
            return k;
        }
        assert(u.drop_first() =~= cs@.skip(k + 1));
        k = k + 1;
    }
}

impl EntryMeta {
    /// The components of the module path (`"crate::mod_a::mod_b"` gives
    /// `crate`, `mod_a`, `mod_b`).
    pub fn module_path_components(&self) -> (r: Vec<&'static str>)
        ensures
            piece_views(r@) == split_path(self.mod_path@),
    {
        let path: &'static str = self.mod_path;
        let n: usize = path.unicode_len();
        let mut cs: Vec<char> = Vec::new();
        let mut i: usize = 0;
        while i < n
            invariant
                n == path@.len(),
                i <= n,
                cs@ == path@.take(i as int),
            decreases n - i,
        {
            cs.push(path.get_char(i));
            i = i + 1;
            assert(cs@ =~= path@.take(i as int));
        }
        assert(cs@ =~= path@);
        let ghost s = cs@;
        let mut out: Vec<&'static str> = Vec::new();
        let mut p: usize = 0;
        assert(s.skip(0) =~= s);
        loop
            invariant
                s == cs@,
                s == path@,
                path@ == self.mod_path@,
                n == s.len(),
                p <= n,
                split_path(s) == piece_views(out@) + split_path(
                    s.skip(p as int),
                ),
            decreases n - p,
        {
            let ghost t = s.skip(p as int);
            let k: usize = find_separator(&cs, p);
            proof {
                lemma_first_separator(t);
            }
            let piece: &'static str = path.substring_char(p, if k < n { k } else { n });
            let ghost before = piece_views(out@);
            out.push(piece);
            assert(piece_views(out@) =~= before.push(piece@));
            if k >= n {
                assert(piece@ =~= t);
                assert(split_path(t) == seq![t]);
                assert(split_path(s) =~= piece_views(out@));
                return out;
            }
            assert(piece@ =~= t.take((k - p) as int));
            assert(t.skip((k - p) + 2) =~= s.skip(k + 2));
            assert(split_path(s) =~= piece_views(out@) + split_path(
                s.skip(k + 2),
            ));
            p = k + 2;
        }
    }
}

} // verus!
