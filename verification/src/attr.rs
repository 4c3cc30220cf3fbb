//! Acceptance of the options written in `#[bench(...)]` and
//! `#[bench_group(...)]` attributes.
//!
//! The attribute's tokens are read by the macro crate; each option it
//! finds (its name, and what kind of value follows) is handed to
//! [`AttrOptionsCheck::accept`], which decides whether the option is
//! taken and what it becomes, or which error message refuses it.

use vstd::prelude::*;

use crate::cli::values::{starts_with, text_eq};
use crate::text::{char_vec, push_chars, push_str};

verus! {

/// Which attribute macro is being expanded.
#[derive(Clone, Copy, Debug, PartialEq, Eq, Structural)]
pub enum Macro {
    /// `#[bench]`, on a function with this many parameters.
    Bench { param_count: usize },
    /// `#[bench_group]`.
    Group,
}

/// The display name of a macro.
pub open spec fn macro_name(m: Macro) -> Seq<char> {
    match m {
        Macro::Bench { .. } => "bench"@,
        Macro::Group => "bench_group"@,
    }
}

impl Macro {
    /// Display name for error messages.
    pub fn name(self) -> (r: &'static str)
        ensures
            r@ == macro_name(self),
    {
        match self {
            Macro::Bench { .. } => "bench",
            Macro::Group => "bench_group",
        }
    }
}

/// What follows an option's name in the attribute.
#[derive(Clone, Copy, Debug, PartialEq, Eq, Structural)]
pub enum OptionValue {
    /// No `= value` (a flag such as `ignore`).
    Missing,
    /// `= [..]`, an array literal.
    Array,
    /// `= expr` with any other expression.
    Other,
}

/// What an accepted option becomes.
#[derive(Clone, Copy, Debug, PartialEq, Eq, Structural)]
pub enum AttrOption {
    /// `crate = path`: the path of the benchmarking crate.
    Crate,
    /// `args = [..]`: the arguments a benchmark runs with.
    Args,
    /// Any other name: a field of the benchmark options; with no value it
    /// is set to `true`.
    BenchOption { defaults_to_true: bool },
}

/// An option name without a leading `r#` (raw identifier) marker.
pub open spec fn unraw(ident: Seq<char>) -> Seq<char> {
    if ident.len() >= 2 && ident.take(2) == "r#"@ {
        ident.skip(2)
    } else {
        ident
    }
}

/// The error for an option given twice.
pub open spec fn repeated_message(m: Macro, name: Seq<char>) -> Seq<char> {
    "repeated '"@ + macro_name(m) + "' option '"@ + name + "'"@
}

/// The error for an option the macro does not take.
pub open spec fn unsupported_message(m: Macro, name: Seq<char>) -> Seq<char> {
    "unsupported '"@ + macro_name(m) + "' option '"@ + name + "'"@
}

/// The error for an option name that is a path rather than a single
/// identifier.
pub open spec fn unsupported_path_message(m: Macro) -> Seq<char> {
    "unsupported '"@ + macro_name(m) + "' option"@
}

/// The error for `args` on a benchmark function without an argument.
pub open spec fn argument_required_message(m: Macro, name: Seq<char>) -> Seq<char> {
    "function argument required for '"@ + macro_name(m) + "' option '"@ + name + "'"@
}

/// The error for an `args` value that is not an array literal.
pub open spec fn args_array_message() -> Seq<char> {
    "'args' must be an array literal (e.g. args = [1, 2, 3])"@
}

/// The options of one attribute seen so far.
pub struct AttrOptionsCheck {
    target: Macro,
    seen_crate: bool,
    seen_args: bool,
    seen_options: Vec<String>,
}

/// The decision on one option, given the options seen before it.
pub open spec fn decide(
    target: Macro,
    seen_crate: bool,
    seen_args: bool,
    seen_options: Seq<Seq<char>>,
    ident: Option<Seq<char>>,
    value: OptionValue,
) -> Result<AttrOption, Seq<char>> {
    match ident {
        None => Err(unsupported_path_message(target)),
        Some(raw) => {
            let name = unraw(raw);
            if name == "crate"@ {
                if seen_crate {
                    Err(repeated_message(target, name))
                } else {
                    Ok(AttrOption::Crate)
                }
            } else if name == "args"@ {
                match target {
                    Macro::Group => Err(unsupported_message(target, name)),
                    Macro::Bench { param_count } => if !(param_count == 1 || param_count == 2) {
                        Err(argument_required_message(target, name))
                    } else if seen_args {
                        Err(repeated_message(target, name))
                    } else if value != OptionValue::Array {
                        Err(args_array_message())
                    } else {
                        Ok(AttrOption::Args)
                    },
                }
            } else if seen_options.contains(raw) {
                Err(repeated_message(target, name))
            } else {
                Ok(AttrOption::BenchOption { defaults_to_true: value == OptionValue::Missing })
            }
        },
    }
}

impl AttrOptionsCheck {
    /// The macro whose attribute is checked.
    pub closed spec fn target(&self) -> Macro {
        self.target
    }

    /// Whether `crate` was accepted already.
    pub closed spec fn seen_crate(&self) -> bool {
        self.seen_crate
    }

    /// Whether `args` was accepted already.
    pub closed spec fn seen_args(&self) -> bool {
        self.seen_args
    }

    /// The option names (as written) accepted as benchmark options.
    pub closed spec fn seen_options(&self) -> Seq<Seq<char>> {
        self.seen_options@.map_values(|s: String| s@)
    }

    /// The check before any option of an attribute of `target`.
    pub fn new(target: Macro) -> (r: Self)
        ensures
            r.target() == target,
            !r.seen_crate(),
            !r.seen_args(),
            r.seen_options() == Seq::<Seq<char>>::empty(),
    {
        let r = AttrOptionsCheck { target, seen_crate: false, seen_args: false, seen_options: Vec::new() };
        assert(r.seen_options() =~= Seq::<Seq<char>>::empty());
        r
    }

    /// Decides on the next option: `ident` is its name when it is a
    /// single identifier (`None` for a path), `value` what follows it.
    pub fn accept(&mut self, ident: Option<&str>, value: OptionValue) -> (r: Result<AttrOption, String>)
        ensures
            final(self).target() == old(self).target(),
            match decide(
                old(self).target(),
                old(self).seen_crate(),
                old(self).seen_args(),
                old(self).seen_options(),
                match ident {
                    Some(i) => Some(i@),
                    None => None,
                },
                value,
            ) {
                Ok(o) => r == Ok::<AttrOption, String>(o) && final(self).seen_crate() == (old(
                    self,
                ).seen_crate() || o == AttrOption::Crate) && final(self).seen_args() == (old(
                    self,
                ).seen_args() || o == AttrOption::Args) && final(self).seen_options() == (
                if o is BenchOption {
                    old(self).seen_options().push(ident.unwrap()@)
                } else {
                    old(self).seen_options()
                }),
                Err(e) => r matches Err(msg) && msg@ == e,
            },
    {
        let target: Macro = self.target;
        let raw: &str = match ident {
            Some(i) => i,
            None => {
                let mut m: String = String::new();
                push_str(&mut m, "unsupported '");
                push_str(&mut m, target.name());
                push_str(&mut m, "' option");
                return Err(m);
            },
        };
        let cs: Vec<char> = char_vec(raw);
        let start: usize = if starts_with(&cs, "r#") { 2 } else { 0 };
        proof {
            reveal_strlit("r#");
        }
        let mut name_chars: Vec<char> = Vec::new();
        let mut k: usize = start;
        while k < cs.len()
            invariant
                start <= k <= cs.len(),
                name_chars@ == cs@.subrange(start as int, k as int),
            decreases cs.len() - k,
        {
            name_chars.push(cs[k]);
            k = k + 1;
            assert(name_chars@ =~= cs@.subrange(start as int, k as int));
        }
        let ghost name = unraw(raw@);
        assert(name =~= name_chars@);
        if text_eq(&name_chars, "crate") {
            if self.seen_crate {
                return Err(Self::message(target, &name_chars, "repeated '"));
            }
            self.seen_crate = true;
            return Ok(AttrOption::Crate);
        }
        if text_eq(&name_chars, "args") {
            match target {
                Macro::Group => {
                    return Err(Self::message(target, &name_chars, "unsupported '"));
                },
                Macro::Bench { param_count } => {
                    if !(param_count == 1 || param_count == 2) {
                        return Err(
                            Self::message(target, &name_chars, "function argument required for '"),
                        );
                    }
                    if self.seen_args {
                        return Err(Self::message(target, &name_chars, "repeated '"));
                    }
                    if value != OptionValue::Array {
                        let mut m: String = String::new();
                        push_str(&mut m, "'args' must be an array literal (e.g. args = [1, 2, 3])");
                        return Err(m);
                    }
                    self.seen_args = true;
                    return Ok(AttrOption::Args);
                },
            }
        }
        let mut i: usize = 0;
        let ghost seen = self.seen_options();
        while i < self.seen_options.len()
            invariant
                seen == self.seen_options@.map_values(|s: String| s@),
                seen == old(self).seen_options(),
                *self == *old(self),
                target == old(self).target(),
                name_chars@ == unraw(raw@),
                name_chars@ != "crate"@,
                name_chars@ != "args"@,
                ident == Some(raw),
                i <= self.seen_options.len(),
                forall|j: int| 0 <= j < i ==> seen[j] != raw@,
            decreases self.seen_options.len() - i,
        {
            let existing: Vec<char> = char_vec(self.seen_options[i].as_str());
            assert(seen[i as int] == existing@);
            if text_eq(&existing, raw) {
                assert(seen.contains(raw@)) by {
                    assert(seen[i as int] == raw@);
                }
                return Err(Self::message(target, &name_chars, "repeated '"));
            }
            i = i + 1;
        }
        assert(!seen.contains(raw@)) by {
            if seen.contains(raw@) {
                let j = choose|j: int| 0 <= j < seen.len() && seen[j] == raw@;
                assert(seen[j] != raw@);
            }
        }
        let mut owned: String = String::new();
        push_str(&mut owned, raw);
        let ghost before = self.seen_options@;
        self.seen_options.push(owned);
        assert(self.seen_options() =~= seen.push(raw@)) by {
            assert(self.seen_options@ =~= before.push(owned));
        }
        Ok(AttrOption::BenchOption { defaults_to_true: value == OptionValue::Missing })
    }

    /// `pre`, the macro name, `' option '`, the option name and `'`.
    fn message(target: Macro, name: &Vec<char>, pre: &str) -> (r: String)
        ensures
            r@ == pre@ + macro_name(target) + "' option '"@ + name@ + "'"@,
    {
        let mut m: String = String::new();
        push_str(&mut m, pre);
        push_str(&mut m, target.name());
        push_str(&mut m, "' option '");
        push_chars(&mut m, name, 0, name.len());
        push_str(&mut m, "'");
        assert(name@.subrange(0, name@.len() as int) =~= name@);
        m
    }
}

} // verus!
