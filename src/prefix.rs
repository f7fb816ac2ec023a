//! Version prefixes: a major line, a minor line, or one full release number.
use vstd::prelude::*;
use crate::text::{decimal, push_decimal};
use crate::version::{Version, VersionView};

verus! {

/// A partial version: `2019`, `2019.1` or `2019.1.2`.
#[derive(Clone, Copy, Debug, PartialEq, Eq, Structural, Hash)]
pub enum PrefixSpec {
    Major(u64),
    MajorMinor(u64, u64),
    Full(u64, u64, u64),
}

impl PrefixSpec {
    /// The version agrees with every part that the prefix fixes.
    pub open spec fn spec_matches(self, v: VersionView) -> bool {
        match self {
            PrefixSpec::Major(m) => v.major == m,
            PrefixSpec::MajorMinor(m, n) => v.major == m && v.minor == n,
            PrefixSpec::Full(m, n, p) => v.major == m && v.minor == n && v.patch == p,
        }
    }

    /// The prefix written out, its parts joined by dots.
    pub open spec fn spec_text(self) -> Seq<char> {
        match self {
            PrefixSpec::Major(m) => decimal(m as nat),
            PrefixSpec::MajorMinor(m, n) => decimal(m as nat) + seq!['.'] + decimal(n as nat),
            PrefixSpec::Full(m, n, p) => decimal(m as nat) + seq!['.'] + decimal(n as nat)
                + seq!['.'] + decimal(p as nat),
        }
    }

    pub fn matches(&self, v: &Version) -> (r: bool)
        ensures
            r == self.spec_matches(v@),
    {
        match self {
            PrefixSpec::Major(m) => v.major() == *m,
            PrefixSpec::MajorMinor(m, n) => v.major() == *m && v.minor() == *n,
            PrefixSpec::Full(m, n, p) => v.major() == *m && v.minor() == *n && v.patch() == *p,
        }
    }

    pub fn text(&self) -> (r: String)
        ensures
            r@ == self.spec_text(),
    {
        let mut out = String::new();
        match self {
            PrefixSpec::Major(m) => {
                push_decimal(&mut out, *m);
            },
            PrefixSpec::MajorMinor(m, n) => {
                push_decimal(&mut out, *m);
                out.push('.');
                push_decimal(&mut out, *n);
            },
            PrefixSpec::Full(m, n, p) => {
                push_decimal(&mut out, *m);
                out.push('.');
                push_decimal(&mut out, *n);
                out.push('.');
                push_decimal(&mut out, *p);
            },
        }
        assert(out@ =~= self.spec_text());
        out
    }
}

} // verus!
