//! Release channels and their textual forms.
use vstd::prelude::*;
use crate::text::equal_text;

verus! {

/// The maturity of a release.
#[derive(Clone, Copy, Debug, PartialEq, Eq, Structural, Hash)]
pub enum Channel {
    Final,
    Patch,
    Beta,
    Alpha,
}

/// The four channels, in the order in which lookup tables list them.
pub open spec fn all_channels() -> Seq<Channel> {
    seq![Channel::Final, Channel::Patch, Channel::Beta, Channel::Alpha]
}

impl Channel {
    /// The letter that marks the channel in a version string.
    pub open spec fn spec_letter(self) -> char {
        match self {
            Channel::Final => 'f',
            Channel::Patch => 'p',
            Channel::Beta => 'b',
            Channel::Alpha => 'a',
        }
    }

    pub open spec fn spec_from_letter(c: char) -> Option<Channel> {
        if c == 'f' {
            Some(Channel::Final)
        } else if c == 'p' {
            Some(Channel::Patch)
        } else if c == 'b' {
            Some(Channel::Beta)
        } else if c == 'a' {
            Some(Channel::Alpha)
        } else {
            None
        }
    }

    /// Position in the order of channels: Alpha < Beta < Patch < Final.
    pub open spec fn spec_rank(self) -> nat {
        match self {
            Channel::Alpha => 0,
            Channel::Beta => 1,
            Channel::Patch => 2,
            Channel::Final => 3,
        }
    }

    /// The lower-case name used in request paths.
    pub open spec fn spec_name(self) -> Seq<char> {
        match self {
            Channel::Final => seq!['f', 'i', 'n', 'a', 'l'],
            Channel::Patch => seq!['p', 'a', 't', 'c', 'h'],
            Channel::Beta => seq!['b', 'e', 't', 'a'],
            Channel::Alpha => seq!['a', 'l', 'p', 'h', 'a'],
        }
    }

    pub open spec fn spec_from_name(s: Seq<char>) -> Option<Channel> {
        if s == Channel::Final.spec_name() {
            Some(Channel::Final)
        } else if s == Channel::Patch.spec_name() {
            Some(Channel::Patch)
        } else if s == Channel::Beta.spec_name() {
            Some(Channel::Beta)
        } else if s == Channel::Alpha.spec_name() {
            Some(Channel::Alpha)
        } else {
            None
        }
    }

    pub fn letter(&self) -> (r: char)
        ensures
            r == self.spec_letter(),
    {
        match self {
            Channel::Final => 'f',
            Channel::Patch => 'p',
            Channel::Beta => 'b',
            Channel::Alpha => 'a',
        }
    }

    pub fn from_letter(c: char) -> (r: Option<Channel>)
        ensures
            r == Channel::spec_from_letter(c),
    {
        if c == 'f' {
            Some(Channel::Final)
        } else if c == 'p' {
            Some(Channel::Patch)
        } else if c == 'b' {
            Some(Channel::Beta)
        } else if c == 'a' {
            Some(Channel::Alpha)
        } else {
            None
        }
    }

    pub fn rank(&self) -> (r: u8)
        ensures
            r as nat == self.spec_rank(),
    {
        match self {
            Channel::Alpha => 0,
            Channel::Beta => 1,
            Channel::Patch => 2,
            Channel::Final => 3,
        }
    }

    pub fn name(&self) -> (r: &'static str)
        ensures
            r@ == self.spec_name(),
    {
        proof {
            reveal_strlit("final");
            reveal_strlit("patch");
            reveal_strlit("beta");
            reveal_strlit("alpha");
        }
        match self {
            Channel::Final => "final",
            Channel::Patch => "patch",
            Channel::Beta => "beta",
            Channel::Alpha => "alpha",
        }
    }

    /// Reads a channel from its lower-case name, as a request path gives it.
    pub fn from_name(s: &str) -> (r: Option<Channel>)
        ensures
            r == Channel::spec_from_name(s@),
    {
        let candidates = [Channel::Final, Channel::Patch, Channel::Beta, Channel::Alpha];
        let mut k: usize = 0;
        while k < 4
            invariant
                candidates@ == all_channels(),
                forall|j: int| 0 <= j < k ==> s@ != (#[trigger] all_channels()[j]).spec_name(),
            decreases 4 - k,
        {
            let c = candidates[k];
            let n = c.name();
            if equal_text(s, n) {
                return Some(c);
            }
            k = k + 1;
        }
        None
    }
}

} // verus!
