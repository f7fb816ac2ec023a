//! Unity release versions: `<major>.<minor>.<patch><channel letter><sequence>`.
use vstd::prelude::*;
use crate::channel::Channel;
use crate::text::{
    all_digits, decimal, digits_value, is_number, lemma_decimal_value, lemma_run_end,
    push_decimal, scan_number,
};

verus! {

/// What a version is: its numeric parts, its channel and the text it was read from.
pub struct VersionView {
    pub major: nat,
    pub minor: nat,
    pub patch: nat,
    pub channel: Channel,
    pub sequence: nat,
    pub raw: Seq<char>,
}

/// `s` reads as a version whose separators stand at `a` (first dot),
/// `b` (second dot) and `c` (channel letter).
pub open spec fn splits_at(s: Seq<char>, a: int, b: int, c: int) -> bool {
    &&& 0 < a && a + 1 < b && b + 1 < c && c + 1 < s.len()
    &&& s[a] == '.' && s[b] == '.'
    &&& Channel::spec_from_letter(s[c]) is Some
    &&& is_number(s.subrange(0, a))
    &&& is_number(s.subrange(a + 1, b))
    &&& is_number(s.subrange(b + 1, c))
    &&& is_number(s.subrange(c + 1, s.len() as int))
}

/// The version that `s` denotes, if it has the form of one.
pub open spec fn parse_text(s: Seq<char>) -> Option<VersionView> {
    if exists|a: int, b: int, c: int| splits_at(s, a, b, c) {
        let (a, b, c) = choose|a: int, b: int, c: int| splits_at(s, a, b, c);
        Some(
            VersionView {
                major: digits_value(s.subrange(0, a)),
                minor: digits_value(s.subrange(a + 1, b)),
                patch: digits_value(s.subrange(b + 1, c)),
                channel: Channel::spec_from_letter(s[c])->Some_0,
                sequence: digits_value(s.subrange(c + 1, s.len() as int)),
                raw: s,
            },
        )
    } else {
        None
    }
}

/// The canonical text of a version, built from its numeric parts and channel.
pub open spec fn format_text(v: VersionView) -> Seq<char> {
    decimal(v.major) + seq!['.'] + decimal(v.minor) + seq!['.'] + decimal(v.patch) + seq![
        v.channel.spec_letter(),
    ] + decimal(v.sequence)
}

/// The release order key: numeric parts first, then channel, then sequence.
pub open spec fn newer(a: VersionView, b: VersionView) -> bool {
    if a.major != b.major {
        a.major > b.major
    } else if a.minor != b.minor {
        a.minor > b.minor
    } else if a.patch != b.patch {
        a.patch > b.patch
    } else if a.channel.spec_rank() != b.channel.spec_rank() {
        a.channel.spec_rank() > b.channel.spec_rank()
    } else {
        a.sequence > b.sequence
    }
}

/// A malformed version string; it holds the text that failed.
#[derive(Debug)]
pub struct ParseError {
    pub input: String,
}

/// A release version. Its fields are only set by `parse` and `new`.
#[derive(Debug)]
pub struct Version {
    major: u64,
    minor: u64,
    patch: u64,
    channel: Channel,
    sequence: u64,
    raw: String,
}

impl View for Version {
    type V = VersionView;

    closed spec fn view(&self) -> VersionView {
        VersionView {
            major: self.major as nat,
            minor: self.minor as nat,
            patch: self.patch as nat,
            channel: self.channel,
            sequence: self.sequence as nat,
            raw: self.raw@,
        }
    }
}

impl Clone for Version {
    fn clone(&self) -> (r: Self)
        ensures
            r == *self,
    {
        Version {
            major: self.major,
            minor: self.minor,
            patch: self.patch,
            channel: self.channel,
            sequence: self.sequence,
            raw: self.raw.clone(),
        }
    }
}

/// Where two readings of one string put their separators, they agree.
proof fn lemma_split_unique(s: Seq<char>, a: int, b: int, c: int, a2: int, b2: int, c2: int)
    requires
        splits_at(s, a, b, c),
        splits_at(s, a2, b2, c2),
    ensures
        a == a2 && b == b2 && c == c2,
{
    lemma_run_end(s, 0, a, a2);
    lemma_run_end(s, a + 1, b, b2);
    lemma_run_end(s, b + 1, c, c2);
}

/// A reading at the given separators is the one that `parse_text` takes.
proof fn lemma_parse_at(s: Seq<char>, a: int, b: int, c: int)
    requires
        splits_at(s, a, b, c),
    ensures
        parse_text(s) == Some(
            VersionView {
                major: digits_value(s.subrange(0, a)),
                minor: digits_value(s.subrange(a + 1, b)),
                patch: digits_value(s.subrange(b + 1, c)),
                channel: Channel::spec_from_letter(s[c])->Some_0,
                sequence: digits_value(s.subrange(c + 1, s.len() as int)),
                raw: s,
            },
        ),
{
    let (a2, b2, c2) = choose|a2: int, b2: int, c2: int| splits_at(s, a2, b2, c2);
    lemma_split_unique(s, a, b, c, a2, b2, c2);
}

/// Parsing undoes formatting: the canonical text of a version reads back as
/// the same release, with that text as its raw form; a version whose raw
/// text is already canonical reads back as itself.
pub proof fn lemma_parse_inverts_format(v: Version)
    ensures
        parse_text(format_text(v@)) == Some(
            VersionView {
                major: v@.major,
                minor: v@.minor,
                patch: v@.patch,
                channel: v@.channel,
                sequence: v@.sequence,
                raw: format_text(v@),
            },
        ),
        v@.raw == format_text(v@) ==> parse_text(format_text(v@)) == Some(v@),
{
    let w = v@;
    let s = format_text(w);
    let dm = decimal(w.major);
    let dn = decimal(w.minor);
    let dp = decimal(w.patch);
    let dq = decimal(w.sequence);
    lemma_decimal_value(w.major);
    lemma_decimal_value(w.minor);
    lemma_decimal_value(w.patch);
    lemma_decimal_value(w.sequence);
    let a = dm.len() as int;
    let b = a + 1 + dn.len();
    let c = b + 1 + dp.len();
    assert(s.subrange(0, a) =~= dm);
    assert(s.subrange(a + 1, b) =~= dn);
    assert(s.subrange(b + 1, c) =~= dp);
    assert(s.subrange(c + 1, s.len() as int) =~= dq);
    assert(s[a] == '.');
    assert(s[b] == '.');
    assert(s[c] == w.channel.spec_letter());
    assert(Channel::spec_from_letter(s[c]) == Some(w.channel));
    assert(splits_at(s, a, b, c));
    lemma_parse_at(s, a, b, c);
}

impl Version {
    /// The numeric parts of a version fit in 64 bits.
    pub proof fn lemma_view_bounds(&self)
        ensures
            self@.major <= u64::MAX,
            self@.minor <= u64::MAX,
            self@.patch <= u64::MAX,
            self@.sequence <= u64::MAX,
    {
    }

    pub fn major(&self) -> (r: u64)
        ensures
            r == self@.major,
    {
        self.major
    }

    pub fn minor(&self) -> (r: u64)
        ensures
            r == self@.minor,
    {
        self.minor
    }

    pub fn patch(&self) -> (r: u64)
        ensures
            r == self@.patch,
    {
        self.patch
    }

    pub fn channel(&self) -> (r: Channel)
        ensures
            r == self@.channel,
    {
        self.channel
    }

    pub fn sequence(&self) -> (r: u64)
        ensures
            r == self@.sequence,
    {
        self.sequence
    }

    /// The text the version was read from (its canonical text when built by `new`).
    pub fn raw(&self) -> (r: &String)
        ensures
            r@ == self@.raw,
    {
        &self.raw
    }

    /// Reads a version string such as `2019.1.2f1`.
    pub fn parse(s: &str) -> (r: Result<Version, ParseError>)
        ensures
            match r {
                Ok(v) => parse_text(s@) == Some(v@),
                Err(e) => parse_text(s@) is None && e.input@ == s@,
            },
    {
        let len = s.unicode_len();
        let (a, major) = scan_number(s, len, 0);
        let (b, minor) = if 0 < a && a < len && s.get_char(a) == '.' {
            scan_number(s, len, a + 1)
        } else {
            (a, None)
        };
        let (c, patch) = if a < b && b - a > 1 && b < len && s.get_char(b) == '.' {
            scan_number(s, len, b + 1)
        } else {
            (b, None)
        };
        let channel = if b < c && c - b > 1 && c < len {
            Channel::from_letter(s.get_char(c))
        } else {
            None
        };
        let (d, sequence) = if channel.is_some() {
            scan_number(s, len, c + 1)
        } else {
            (c, None)
        };
        match (major, minor, patch, channel, sequence) {
            (Some(major), Some(minor), Some(patch), Some(channel), Some(sequence)) => {
                if c + 1 < d && d == len {
                    let ghost sv = s@;
                    proof {
                        lemma_parse_at(sv, a as int, b as int, c as int);
                    }
                    let mut raw = String::new();
                    raw.append(s);
                    return Ok(Version { major, minor, patch, channel, sequence, raw });
                }
            },
            _ => {},
        }
        proof {
            if exists|a2: int, b2: int, c2: int| splits_at(s@, a2, b2, c2) {
                let (a2, b2, c2) = choose|a2: int, b2: int, c2: int| splits_at(s@, a2, b2, c2);
                lemma_run_end(s@, 0, a as int, a2);
                lemma_run_end(s@, a2 + 1, b as int, b2);
                lemma_run_end(s@, b2 + 1, c as int, c2);
                assert(s@.subrange(c2 + 1, len as int).len() > 0);
                assert(all_digits(s@.subrange(c2 + 1, len as int)));
                lemma_run_end(s@, c2 + 1, d as int, len as int);
                assert(false);
            }
        }
        let mut input = String::new();
        input.append(s);
        Err(ParseError { input })
    }

    /// Builds a version from its parts; its text is the canonical one.
    pub fn new(major: u64, minor: u64, patch: u64, channel: Channel, sequence: u64) -> (r: Version)
        ensures
            r@.major == major,
            r@.minor == minor,
            r@.patch == patch,
            r@.channel == channel,
            r@.sequence == sequence,
            r@.raw == format_text(r@),
    {
        let mut raw = String::new();
        push_decimal(&mut raw, major);
        raw.push('.');
        push_decimal(&mut raw, minor);
        raw.push('.');
        push_decimal(&mut raw, patch);
        raw.push(channel.letter());
        push_decimal(&mut raw, sequence);
        let r = Version { major, minor, patch, channel, sequence, raw };
        assert(r@.raw =~= format_text(r@));
        r
    }

    /// The canonical text of the version, e.g. `2019.1.2f1`.
    pub fn format(&self) -> (r: String)
        ensures
            r@ == format_text(self@),
    {
        let mut out = String::new();
        push_decimal(&mut out, self.major);
        out.push('.');
        push_decimal(&mut out, self.minor);
        out.push('.');
        push_decimal(&mut out, self.patch);
        out.push(self.channel.letter());
        push_decimal(&mut out, self.sequence);
        assert(out@ =~= format_text(self@));
        out
    }

    /// Whether `self` comes after `other` in the release order.
    pub fn is_newer_than(&self, other: &Version) -> (r: bool)
        ensures
            r == newer(self@, other@),
    {
        if self.major != other.major {
            self.major > other.major
        } else if self.minor != other.minor {
            self.minor > other.minor
        } else if self.patch != other.patch {
            self.patch > other.patch
        } else if self.channel.rank() != other.channel.rank() {
            self.channel.rank() > other.channel.rank()
        } else {
            self.sequence > other.sequence
        }
    }
}

} // verus!
