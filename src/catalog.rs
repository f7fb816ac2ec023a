//! The catalog: every known release with its build hash.
use vstd::prelude::*;
use crate::text::equal_text;
use crate::prefix::PrefixSpec;
use crate::version::{parse_text, ParseError, Version, VersionView};

verus! {

/// The hash of the last entry whose version text is `raw`.
pub open spec fn release_lookup(s: Seq<(Version, String)>, raw: Seq<char>) -> Option<Seq<char>>
    decreases s.len(),
{
    if s.len() == 0 {
        None
    } else if s.last().0@.raw == raw {
        Some(s.last().1@)
    } else {
        release_lookup(s.drop_last(), raw)
    }
}

/// No two entries share a version text.
pub open spec fn distinct_raw(s: Seq<(Version, String)>) -> bool {
    forall|i: int, j: int|
        0 <= i < j < s.len() ==> (#[trigger] s[i]).0@.raw != (#[trigger] s[j]).0@.raw
}

/// No two entries share a key.
pub open spec fn distinct_keys(s: Seq<(String, String)>) -> bool {
    forall|i: int, j: int| 0 <= i < j < s.len() ==> (#[trigger] s[i]).0@ != (#[trigger] s[j]).0@
}

/// With distinct version texts, the entry that has the text is the one found.
pub proof fn lemma_release_lookup(s: Seq<(Version, String)>, i: int)
    requires
        distinct_raw(s),
        0 <= i < s.len(),
    ensures
        release_lookup(s, s[i].0@.raw) == Some(s[i].1@),
    decreases s.len(),
{
    if i < s.len() - 1 {
        let t = s.drop_last();
        assert(t[i] == s[i]);
        assert(s.last() == s[s.len() - 1]);
        lemma_release_lookup(t, i);
    }
}

/// A text that no entry has is found nowhere.
pub proof fn lemma_release_lookup_absent(s: Seq<(Version, String)>, raw: Seq<char>)
    requires
        forall|i: int| 0 <= i < s.len() ==> (#[trigger] s[i]).0@.raw != raw,
    ensures
        release_lookup(s, raw) is None,
    decreases s.len(),
{
    if s.len() > 0 {
        let t = s.drop_last();
        assert forall|i: int| 0 <= i < t.len() implies (#[trigger] t[i]).0@.raw != raw by {
            assert(t[i] == s[i]);
        }
        assert(s.last() == s[s.len() - 1]);
        lemma_release_lookup_absent(t, raw);
    }
}

/// The versions that match `p`, in catalog order.
pub open spec fn matching(c: Seq<(Version, String)>, p: PrefixSpec) -> Seq<Version>
    decreases c.len(),
{
    if c.len() == 0 {
        Seq::empty()
    } else if p.spec_matches(c.last().0@) {
        matching(c.drop_last(), p).push(c.last().0)
    } else {
        matching(c.drop_last(), p)
    }
}

/// The line of `v`: its major, or its major and minor.
pub open spec fn line_of(v: VersionView, minor_line: bool) -> PrefixSpec {
    if minor_line {
        PrefixSpec::MajorMinor(v.major as u64, v.minor as u64)
    } else {
        PrefixSpec::Major(v.major as u64)
    }
}

/// Some release among the first `n` is on line `p`.
pub open spec fn line_occurs(
    c: Seq<(Version, String)>,
    n: int,
    minor_line: bool,
    p: PrefixSpec,
) -> bool {
    exists|j: int| 0 <= j < n && line_of((#[trigger] c[j]).0@, minor_line) == p
}

/// Some group has key `p`.
pub open spec fn has_group(r: Seq<(PrefixSpec, Vec<Version>)>, p: PrefixSpec) -> bool {
    exists|a: int| 0 <= a < r.len() && (#[trigger] r[a]).0 == p
}

/// `r` groups the releases of `c` by line: one group per line that occurs,
/// each holding the versions of that line in catalog order.
pub open spec fn is_grouping(
    r: Seq<(PrefixSpec, Vec<Version>)>,
    c: Seq<(Version, String)>,
    minor_line: bool,
) -> bool {
    &&& forall|a: int, b: int| 0 <= a < b < r.len() ==> r[a].0 != r[b].0
    &&& forall|p: PrefixSpec|
        #![trigger has_group(r, p)]
        #![trigger line_occurs(c, c.len() as int, minor_line, p)]
        has_group(r, p) <==> line_occurs(c, c.len() as int, minor_line, p)
    &&& forall|a: int| 0 <= a < r.len() ==> (#[trigger] r[a]).1@ == matching(c, r[a].0)
}

/// Clones of the versions that match `p`, in catalog order.
fn versions_matching(releases: &[(Version, String)], p: PrefixSpec) -> (r: Vec<Version>)
    ensures
        r@ == matching(releases@, p),
{
    let mut r: Vec<Version> = Vec::new();
    let n = releases.len();
    let mut i: usize = 0;
    while i < n
        invariant
            n == releases@.len(),
            i <= n,
            r@ == matching(releases@.subrange(0, i as int), p),
        decreases n - i,
    {
        let ghost upto = releases@.subrange(0, i + 1);
        assert(upto.drop_last() =~= releases@.subrange(0, i as int));
        assert(upto.last() == releases@[i as int]);
        if p.matches(&releases[i].0) {
            r.push(releases[i].0.clone());
        }
        i = i + 1;
    }
    assert(releases@.subrange(0, n as int) =~= releases@);
    r
}

/// An immutable set of releases, each with the hash of its build.
#[derive(Debug)]
pub struct Catalog {
    releases: Vec<(Version, String)>,
}

impl Catalog {
    /// The releases, in the order in which they were loaded.
    pub closed spec fn spec_releases(&self) -> Seq<(Version, String)> {
        self.releases@
    }

    /// Version texts are unique and each reads as its version.
    pub open spec fn wf(&self) -> bool {
        &&& distinct_raw(self.spec_releases())
        &&& forall|i: int|
            0 <= i < self.spec_releases().len() ==> parse_text(
                (#[trigger] self.spec_releases()[i]).0@.raw,
            ) == Some(self.spec_releases()[i].0@)
    }

    /// Reads every key of `entries` as a version. Fails on the first key that
    /// does not read, so that no release is silently left out.
    pub fn load(entries: &[(String, String)]) -> (r: Result<Catalog, ParseError>)
        requires
            distinct_keys(entries@),
        ensures
            r is Ok <==> forall|i: int|
                0 <= i < entries@.len() ==> parse_text((#[trigger] entries@[i]).0@) is Some,
            match r {
                Ok(c) => {
                    &&& c.wf()
                    &&& c.spec_releases().len() == entries@.len()
                    &&& forall|i: int|
                        0 <= i < entries@.len() ==> Some((#[trigger] c.spec_releases()[i]).0@)
                            == parse_text(entries@[i].0@) && c.spec_releases()[i].1@
                            == entries@[i].1@
                },
                Err(e) => exists|i: int|
                    0 <= i < entries@.len() && parse_text((#[trigger] entries@[i]).0@) is None
                        && e.input@ == entries@[i].0@ && forall|j: int|
                        0 <= j < i ==> parse_text((#[trigger] entries@[j]).0@) is Some,
            },
    {
        let mut releases: Vec<(Version, String)> = Vec::new();
        let n = entries.len();
        let mut i: usize = 0;
        while i < n
            invariant
                n == entries@.len(),
                i <= n,
                distinct_keys(entries@),
                releases@.len() == i,
                forall|k: int|
                    0 <= k < i ==> Some((#[trigger] releases@[k]).0@) == parse_text(
                        entries@[k].0@,
                    ) && releases@[k].1@ == entries@[k].1@ && releases@[k].0@.raw
                        == entries@[k].0@,
            decreases n - i,
        {
            match Version::parse(entries[i].0.as_str()) {
                Ok(v) => {
                    proof {
                        let pv = parse_text(entries@[i as int].0@);
                        assert(pv is Some);
                        // `parse_text` keeps the text it read
                        assert(pv->Some_0.raw == entries@[i as int].0@) by {
                            let s = entries@[i as int].0@;
                            let (a, b, c) = choose|a: int, b: int, c: int|
                                crate::version::splits_at(s, a, b, c);
                        }
                    }
                    releases.push((v, entries[i].1.clone()));
                },
                Err(e) => {
                    assert forall|j: int| 0 <= j < i implies parse_text(
                        (#[trigger] entries@[j]).0@,
                    ) is Some by {
                        assert(Some(releases@[j].0@) == parse_text(entries@[j].0@));
                    }
                    return Err(e);
                },
            }
            i = i + 1;
        }
        assert forall|k: int| 0 <= k < entries@.len() implies parse_text(
            (#[trigger] entries@[k]).0@,
        ) is Some by {
            assert(Some(releases@[k].0@) == parse_text(entries@[k].0@));
        }
        let c = Catalog { releases };
        assert forall|x: int, y: int|
            0 <= x < y < c.spec_releases().len() implies (#[trigger] c.spec_releases()[x]).0@.raw
            != (#[trigger] c.spec_releases()[y]).0@.raw by {
            assert(entries@[x].0@ != entries@[y].0@);
        }
        assert forall|k: int| 0 <= k < c.spec_releases().len() implies parse_text(
            (#[trigger] c.spec_releases()[k]).0@.raw,
        ) == Some(c.spec_releases()[k].0@) by {
            assert(c.spec_releases()[k].0@.raw == entries@[k].0@);
        }
        Ok(c)
    }

    /// Every release with its hash.
    pub fn all(&self) -> (r: &[(Version, String)])
        ensures
            r@ == self.spec_releases(),
    {
        self.releases.as_slice()
    }

    /// The hash recorded for the exact version text `raw`.
    pub fn exact(&self, raw: &str) -> (r: Option<String>)
        ensures
            match r {
                Some(h) => release_lookup(self.spec_releases(), raw@) == Some(h@),
                None => release_lookup(self.spec_releases(), raw@) is None,
            },
    {
        let mut i: usize = self.releases.len();
        assert(self.spec_releases().subrange(0, i as int) =~= self.spec_releases());
        while i > 0
            invariant
                i <= self.releases@.len(),
                release_lookup(self.spec_releases(), raw@) == release_lookup(
                    self.spec_releases().subrange(0, i as int),
                    raw@,
                ),
            decreases i,
        {
            let ghost before = self.spec_releases().subrange(0, i as int);
            assert(before.drop_last() =~= self.spec_releases().subrange(0, i - 1));
            i = i - 1;
            if equal_text(self.releases[i].0.raw().as_str(), raw) {
                return Some(self.releases[i].1.clone());
            }
        }
        None
    }

    /// The releases grouped by line (major, or major and minor).
    fn grouped(&self, minor_line: bool) -> (r: Vec<(PrefixSpec, Vec<Version>)>)
        ensures
            is_grouping(r@, self.spec_releases(), minor_line),
    {
        let c = self.releases.as_slice();
        let n = c.len();
        let mut r: Vec<(PrefixSpec, Vec<Version>)> = Vec::new();
        let mut i: usize = 0;
        while i < n
            invariant
                n == c@.len(),
                c@ == self.spec_releases(),
                i <= n,
                forall|a: int, b: int| 0 <= a < b < r@.len() ==> r@[a].0 != r@[b].0,
                forall|m: PrefixSpec|
                    #![trigger has_group(r@, m)]
                    #![trigger line_occurs(c@, i as int, minor_line, m)]
                    has_group(r@, m) <==> line_occurs(c@, i as int, minor_line, m),
                forall|a: int|
                    0 <= a < r@.len() ==> (#[trigger] r@[a]).1@ == matching(
                        c@,
                        r@[a].0,
                    ),
            decreases n - i,
        {
            let m = if minor_line {
                PrefixSpec::MajorMinor(c[i].0.major(), c[i].0.minor())
            } else {
                PrefixSpec::Major(c[i].0.major())
            };
            let k = r.len();
            let mut x: usize = 0;
            let mut seen = false;
            while x < k && !seen
                invariant
                    k == r@.len(),
                    x <= k,
                    seen ==> has_group(r@, m),
                    !seen ==> forall|a: int| 0 <= a < x ==> (#[trigger] r@[a]).0 != m,
                decreases k - x,
            {
                if r[x].0 == m {
                    seen = true;
                    assert(r@[x as int].0 == m);
                }
                x = x + 1;
            }
            let ghost before = r@;
            assert(line_occurs(c@, i + 1, minor_line, m)) by {
                assert(line_of(c@[i as int].0@, minor_line) == m);
            }
            if !seen {
                let group = versions_matching(c, m);
                r.push((m, group));
                proof {
                    assert(r@[k as int].0 == m);
                    assert forall|q: PrefixSpec|
                        #![trigger has_group(r@, q)]
                        #![trigger line_occurs(c@, i + 1, minor_line, q)]
                        has_group(r@, q) <==> line_occurs(c@, i + 1, minor_line, q) by {
                        if has_group(r@, q) {
                            let a = choose|a: int| 0 <= a < r@.len() && (#[trigger] r@[a]).0 == q;
                            if a < k {
                                assert(before[a].0 == q);
                                assert(has_group(before, q));
                                let j = choose|j: int| 0 <= j < i && line_of((#[trigger] c@[j]).0@, minor_line) == q;
                                assert(line_occurs(c@, i + 1, minor_line, q));
                            }
                        }
                        if line_occurs(c@, i + 1, minor_line, q) {
                            let j = choose|j: int| 0 <= j < i + 1 && line_of((#[trigger] c@[j]).0@, minor_line) == q;
                            if j < i {
                                assert(line_occurs(c@, i as int, minor_line, q));
                                assert(has_group(before, q));
                                let a = choose|a: int| 0 <= a < before.len() && (#[trigger] before[a]).0 == q;
                                assert(r@[a] == before[a]);
                            }
                        }
                    }
                    assert forall|a: int| 0 <= a < r@.len() implies (#[trigger] r@[a]).1@ == matching(
                        c@,
                        r@[a].0,
                    ) by {
                        if a < k {
                            assert(r@[a] == before[a]);
                        }
                    }
                }
            } else {
                proof {
                    assert forall|q: PrefixSpec|
                        #![trigger has_group(r@, q)]
                        #![trigger line_occurs(c@, i + 1, minor_line, q)]
                        has_group(r@, q) <==> line_occurs(c@, i + 1, minor_line, q) by {
                        if has_group(r@, q) {
                            assert(line_occurs(c@, i as int, minor_line, q));
                            let j = choose|j: int| 0 <= j < i && line_of((#[trigger] c@[j]).0@, minor_line) == q;
                        }
                        if line_occurs(c@, i + 1, minor_line, q) {
                            let j = choose|j: int| 0 <= j < i + 1 && line_of((#[trigger] c@[j]).0@, minor_line) == q;
                            if j < i {
                                assert(line_occurs(c@, i as int, minor_line, q));
                            }
                        }
                    }
                }
            }
            i = i + 1;
        }
        r
    }


    /// The releases grouped by major: each major that occurs, once, keyed by
    /// its prefix, with its versions in catalog order.
    pub fn by_major(&self) -> (r: Vec<(PrefixSpec, Vec<Version>)>)
        ensures
            is_grouping(r@, self.spec_releases(), false),
    {
        self.grouped(false)
    }

    /// The releases grouped by major and minor: each minor line that occurs,
    /// once, keyed by its prefix, with its versions in catalog order.
    pub fn by_major_minor(&self) -> (r: Vec<(PrefixSpec, Vec<Version>)>)
        ensures
            is_grouping(r@, self.spec_releases(), true),
    {
        self.grouped(true)
    }
}

} // verus!
