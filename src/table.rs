//! The lookup table: exact version texts and (prefix, channel) keys, each
//! mapped to a build hash.
use vstd::prelude::*;
use crate::catalog::{lemma_release_lookup, lemma_release_lookup_absent, release_lookup, Catalog};
use crate::channel::Channel;
use crate::text::equal_text;
use crate::prefix::PrefixSpec;
use crate::resolve::{entry, holds, lemma_resolution_ignores_order, same_entries, resolution, lemma_best_exists, resolve, resolved_hash, selects, Resolution};
use crate::version::Version;

verus! {

/// A compatibility key: a prefix with a channel, or a bare prefix (no channel).
#[derive(Clone, Copy, Debug, PartialEq, Eq, Structural, Hash)]
pub struct CompatKey {
    pub prefix: PrefixSpec,
    pub channel: Option<Channel>,
}

impl CompatKey {
    /// The key as a request path below `/version/`, e.g. `2019.1/beta` or `2019.1`.
    pub open spec fn spec_path(self) -> Seq<char> {
        match self.channel {
            Some(ch) => self.prefix.spec_text() + seq!['/'] + ch.spec_name(),
            None => self.prefix.spec_text(),
        }
    }

    pub fn path(&self) -> (r: String)
        ensures
            r@ == self.spec_path(),
    {
        let mut out = self.prefix.text();
        match self.channel {
            Some(ch) => {
                out.push('/');
                out.append(ch.name());
            },
            None => {},
        }
        out
    }
}

/// The value of the last entry with key `k`.
pub open spec fn text_lookup(s: Seq<(String, String)>, k: Seq<char>) -> Option<Seq<char>>
    decreases s.len(),
{
    if s.len() == 0 {
        None
    } else if s.last().0@ == k {
        Some(s.last().1@)
    } else {
        text_lookup(s.drop_last(), k)
    }
}

/// The value of the last entry with key `k`.
pub open spec fn key_lookup(s: Seq<(CompatKey, String)>, k: CompatKey) -> Option<Seq<char>>
    decreases s.len(),
{
    if s.len() == 0 {
        None
    } else if s.last().0 == k {
        Some(s.last().1@)
    } else {
        key_lookup(s.drop_last(), k)
    }
}

/// What the table holds for a compatibility key: the hash that resolution
/// picks for the key's channel, and for a bare prefix the one on `Final`.
pub open spec fn expected_hash(c: Seq<(Version, String)>, k: CompatKey) -> Option<Seq<char>> {
    match k.channel {
        Some(ch) => resolved_hash(c, k.prefix, ch),
        None => resolved_hash(c, k.prefix, Channel::Final),
    }
}

proof fn lemma_key_lookup_push(s: Seq<(CompatKey, String)>, e: (CompatKey, String), k: CompatKey)
    ensures
        key_lookup(s.push(e), k) == (if e.0 == k {
            Some(e.1@)
        } else {
            key_lookup(s, k)
        }),
{
    assert(s.push(e).drop_last() =~= s);
}

/// No two entries share a key.
pub open spec fn distinct_compat_keys(s: Seq<(CompatKey, String)>) -> bool {
    forall|i: int, j: int| 0 <= i < j < s.len() ==> (#[trigger] s[i]).0 != (#[trigger] s[j]).0
}

/// A key that nothing is found for is on no entry.
proof fn lemma_key_lookup_none(s: Seq<(CompatKey, String)>, k: CompatKey)
    requires
        key_lookup(s, k) is None,
    ensures
        forall|i: int| 0 <= i < s.len() ==> (#[trigger] s[i]).0 != k,
    decreases s.len(),
{
    if s.len() > 0 {
        let t = s.drop_last();
        lemma_key_lookup_none(t, k);
        assert forall|i: int| 0 <= i < s.len() implies (#[trigger] s[i]).0 != k by {
            if i < t.len() {
                assert(t[i] == s[i]);
            }
        }
    }
}

/// Adding an entry whose key is not there yet keeps the keys distinct.
proof fn lemma_push_distinct(s: Seq<(CompatKey, String)>, e: (CompatKey, String))
    requires
        distinct_compat_keys(s),
        key_lookup(s, e.0) is None,
    ensures
        distinct_compat_keys(s.push(e)),
{
    lemma_key_lookup_none(s, e.0);
    let t = s.push(e);
    assert forall|i: int, j: int| 0 <= i < j < t.len() implies (#[trigger] t[i]).0 != (
    #[trigger] t[j]).0 by {
        assert(t[i] == s[i]);
        if j < s.len() {
            assert(t[j] == s[j]);
        }
    }
}

/// Two entry lists with the same texts and hashes, entry by entry, answer alike.
proof fn lemma_text_lookup_mirrors(t: Seq<(String, String)>, c: Seq<(Version, String)>, k: Seq<char>)
    requires
        t.len() == c.len(),
        forall|i: int|
            0 <= i < t.len() ==> (#[trigger] t[i]).0@ == c[i].0@.raw && t[i].1@ == c[i].1@,
    ensures
        text_lookup(t, k) == release_lookup(c, k),
    decreases t.len(),
{
    if t.len() > 0 {
        let t2 = t.drop_last();
        let c2 = c.drop_last();
        assert forall|i: int| 0 <= i < t2.len() implies (#[trigger] t2[i]).0@ == c2[i].0@.raw
            && t2[i].1@ == c2[i].1@ by {
            assert(t2[i] == t[i]);
            assert(c2[i] == c[i]);
        }
        assert(t.last() == t[t.len() - 1]);
        assert(c.last() == c[c.len() - 1]);
        lemma_text_lookup_mirrors(t2, c2, k);
    }
}

/// A prefix that a version matches is one of the three that it has.
proof fn lemma_prefix_of(p: PrefixSpec, v: Version)
    requires
        p.spec_matches(v@),
    ensures
        p == PrefixSpec::Major(v@.major as u64) || p == PrefixSpec::MajorMinor(
            v@.major as u64,
            v@.minor as u64,
        ) || p == PrefixSpec::Full(v@.major as u64, v@.minor as u64, v@.patch as u64),
{
    v.lemma_view_bounds();
}

/// Adds `p` to `prefixes` unless it is there already.
fn add_prefix(prefixes: &mut Vec<PrefixSpec>, p: PrefixSpec)
    requires
        forall|i: int, j: int|
            0 <= i < j < old(prefixes)@.len() ==> old(prefixes)@[i] != old(prefixes)@[j],
    ensures
        forall|i: int, j: int|
            0 <= i < j < final(prefixes)@.len() ==> final(prefixes)@[i] != final(prefixes)@[j],
        final(prefixes)@.contains(p),
        forall|q: PrefixSpec| old(prefixes)@.contains(q) ==> final(prefixes)@.contains(q),
{
    let n = prefixes.len();
    let mut i: usize = 0;
    let mut found = false;
    while i < n && !found
        invariant
            n == prefixes@.len(),
            prefixes@ == old(prefixes)@,
            i <= n,
            found ==> prefixes@.contains(p),
            !found ==> forall|j: int| 0 <= j < i ==> prefixes@[j] != p,
        decreases n - i,
    {
        if prefixes[i] == p {
            found = true;
            assert(prefixes@[i as int] == p);
        }
        i = i + 1;
    }
    if !found {
        prefixes.push(p);
        assert(prefixes@[n as int] == p);
        assert forall|q: PrefixSpec| old(prefixes)@.contains(q) implies prefixes@.contains(q) by {
            let x = choose|x: int| 0 <= x < old(prefixes)@.len() && old(prefixes)@[x] == q;
            assert(prefixes@[x] == q);
        }
    }
}

/// Adds the entry of `p` on `ch` (and, on `Final`, the bare entry of `p`)
/// when resolution finds a release.
fn add_channel(
    compat: &mut Vec<(CompatKey, String)>,
    releases: &[(Version, String)],
    p: PrefixSpec,
    ch: Channel,
)
    requires
        distinct_compat_keys(old(compat)@),
        key_lookup(old(compat)@, CompatKey { prefix: p, channel: Some(ch) }) is None,
        ch == Channel::Final ==> key_lookup(old(compat)@, CompatKey { prefix: p, channel: None })
            is None,
    ensures
        distinct_compat_keys(final(compat)@),
        key_lookup(final(compat)@, CompatKey { prefix: p, channel: Some(ch) }) == resolved_hash(
            releases@,
            p,
            ch,
        ),
        ch == Channel::Final ==> key_lookup(final(compat)@, CompatKey { prefix: p, channel: None })
            == resolved_hash(releases@, p, ch),
        forall|k: CompatKey|
            k != (CompatKey { prefix: p, channel: Some(ch) }) && (ch != Channel::Final || k != (
            CompatKey { prefix: p, channel: None })) ==> key_lookup(final(compat)@, k)
                == key_lookup(old(compat)@, k),
{
    match resolve(releases, p, ch) {
        Resolution::Found(_, h) => {
            let ghost before = compat@;
            let key = CompatKey { prefix: p, channel: Some(ch) };
            let hc = h.clone();
            proof {
                lemma_push_distinct(before, (key, hc));
            }
            compat.push((key, hc));
            proof {
                assert forall|k: CompatKey| true implies key_lookup(compat@, k) == (if key == k {
                    Some(h@)
                } else {
                    key_lookup(before, k)
                }) by {
                    lemma_key_lookup_push(before, (key, hc), k);
                }
            }
            if ch == Channel::Final {
                let ghost middle = compat@;
                let bare = CompatKey { prefix: p, channel: None };
                proof {
                    lemma_push_distinct(middle, (bare, h));
                }
                compat.push((bare, h));
                proof {
                    assert forall|k: CompatKey| true implies key_lookup(compat@, k) == (if bare
                        == k {
                        Some(h@)
                    } else {
                        key_lookup(middle, k)
                    }) by {
                        lemma_key_lookup_push(middle, (bare, h), k);
                    }
                }
            }
        },
        Resolution::NoMatch => {},
    }
}

/// Adds every entry whose key has prefix `p`.
fn add_prefix_entries(
    compat: &mut Vec<(CompatKey, String)>,
    releases: &[(Version, String)],
    p: PrefixSpec,
)
    requires
        distinct_compat_keys(old(compat)@),
        forall|k: CompatKey| k.prefix == p ==> key_lookup(old(compat)@, k) is None,
    ensures
        distinct_compat_keys(final(compat)@),
        forall|k: CompatKey|
            key_lookup(final(compat)@, k) == if k.prefix == p {
                expected_hash(releases@, k)
            } else {
                key_lookup(old(compat)@, k)
            },
{
    let ghost start = compat@;
    add_channel(compat, releases, p, Channel::Final);
    add_channel(compat, releases, p, Channel::Patch);
    add_channel(compat, releases, p, Channel::Beta);
    add_channel(compat, releases, p, Channel::Alpha);
    assert forall|k: CompatKey|
        key_lookup(compat@, k) == if k.prefix == p {
            expected_hash(releases@, k)
        } else {
            key_lookup(start, k)
        } by {
        if k.prefix == p {
            match k.channel {
                Some(ch) => {},
                None => {},
            }
        }
    }
}

/// The served table. Built once from a catalog, read-only afterwards.
#[derive(Debug)]
pub struct LookupTable {
    exact: Vec<(String, String)>,
    compatible: Vec<(CompatKey, String)>,
}

impl LookupTable {
    pub closed spec fn spec_exact(&self) -> Seq<(String, String)> {
        self.exact@
    }

    pub closed spec fn spec_compatible(&self) -> Seq<(CompatKey, String)> {
        self.compatible@
    }

    /// The table is the one that `build` makes of the catalog.
    pub open spec fn built_from(&self, catalog: &Catalog) -> bool {
        let c = catalog.spec_releases();
        &&& self.spec_exact().len() == c.len()
        &&& forall|i: int|
            0 <= i < c.len() ==> (#[trigger] self.spec_exact()[i]).0@ == c[i].0@.raw
                && self.spec_exact()[i].1@ == c[i].1@
        &&& forall|raw: Seq<char>| text_lookup(self.spec_exact(), raw) == release_lookup(c, raw)
        &&& forall|k: CompatKey| key_lookup(self.spec_compatible(), k) == expected_hash(c, k)
        &&& distinct_compat_keys(self.spec_compatible())
    }

    /// Copies the catalog's exact entries, and resolves every prefix that
    /// occurs in it (major, major.minor, major.minor.patch) on every channel.
    pub fn build(catalog: &Catalog) -> (r: LookupTable)
        ensures
            r.built_from(catalog),
    {
        let releases = catalog.all();
        let n = releases.len();
        let mut exact: Vec<(String, String)> = Vec::new();
        let mut prefixes: Vec<PrefixSpec> = Vec::new();
        let mut i: usize = 0;
        while i < n
            invariant
                n == releases@.len(),
                releases@ == catalog.spec_releases(),
                i <= n,
                exact@.len() == i,
                forall|j: int|
                    0 <= j < i ==> (#[trigger] exact@[j]).0@ == releases@[j].0@.raw
                        && exact@[j].1@ == releases@[j].1@,
                forall|a: int, b: int| 0 <= a < b < prefixes@.len() ==> prefixes@[a] != prefixes@[b],
                forall|j: int, p: PrefixSpec|
                    0 <= j < i && #[trigger] p.spec_matches(releases@[j].0@) ==> prefixes@.contains(p),
            decreases n - i,
        {
            let v = &releases[i].0;
            exact.push((v.raw().clone(), releases[i].1.clone()));
            let ghost old_prefixes = prefixes@;
            add_prefix(&mut prefixes, PrefixSpec::Major(v.major()));
            add_prefix(&mut prefixes, PrefixSpec::MajorMinor(v.major(), v.minor()));
            add_prefix(&mut prefixes, PrefixSpec::Full(v.major(), v.minor(), v.patch()));
            proof {
                assert forall|j: int, p: PrefixSpec|
                    0 <= j <= i && #[trigger] p.spec_matches(releases@[j].0@) implies prefixes@.contains(
                    p,
                ) by {
                    if j < i {
                        assert(old_prefixes.contains(p));
                    } else {
                        lemma_prefix_of(p, releases@[j].0);
                    }
                }
            }
            i = i + 1;
        }
        let m = prefixes.len();
        let mut compatible: Vec<(CompatKey, String)> = Vec::new();
        let mut k: usize = 0;
        while k < m
            invariant
                m == prefixes@.len(),
                k <= m,
                distinct_compat_keys(compatible@),
                forall|a: int, b: int| 0 <= a < b < prefixes@.len() ==> prefixes@[a] != prefixes@[b],
                forall|key: CompatKey|
                    key_lookup(compatible@, key) == if prefixes@.subrange(0, k as int).contains(
                        key.prefix,
                    ) {
                        expected_hash(releases@, key)
                    } else {
                        None
                    },
            decreases m - k,
        {
            let p = prefixes[k];
            proof {
                assert forall|key: CompatKey| key.prefix == p implies key_lookup(
                    compatible@,
                    key,
                ) is None by {
                    if prefixes@.subrange(0, k as int).contains(p) {
                        let x = choose|x: int|
                            0 <= x < k && prefixes@.subrange(0, k as int)[x] == p;
                        assert(prefixes@[x] == prefixes@[k as int]);
                    }
                }
            }
            let ghost before = compatible@;
            add_prefix_entries(&mut compatible, releases, p);
            proof {
                assert forall|key: CompatKey|
                    key_lookup(compatible@, key) == if prefixes@.subrange(
                        0,
                        k + 1,
                    ).contains(key.prefix) {
                        expected_hash(releases@, key)
                    } else {
                        None
                    } by {
                    let s0 = prefixes@.subrange(0, k as int);
                    let s1 = prefixes@.subrange(0, k + 1);
                    assert(s1 =~= s0.push(p));
                    if s0.contains(key.prefix) {
                        let x = choose|x: int| 0 <= x < s0.len() && s0[x] == key.prefix;
                        assert(s1[x] == key.prefix);
                    }
                    if s1.contains(key.prefix) && key.prefix != p {
                        let x = choose|x: int| 0 <= x < s1.len() && s1[x] == key.prefix;
                        assert(s0[x] == key.prefix);
                    }
                    assert(s1[k as int] == p);
                }
            }
            k = k + 1;
        }
        let r = LookupTable { exact, compatible };
        proof {
            assert(prefixes@.subrange(0, m as int) =~= prefixes@);
            assert forall|key: CompatKey| key_lookup(r.spec_compatible(), key) == expected_hash(
                releases@,
                key,
            ) by {
                if !prefixes@.contains(key.prefix) {
                    assert forall|j: int|
                        0 <= j < releases@.len() implies !(#[trigger] key.prefix.spec_matches(
                        releases@[j].0@,
                    )) by {}
                    assert forall|ch: Channel| resolution(releases@, key.prefix, ch) is None by {
                        assert(!exists|x: int| crate::resolve::is_best(releases@, key.prefix, ch, x));
                    }
                }
            }
            assert forall|raw: Seq<char>| text_lookup(r.spec_exact(), raw) == release_lookup(
                releases@,
                raw,
            ) by {
                lemma_text_lookup_mirrors(r.spec_exact(), releases@, raw);
            }
        }
        r
    }

    /// The hash recorded for the exact version text `raw`; no resolution is involved.
    pub fn exact(&self, raw: &str) -> (r: Option<String>)
        ensures
            match r {
                Some(h) => text_lookup(self.spec_exact(), raw@) == Some(h@),
                None => text_lookup(self.spec_exact(), raw@) is None,
            },
    {
        let mut i: usize = self.exact.len();
        assert(self.spec_exact().subrange(0, i as int) =~= self.spec_exact());
        while i > 0
            invariant
                i <= self.exact@.len(),
                text_lookup(self.spec_exact(), raw@) == text_lookup(
                    self.spec_exact().subrange(0, i as int),
                    raw@,
                ),
            decreases i,
        {
            let ghost before = self.spec_exact().subrange(0, i as int);
            assert(before.drop_last() =~= self.spec_exact().subrange(0, i - 1));
            i = i - 1;
            if equal_text(self.exact[i].0.as_str(), raw) {
                return Some(self.exact[i].1.clone());
            }
        }
        None
    }

    /// The hash recorded for `prefix` on `channel`, or for the bare prefix
    /// when `channel` is `None`.
    pub fn compatible(&self, prefix: PrefixSpec, channel: Option<Channel>) -> (r: Option<String>)
        ensures
            match r {
                Some(h) => key_lookup(
                    self.spec_compatible(),
                    CompatKey { prefix, channel },
                ) == Some(h@),
                None => key_lookup(self.spec_compatible(), CompatKey { prefix, channel }) is None,
            },
    {
        let key = CompatKey { prefix, channel };
        let mut i: usize = self.compatible.len();
        assert(self.spec_compatible().subrange(0, i as int) =~= self.spec_compatible());
        while i > 0
            invariant
                i <= self.compatible@.len(),
                key == (CompatKey { prefix, channel }),
                key_lookup(self.spec_compatible(), key) == key_lookup(
                    self.spec_compatible().subrange(0, i as int),
                    key,
                ),
            decreases i,
        {
            let ghost before = self.spec_compatible().subrange(0, i as int);
            assert(before.drop_last() =~= self.spec_compatible().subrange(0, i - 1));
            i = i - 1;
            if self.compatible[i].0 == key {
                assert(before.last() == self.compatible@[i as int]);
                return Some(self.compatible[i].1.clone());
            }
        }
        None
    }

    /// Every exact entry: version text and hash, in catalog order.
    pub fn exact_entries(&self) -> (r: &[(String, String)])
        ensures
            r@ == self.spec_exact(),
    {
        self.exact.as_slice()
    }

    /// Every compatibility entry, in the order in which it was made.
    pub fn compatible_entries(&self) -> (r: &[(CompatKey, String)])
        ensures
            r@ == self.spec_compatible(),
    {
        self.compatible.as_slice()
    }
}

/// An exact lookup answers with the hash that the catalog records for that
/// very text, and with nothing for a text the catalog lacks; it does not
/// depend on what resolution would pick for the same text.
pub proof fn lemma_exact_is_literal(table: &LookupTable, catalog: &Catalog, raw: Seq<char>)
    requires
        table.built_from(catalog),
        catalog.wf(),
    ensures
        forall|i: int|
            0 <= i < catalog.spec_releases().len() && (#[trigger] catalog.spec_releases()[i]).0@.raw
                == raw ==> text_lookup(table.spec_exact(), raw) == Some(
                catalog.spec_releases()[i].1@,
            ),
        (forall|i: int|
            0 <= i < catalog.spec_releases().len() ==> (#[trigger] catalog.spec_releases()[i]).0@.raw
                != raw) ==> text_lookup(table.spec_exact(), raw) is None,
{
    let c = catalog.spec_releases();
    assert forall|i: int| 0 <= i < c.len() && (#[trigger] c[i]).0@.raw == raw implies text_lookup(
        table.spec_exact(),
        raw,
    ) == Some(c[i].1@) by {
        lemma_release_lookup(c, i);
    }
    if forall|i: int| 0 <= i < c.len() ==> (#[trigger] c[i]).0@.raw != raw {
        lemma_release_lookup_absent(c, raw);
    }
}

/// The bare prefix answers exactly as the prefix on `Final` does: the same
/// hash when a Final release matches, nothing when none does.
pub proof fn lemma_bare_prefix_is_final(table: &LookupTable, catalog: &Catalog, p: PrefixSpec)
    requires
        table.built_from(catalog),
    ensures
        key_lookup(table.spec_compatible(), CompatKey { prefix: p, channel: None }) == key_lookup(
            table.spec_compatible(),
            CompatKey { prefix: p, channel: Some(Channel::Final) },
        ),
        key_lookup(table.spec_compatible(), CompatKey { prefix: p, channel: None }) is None
            <==> forall|j: int|
            0 <= j < catalog.spec_releases().len() ==> !selects(
                p,
                Channel::Final,
                #[trigger] catalog.spec_releases()[j].0@,
            ),
{
    let c = catalog.spec_releases();
    let bare = CompatKey { prefix: p, channel: None };
    let fin = CompatKey { prefix: p, channel: Some(Channel::Final) };
    assert(key_lookup(table.spec_compatible(), bare) == expected_hash(c, bare));
    assert(key_lookup(table.spec_compatible(), fin) == expected_hash(c, fin));
    if exists|j: int| 0 <= j < c.len() && selects(p, Channel::Final, #[trigger] c[j].0@) {
        let j = choose|j: int| 0 <= j < c.len() && selects(p, Channel::Final, #[trigger] c[j].0@);
        lemma_best_exists(c, p, Channel::Final, j);
    } else {
        assert(!exists|x: int| crate::resolve::is_best(c, p, Channel::Final, x));
    }
}

/// Two catalogs that hold the same (version, hash) pairs, listed in any
/// order, give tables that answer every exact and every compatibility lookup
/// alike.
pub proof fn lemma_table_ignores_order(
    t1: &LookupTable,
    cat1: &Catalog,
    t2: &LookupTable,
    cat2: &Catalog,
)
    requires
        t1.built_from(cat1),
        t2.built_from(cat2),
        cat1.wf(),
        cat2.wf(),
        same_entries(cat1.spec_releases(), cat2.spec_releases()),
    ensures
        forall|k: CompatKey| key_lookup(t1.spec_compatible(), k) == key_lookup(t2.spec_compatible(), k),
        forall|raw: Seq<char>| text_lookup(t1.spec_exact(), raw) == text_lookup(t2.spec_exact(), raw),
{
    let c1 = cat1.spec_releases();
    let c2 = cat2.spec_releases();
    assert forall|k: CompatKey| key_lookup(t1.spec_compatible(), k) == key_lookup(
        t2.spec_compatible(),
        k,
    ) by {
        assert(key_lookup(t1.spec_compatible(), k) == expected_hash(c1, k));
        assert(key_lookup(t2.spec_compatible(), k) == expected_hash(c2, k));
        lemma_resolution_ignores_order(c1, c2, k.prefix, Channel::Final);
        match k.channel {
            Some(ch) => lemma_resolution_ignores_order(c1, c2, k.prefix, ch),
            None => {},
        }
    }
    assert forall|raw: Seq<char>| text_lookup(t1.spec_exact(), raw) == text_lookup(
        t2.spec_exact(),
        raw,
    ) by {
        assert(text_lookup(t1.spec_exact(), raw) == release_lookup(c1, raw));
        assert(text_lookup(t2.spec_exact(), raw) == release_lookup(c2, raw));
        if exists|i: int| 0 <= i < c1.len() && (#[trigger] c1[i]).0@.raw == raw {
            let i = choose|i: int| 0 <= i < c1.len() && (#[trigger] c1[i]).0@.raw == raw;
            assert(holds(c2, entry(c1[i])));
            let j = choose|j: int| 0 <= j < c2.len() && entry(c2[j]) == entry(c1[i]);
            lemma_release_lookup(c1, i);
            lemma_release_lookup(c2, j);
        } else {
            assert forall|j: int| 0 <= j < c2.len() implies (#[trigger] c2[j]).0@.raw != raw by {
                assert(holds(c1, entry(c2[j])));
                let i = choose|i: int| 0 <= i < c1.len() && entry(c1[i]) == entry(c2[j]);
                assert(c1[i].0@.raw == c2[j].0@.raw);
            }
            lemma_release_lookup_absent(c1, raw);
            lemma_release_lookup_absent(c2, raw);
        }
    }
}

} // verus!
