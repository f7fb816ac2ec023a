//! Picking the best release for a prefix and a channel.
use vstd::prelude::*;
use crate::channel::Channel;
use crate::prefix::PrefixSpec;
use crate::text::{equal_text, is_text_after, lemma_text_after_total, lemma_text_after_transitive, text_after};
use crate::version::{newer, Version, VersionView};

verus! {

/// The outcome of a resolution: the chosen release and its hash, or nothing.
#[derive(Debug)]
pub enum Resolution {
    Found(Version, String),
    NoMatch,
}

/// `v` matches the prefix and is on the channel.
pub open spec fn selects(p: PrefixSpec, ch: Channel, v: VersionView) -> bool {
    p.spec_matches(v) && v.channel == ch
}

/// A candidate as plain values: its version and its hash.
pub open spec fn entry(e: (Version, String)) -> (VersionView, Seq<char>) {
    (e.0@, e.1@)
}

/// The total order of candidates: a newer release ranks above; for one
/// release written two ways (`2019.1.2f1`, `2019.01.2f1`) the later version
/// text does; for one version text the later hash does.
pub open spec fn ranks_above(a: (VersionView, Seq<char>), b: (VersionView, Seq<char>)) -> bool {
    if newer(a.0, b.0) {
        true
    } else if newer(b.0, a.0) {
        false
    } else if a.0.raw != b.0.raw {
        text_after(a.0.raw, b.0.raw)
    } else {
        text_after(a.1, b.1)
    }
}

/// The order of candidates is strict and total.
pub proof fn lemma_ranks_total(a: (VersionView, Seq<char>), b: (VersionView, Seq<char>))
    ensures
        !(ranks_above(a, b) && ranks_above(b, a)),
        a != b ==> ranks_above(a, b) || ranks_above(b, a),
        !ranks_above(a, a),
{
    lemma_text_after_total(a.0.raw, b.0.raw);
    lemma_text_after_total(a.1, b.1);
    lemma_text_after_total(a.0.raw, a.0.raw);
    lemma_text_after_total(a.1, a.1);
}

/// The order of candidates is transitive.
pub proof fn lemma_ranks_transitive(
    a: (VersionView, Seq<char>),
    b: (VersionView, Seq<char>),
    c: (VersionView, Seq<char>),
)
    requires
        ranks_above(a, b),
        ranks_above(b, c),
    ensures
        ranks_above(a, c),
{
    if !newer(a.0, b.0) && !newer(b.0, a.0) && !newer(b.0, c.0) && !newer(c.0, b.0) {
        lemma_text_after_total(a.0.raw, c.0.raw);
        if a.0.raw != b.0.raw && b.0.raw != c.0.raw {
            lemma_text_after_transitive(a.0.raw, b.0.raw, c.0.raw);
        } else if a.0.raw == b.0.raw && b.0.raw == c.0.raw {
            lemma_text_after_transitive(a.1, b.1, c.1);
        }
    }
}

/// Among the first `n` candidates, the one at `i` is selected and no
/// selected one ranks above it.
pub open spec fn is_best_among(
    c: Seq<(Version, String)>,
    p: PrefixSpec,
    ch: Channel,
    i: int,
    n: int,
) -> bool {
    &&& 0 <= i < n <= c.len()
    &&& selects(p, ch, c[i].0@)
    &&& forall|j: int|
        0 <= j < n && selects(p, ch, #[trigger] c[j].0@) ==> !ranks_above(entry(c[j]), entry(c[i]))
}

/// The candidate at `i` is a greatest selected one.
pub open spec fn is_best(c: Seq<(Version, String)>, p: PrefixSpec, ch: Channel, i: int) -> bool {
    is_best_among(c, p, ch, i, c.len() as int)
}

/// The greatest selected candidate, as plain values, if any candidate is
/// selected. Every greatest one has these values, so the order in which the
/// candidates are listed does not matter.
pub open spec fn resolution(c: Seq<(Version, String)>, p: PrefixSpec, ch: Channel) -> Option<
    (VersionView, Seq<char>),
> {
    if exists|i: int| is_best(c, p, ch, i) {
        Some(entry(c[choose|i: int| is_best(c, p, ch, i)]))
    } else {
        None
    }
}

/// The hash that resolution gives, if any.
pub open spec fn resolved_hash(c: Seq<(Version, String)>, p: PrefixSpec, ch: Channel) -> Option<
    Seq<char>,
> {
    match resolution(c, p, ch) {
        Some(e) => Some(e.1),
        None => None,
    }
}

/// Two greatest candidates hold the same values.
pub proof fn lemma_best_unique(c: Seq<(Version, String)>, p: PrefixSpec, ch: Channel, i: int, k: int)
    requires
        is_best(c, p, ch, i),
        is_best(c, p, ch, k),
    ensures
        entry(c[i]) == entry(c[k]),
{
    lemma_ranks_total(entry(c[i]), entry(c[k]));
}

/// Resolution gives the values of any greatest candidate.
pub proof fn lemma_best_index(c: Seq<(Version, String)>, p: PrefixSpec, ch: Channel, i: int)
    requires
        is_best(c, p, ch, i),
    ensures
        resolution(c, p, ch) == Some(entry(c[i])),
{
    let k = choose|k: int| is_best(c, p, ch, k);
    lemma_best_unique(c, p, ch, i, k);
}

/// Whenever a candidate is selected, a greatest one exists.
pub proof fn lemma_best_exists(c: Seq<(Version, String)>, p: PrefixSpec, ch: Channel, j: int)
    requires
        0 <= j < c.len(),
        selects(p, ch, c[j].0@),
    ensures
        resolution(c, p, ch) is Some,
{
    let i = lemma_best_among_exists(c, p, ch, c.len() as int, j);
    lemma_best_index(c, p, ch, i);
}

proof fn lemma_best_among_exists(
    c: Seq<(Version, String)>,
    p: PrefixSpec,
    ch: Channel,
    n: int,
    j: int,
) -> (i: int)
    requires
        0 <= j < n <= c.len(),
        selects(p, ch, c[j].0@),
    ensures
        is_best_among(c, p, ch, i, n),
    decreases n,
{
    let last = n - 1;
    lemma_ranks_total(entry(c[last]), entry(c[last]));
    let prev = if j < last {
        Some(lemma_best_among_exists(c, p, ch, last, j))
    } else if exists|k: int| 0 <= k < last && selects(p, ch, #[trigger] c[k].0@) {
        let k = choose|k: int| 0 <= k < last && selects(p, ch, #[trigger] c[k].0@);
        Some(lemma_best_among_exists(c, p, ch, last, k))
    } else {
        None
    };
    match prev {
        None => last,
        Some(b) => {
            if selects(p, ch, c[last].0@) && ranks_above(entry(c[last]), entry(c[b])) {
                assert forall|k: int|
                    0 <= k < n && selects(p, ch, #[trigger] c[k].0@) implies !ranks_above(
                    entry(c[k]),
                    entry(c[last]),
                ) by {
                    if k < last && ranks_above(entry(c[k]), entry(c[last])) {
                        lemma_ranks_transitive(entry(c[k]), entry(c[last]), entry(c[b]));
                    }
                }
                last
            } else {
                b
            }
        },
    }
}

/// Some candidate holds the values `e`.
pub open spec fn holds(c: Seq<(Version, String)>, e: (VersionView, Seq<char>)) -> bool {
    exists|i: int| 0 <= i < c.len() && entry(c[i]) == e
}

/// Two candidate lists hold the same values, each perhaps several times and
/// in any order.
pub open spec fn same_entries(c1: Seq<(Version, String)>, c2: Seq<(Version, String)>) -> bool {
    &&& forall|i: int| 0 <= i < c1.len() ==> #[trigger] holds(c2, entry(c1[i]))
    &&& forall|j: int| 0 <= j < c2.len() ==> #[trigger] holds(c1, entry(c2[j]))
}

proof fn lemma_best_carries_over(
    c1: Seq<(Version, String)>,
    c2: Seq<(Version, String)>,
    p: PrefixSpec,
    ch: Channel,
    i: int,
)
    requires
        same_entries(c1, c2),
        is_best(c1, p, ch, i),
    ensures
        resolution(c2, p, ch) == Some(entry(c1[i])),
{
    assert(holds(c2, entry(c1[i])));
    let j = choose|j: int| 0 <= j < c2.len() && entry(c2[j]) == entry(c1[i]);
    assert forall|k: int|
        0 <= k < c2.len() && selects(p, ch, #[trigger] c2[k].0@) implies !ranks_above(
        entry(c2[k]),
        entry(c2[j]),
    ) by {
        assert(holds(c1, entry(c2[k])));
        let x = choose|x: int| 0 <= x < c1.len() && entry(c1[x]) == entry(c2[k]);
        assert(selects(p, ch, c1[x].0@));
    }
    assert(is_best(c2, p, ch, j));
    lemma_best_index(c2, p, ch, j);
}

/// Resolution depends only on which (version, hash) values the candidates
/// hold, not on the order in which they are listed nor on repetitions.
pub proof fn lemma_resolution_ignores_order(
    c1: Seq<(Version, String)>,
    c2: Seq<(Version, String)>,
    p: PrefixSpec,
    ch: Channel,
)
    requires
        same_entries(c1, c2),
    ensures
        resolution(c1, p, ch) == resolution(c2, p, ch),
{
    if exists|i: int| is_best(c1, p, ch, i) {
        let i = choose|i: int| is_best(c1, p, ch, i);
        lemma_best_carries_over(c1, c2, p, ch, i);
    } else if exists|j: int| is_best(c2, p, ch, j) {
        let j = choose|j: int| is_best(c2, p, ch, j);
        lemma_best_carries_over(c2, c1, p, ch, j);
    }
}

/// Whether candidate `a` ranks above candidate `b`.
fn outranks(a: &(Version, String), b: &(Version, String)) -> (r: bool)
    ensures
        r == ranks_above(entry(*a), entry(*b)),
{
    if a.0.is_newer_than(&b.0) {
        true
    } else if b.0.is_newer_than(&a.0) {
        false
    } else if !equal_text(a.0.raw().as_str(), b.0.raw().as_str()) {
        is_text_after(a.0.raw().as_str(), b.0.raw().as_str())
    } else {
        is_text_after(a.1.as_str(), b.1.as_str())
    }
}

/// Selects the greatest candidate that matches `prefix` and is on `channel`:
/// the newest release; between two texts of one release, the later text;
/// between two hashes of one text, the later hash.
pub fn resolve(candidates: &[(Version, String)], prefix: PrefixSpec, channel: Channel) -> (r:
    Resolution)
    ensures
        candidates@.len() == 0 ==> r is NoMatch,
        r is NoMatch <==> forall|j: int|
            0 <= j < candidates@.len() ==> !selects(prefix, channel, #[trigger] candidates@[j].0@),
        match r {
            Resolution::Found(v, h) => {
                &&& selects(prefix, channel, v@)
                &&& forall|j: int|
                    0 <= j < candidates@.len() && selects(prefix, channel, #[trigger] candidates@[j].0@)
                        ==> !newer(candidates@[j].0@, v@) && !ranks_above(
                        entry(candidates@[j]),
                        (v@, h@),
                    )
                &&& exists|i: int|
                    0 <= i < candidates@.len() && v == candidates@[i].0 && h == candidates@[i].1
                &&& resolution(candidates@, prefix, channel) == Some((v@, h@))
            },
            Resolution::NoMatch => resolution(candidates@, prefix, channel) is None,
        },
{
    let n = candidates.len();
    let mut best: Option<usize> = None;
    let mut i: usize = 0;
    while i < n
        invariant
            n == candidates@.len(),
            i <= n,
            best is None ==> forall|j: int|
                0 <= j < i ==> !selects(prefix, channel, #[trigger] candidates@[j].0@),
            best matches Some(b) ==> is_best_among(candidates@, prefix, channel, b as int, i as int),
        decreases n - i,
    {
        let v = &candidates[i].0;
        let ghost ei = entry(candidates@[i as int]);
        proof {
            lemma_ranks_total(ei, ei);
        }
        if v.channel() == channel && prefix.matches(v) {
            match best {
                None => {
                    best = Some(i);
                },
                Some(b) => {
                    if outranks(&candidates[i], &candidates[b]) {
                        proof {
                            let eb = entry(candidates@[b as int]);
                            assert forall|j: int|
                                0 <= j < i + 1 && selects(
                                    prefix,
                                    channel,
                                    #[trigger] candidates@[j].0@,
                                ) implies !ranks_above(entry(candidates@[j]), ei) by {
                                if j < i && ranks_above(entry(candidates@[j]), ei) {
                                    lemma_ranks_transitive(entry(candidates@[j]), ei, eb);
                                }
                            }
                        }
                        best = Some(i);
                    }
                },
            }
        }
        i = i + 1;
    }
    match best {
        None => {
            assert(forall|k: int| !is_best(candidates@, prefix, channel, k));
            Resolution::NoMatch
        },
        Some(b) => {
            proof {
                lemma_best_index(candidates@, prefix, channel, b as int);
            }
            Resolution::Found(candidates[b].0.clone(), candidates[b].1.clone())
        },
    }
}

} // verus!
