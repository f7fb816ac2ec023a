//! Merging a release feed into the persisted catalog mapping, insert-only,
//! and the commit message that lists what was added.
use vstd::prelude::*;
use crate::catalog::distinct_keys;
use crate::text::equal_text;
use crate::version::{format_text, parse_text, Version};

verus! {

/// Entries as pairs of texts.
pub open spec fn texts(s: Seq<(String, String)>) -> Seq<(Seq<char>, Seq<char>)> {
    s.map_values(|e: (String, String)| (e.0@, e.1@))
}

pub open spec fn has_key(s: Seq<(Seq<char>, Seq<char>)>, k: Seq<char>) -> bool {
    exists|i: int| 0 <= i < s.len() && (#[trigger] s[i]).0 == k
}

/// The mapping after the feed is merged, one feed entry after another: an
/// entry whose version reads is keyed by its canonical text, and is added
/// only when that key is not there yet; an entry whose version does not
/// read is left out.
pub open spec fn merged(
    remote: Seq<(Seq<char>, Seq<char>)>,
    feed: Seq<(Seq<char>, Seq<char>)>,
) -> Seq<(Seq<char>, Seq<char>)>
    decreases feed.len(),
{
    if feed.len() == 0 {
        remote
    } else {
        let before = merged(remote, feed.drop_last());
        match parse_text(feed.last().0) {
            Some(v) => if has_key(before, format_text(v)) {
                before
            } else {
                before.push((format_text(v), feed.last().1))
            },
            None => before,
        }
    }
}

/// The lines that a commit message gets for the added versions.
pub open spec fn change_lines(added: Seq<Seq<char>>) -> Seq<char>
    decreases added.len(),
{
    if added.len() == 0 {
        Seq::empty()
    } else {
        change_lines(added.drop_last()) + "* [ADD] version "@ + added.last() + seq!['\n']
    }
}

/// `s` reads as `<version> (<hash>)` with the first space at `k`: the
/// version is all that comes before it, the hash is not empty and the
/// parenthesis that follows the space closes the line.
pub open spec fn line_split_at(s: Seq<char>, k: int) -> bool {
    &&& 0 < k && k + 4 <= s.len()
    &&& s[k] == ' ' && s[k + 1] == '(' && s[s.len() - 1] == ')'
    &&& forall|j: int| 0 <= j < k ==> s[j] != ' '
}

/// The version text and the hash of a feed line, if it has that form.
pub open spec fn release_line(s: Seq<char>) -> Option<(Seq<char>, Seq<char>)> {
    if exists|k: int| line_split_at(s, k) {
        let k = choose|k: int| line_split_at(s, k);
        Some((s.subrange(0, k), s.subrange(k + 2, s.len() - 1)))
    } else {
        None
    }
}

/// The characters of `s` from `from` up to `to`.
fn slice_text(s: &str, from: usize, to: usize) -> (r: String)
    requires
        from <= to <= s@.len(),
    ensures
        r@ == s@.subrange(from as int, to as int),
{
    let mut out = String::new();
    let mut i: usize = from;
    while i < to
        invariant
            from <= i <= to <= s@.len(),
            out@ == s@.subrange(from as int, i as int),
        decreases to - i,
    {
        out.push(s.get_char(i));
        i = i + 1;
        assert(out@ =~= s@.subrange(from as int, i as int));
    }
    out
}

/// Splits a feed line such as `2019.1.2f1 (abc123)` into version text and hash.
pub fn split_release_line(line: &str) -> (r: Option<(String, String)>)
    ensures
        match r {
            Some((v, h)) => release_line(line@) == Some((v@, h@)),
            None => release_line(line@) is None,
        },
{
    let n = line.unicode_len();
    let mut k: usize = 0;
    while k < n && line.get_char(k) != ' '
        invariant
            n == line@.len(),
            k <= n,
            forall|j: int| 0 <= j < k ==> line@[j] != ' ',
        decreases n - k,
    {
        k = k + 1;
    }
    if k == 0 || k >= n || n - k < 4 || line.get_char(k + 1) != '(' || line.get_char(n - 1) != ')' {
        proof {
            if exists|x: int| line_split_at(line@, x) {
                let x = choose|x: int| line_split_at(line@, x);
                if x < k {
                    assert(line@[x] != ' ');
                }
            }
        }
        return None;
    }
    proof {
        assert(line_split_at(line@, k as int));
        let x = choose|x: int| line_split_at(line@, x);
        if x < k {
            assert(line@[x] != ' ');
        }
    }
    Some((slice_text(line, 0, k), slice_text(line, k + 2, n - 1)))
}

fn contains_key(s: &Vec<(String, String)>, k: &str) -> (r: bool)
    ensures
        r == has_key(texts(s@), k@),
{
    let n = s.len();
    let mut i: usize = 0;
    while i < n
        invariant
            n == s@.len(),
            i <= n,
            forall|j: int| 0 <= j < i ==> (#[trigger] s@[j]).0@ != k@,
        decreases n - i,
    {
        if equal_text(s[i].0.as_str(), k) {
            assert(texts(s@)[i as int].0 == k@);
            return true;
        }
        i = i + 1;
    }
    assert forall|j: int| 0 <= j < texts(s@).len() implies (#[trigger] texts(s@)[j]).0 != k@ by {
        assert(s@[j].0@ != k@);
    }
    false
}

/// Merges `feed` into `remote` without touching an existing entry; returns
/// the keys that were added, in the order in which they were added.
pub fn merge_releases(remote: &mut Vec<(String, String)>, feed: &[(String, String)]) -> (added: Vec<
    String,
>)
    requires
        distinct_keys(old(remote)@),
    ensures
        texts(final(remote)@) == merged(texts(old(remote)@), texts(feed@)),
        distinct_keys(final(remote)@),
        final(remote)@.len() == old(remote)@.len() + added@.len(),
        forall|i: int| 0 <= i < old(remote)@.len() ==> final(remote)@[i] == old(remote)@[i],
        forall|k: int|
            0 <= k < added@.len() ==> (#[trigger] added@[k])@ == final(remote)@[old(
                remote,
            )@.len() + k].0@,
{
    let ghost start = remote@;
    let mut added: Vec<String> = Vec::new();
    let n = feed.len();
    let mut i: usize = 0;
    while i < n
        invariant
            n == feed@.len(),
            i <= n,
            texts(remote@) == merged(texts(start), texts(feed@.subrange(0, i as int))),
            distinct_keys(remote@),
            remote@.len() == start.len() + added@.len(),
            forall|j: int| 0 <= j < start.len() ==> remote@[j] == start[j],
            forall|k: int|
                0 <= k < added@.len() ==> (#[trigger] added@[k])@ == remote@[start.len() + k].0@,
        decreases n - i,
    {
        let ghost prev = remote@;
        let ghost fs = texts(feed@.subrange(0, i + 1));
        assert(fs.drop_last() =~= texts(feed@.subrange(0, i as int)));
        assert(fs.last() == (feed@[i as int].0@, feed@[i as int].1@));
        match Version::parse(feed[i].0.as_str()) {
            Ok(v) => {
                let key = v.format();
                if !contains_key(remote, key.as_str()) {
                    let ghost added_before = added@;
                    remote.push((key.clone(), feed[i].1.clone()));
                    added.push(key);
                    proof {
                        assert(texts(remote@) =~= texts(prev).push((key@, feed@[i as int].1@)));
                        assert forall|a: int, b: int|
                            0 <= a < b < remote@.len() implies (#[trigger] remote@[a]).0@
                            != (#[trigger] remote@[b]).0@ by {
                            if b == remote@.len() - 1 {
                                assert(texts(prev)[a].0 == prev[a].0@);
                            }
                        }
                        assert forall|k: int| 0 <= k < added@.len() implies (#[trigger] added@[k])@
                            == remote@[start.len() + k].0@ by {
                            if k < added@.len() - 1 {
                                assert(added@[k] == added_before[k]);
                            }
                        }
                    }
                }
            },
            Err(_) => {},
        }
        i = i + 1;
    }
    assert(feed@.subrange(0, n as int) =~= feed@);
    added
}

/// The commit message: the base text, a line break, then one line per added version.
pub fn commit_message(base: &str, added: &[String]) -> (r: String)
    ensures
        r@ == base@ + seq!['\n'] + change_lines(added@.map_values(|s: String| s@)),
{
    let mut out = String::new();
    out.append(base);
    out.push('\n');
    let ghost head = out@;
    let n = added.len();
    let mut i: usize = 0;
    while i < n
        invariant
            n == added@.len(),
            i <= n,
            out@ == head + change_lines(added@.subrange(0, i as int).map_values(|s: String| s@)),
        decreases n - i,
    {
        let ghost lines = added@.subrange(0, i + 1).map_values(|s: String| s@);
        assert(lines.drop_last() =~= added@.subrange(0, i as int).map_values(|s: String| s@));
        out.append("* [ADD] version ");
        out.append(added[i].as_str());
        out.push('\n');
        assert(out@ =~= head + change_lines(lines));
        i = i + 1;
    }
    assert(added@.subrange(0, n as int) =~= added@);
    out
}

} // verus!
