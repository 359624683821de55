//! Multi-stage duplicate detection: identical size, then a fast partial hash
//! (of the first 64 KiB), then a full cryptographic hash. A file's name is
//! never a duplicate signal -- two files with different names and identical
//! content are duplicates; two files with the same name and different content
//! are not. Zero-byte files are never grouped: there is nothing to reclaim.
//!
//! The caller reads the files; this module decides which files are compared
//! at each stage and which of them form a group.

use vstd::prelude::*;
use crate::model::{DuplicateGroup, FileEntry};
use crate::path::{FsPath, PathSeq};
use crate::runtime::new_id;

verus! {

/// How many leading bytes of a file the partial hash covers.
pub const PARTIAL_HASH_BYTES: usize = 65536;

/// The distinct keys present in `keys`, in order of first occurrence.
pub open spec fn distinct_keys<K>(keys: Seq<Option<K>>) -> Seq<K>
    decreases keys.len(),
{
    if keys.len() == 0 {
        seq![]
    } else {
        let prev = distinct_keys(keys.drop_last());
        match keys.last() {
            Some(k) => if prev.contains(k) { prev } else { prev.push(k) },
            None => prev,
        }
    }
}

/// The values whose key is `k`, in order.
pub open spec fn members<K, V>(keys: Seq<Option<K>>, vals: Seq<V>, k: K) -> Seq<V>
    decreases keys.len(),
{
    if keys.len() == 0 || vals.len() == 0 {
        seq![]
    } else {
        let prev = members(keys.drop_last(), vals.drop_last(), k);
        if keys.last() == Some(k) { prev.push(vals.last()) } else { prev }
    }
}

/// The groups of at least two values sharing a key: one per key, in order of
/// the key's first occurrence.
pub open spec fn groups_of<K, V>(keys: Seq<Option<K>>, vals: Seq<V>) -> Seq<(K, Seq<V>)> {
    distinct_keys(keys).filter(|k: K| members(keys, vals, k).len() > 1).map_values(
        |k: K| (k, members(keys, vals, k)),
    )
}

/// The key an entry is grouped by in the first stage: its size, for a
/// non-empty file; directories and empty files take no part.
pub open spec fn size_key(e: FileEntry) -> Option<u64> {
    if !e.is_dir && e.logical_size > 0 { Some(e.logical_size) } else { None }
}

pub open spec fn size_keys(es: Seq<FileEntry>) -> Seq<Option<u64>> {
    Seq::new(es.len(), |i: int| size_key(es[i]))
}

pub open spec fn entry_paths(es: Seq<FileEntry>) -> Seq<PathSeq> {
    Seq::new(es.len(), |i: int| es[i].path@)
}

pub open spec fn paths_view(ps: Seq<FsPath>) -> Seq<PathSeq> {
    Seq::new(ps.len(), |i: int| ps[i]@)
}

/// Files of one size that may be duplicates.
#[derive(Debug, Clone)]
pub struct SizeGroup {
    pub size: u64,
    pub paths: Vec<FsPath>,
}

/// Files whose hashes agree.
#[derive(Debug, Clone)]
pub struct HashGroup {
    pub hash: String,
    pub paths: Vec<FsPath>,
}

/// A file and the hash computed for it (`None` when it could not be read).
#[derive(Debug, Clone)]
pub struct HashedPath {
    pub path: FsPath,
    pub hash: Option<String>,
}

pub open spec fn hash_keys(hs: Seq<HashedPath>) -> Seq<Option<Seq<char>>> {
    Seq::new(
        hs.len(),
        |i: int|
            match hs[i].hash {
                Some(h) => Some(h@),
                None => None,
            },
    )
}

pub open spec fn hashed_paths(hs: Seq<HashedPath>) -> Seq<PathSeq> {
    Seq::new(hs.len(), |i: int| hs[i].path@)
}

proof fn lemma_members_step<K, V>(keys: Seq<Option<K>>, vals: Seq<V>, i: int, k: K)
    requires
        0 <= i < keys.len(),
        keys.len() == vals.len(),
    ensures
        members(keys.take(i + 1), vals.take(i + 1), k) == if keys[i] == Some(k) {
            members(keys.take(i), vals.take(i), k).push(vals[i])
        } else {
            members(keys.take(i), vals.take(i), k)
        },
{
    assert(keys.take(i + 1).drop_last() =~= keys.take(i));
    assert(vals.take(i + 1).drop_last() =~= vals.take(i));
}

proof fn lemma_members_absent<K, V>(keys: Seq<Option<K>>, vals: Seq<V>, k: K)
    requires
        !distinct_keys(keys).contains(k),
    ensures
        members(keys, vals, k).len() == 0,
    decreases keys.len(),
{
    if keys.len() > 0 && vals.len() > 0 {
        let prev = distinct_keys(keys.drop_last());
        if prev.contains(k) {
            assert(distinct_keys(keys).contains(k)) by {
                let j = choose|j: int| 0 <= j < prev.len() && prev[j] == k;
                match keys.last() {
                    Some(x) => if !prev.contains(x) {
                        assert(prev.push(x)[j] == k);
                    },
                    None => {},
                }
            }
        }
        lemma_members_absent(keys.drop_last(), vals.drop_last(), k);
        if keys.last() == Some(k) {
            assert(distinct_keys(keys).contains(k)) by {
                if !prev.contains(k) {
                    assert(prev.push(k)[prev.len() as int] == k);
                }
            }
        }
    }
}

pub(crate) proof fn lemma_distinct_keys_no_dup<K>(keys: Seq<Option<K>>)
    ensures
        distinct_keys(keys).no_duplicates(),
    decreases keys.len(),
{
    if keys.len() > 0 {
        lemma_distinct_keys_no_dup(keys.drop_last());
    }
}

/// Collects, for every key, the values carrying it: the working state of a
/// grouping pass over `keys.take(i)`.
pub open spec fn grouping_state<K, V>(
    keys: Seq<Option<K>>,
    vals: Seq<V>,
    i: int,
    gkeys: Seq<K>,
    gvals: Seq<Seq<V>>,
) -> bool {
    &&& gkeys == distinct_keys(keys.take(i))
    &&& gvals.len() == gkeys.len()
    &&& forall|j: int|
        0 <= j < gkeys.len() ==> #[trigger] gvals[j] == members(keys.take(i), vals.take(i), gkeys[j])
}

/// One more value joins the grouping state.
pub(crate) proof fn lemma_grouping_step<K, V>(
    keys: Seq<Option<K>>,
    vals: Seq<V>,
    i: int,
    gkeys: Seq<K>,
    gvals: Seq<Seq<V>>,
    pos: int,
)
    requires
        0 <= i < keys.len(),
        keys.len() == vals.len(),
        grouping_state(keys, vals, i, gkeys, gvals),
        keys[i] is Some ==> (pos == -1 <==> !gkeys.contains(keys[i]->0)),
        keys[i] is Some && pos != -1 ==> 0 <= pos < gkeys.len() && gkeys[pos] == keys[i]->0,
    ensures
        keys[i] is None ==> grouping_state(keys, vals, i + 1, gkeys, gvals),
        keys[i] is Some && pos == -1 ==> grouping_state(
            keys,
            vals,
            i + 1,
            gkeys.push(keys[i]->0),
            gvals.push(seq![vals[i]]),
        ),
        keys[i] is Some && pos != -1 ==> grouping_state(
            keys,
            vals,
            i + 1,
            gkeys,
            gvals.update(pos, gvals[pos].push(vals[i])),
        ),
{
    assert(keys.take(i + 1).drop_last() =~= keys.take(i));
    assert(keys.take(i + 1).last() == keys[i]);
    lemma_distinct_keys_no_dup(keys.take(i));
    match keys[i] {
        None => {
            assert forall|j: int| 0 <= j < gkeys.len() implies #[trigger] gvals[j] == members(
                keys.take(i + 1),
                vals.take(i + 1),
                gkeys[j],
            ) by {
                lemma_members_step(keys, vals, i, gkeys[j]);
            }
        },
        Some(k) => {
            if pos == -1 {
                let nk = gkeys.push(k);
                let nv = gvals.push(seq![vals[i]]);
                assert forall|j: int| 0 <= j < nk.len() implies #[trigger] nv[j] == members(
                    keys.take(i + 1),
                    vals.take(i + 1),
                    nk[j],
                ) by {
                    lemma_members_step(keys, vals, i, nk[j]);
                    if j == gkeys.len() {
                        lemma_members_absent(keys.take(i), vals.take(i), k);
                        assert(members(keys.take(i), vals.take(i), k) =~= seq![]);
                        assert(seq![].push(vals[i]) =~= seq![vals[i]]);
                    } else {
                        assert(gkeys[j] != k);
                    }
                }
            } else {
                let nv = gvals.update(pos, gvals[pos].push(vals[i]));
                assert forall|j: int| 0 <= j < gkeys.len() implies #[trigger] nv[j] == members(
                    keys.take(i + 1),
                    vals.take(i + 1),
                    gkeys[j],
                ) by {
                    lemma_members_step(keys, vals, i, gkeys[j]);
                    if j != pos {
                        assert(gkeys[j] != gkeys[pos]);
                    }
                }
            }
        },
    }
}

/// The grouping state once every value has joined, narrowed to the groups of
/// at least two.
pub(crate) proof fn lemma_grouping_done<K, V>(keys: Seq<Option<K>>, vals: Seq<V>, gkeys: Seq<K>, gvals: Seq<Seq<V>>)
    requires
        keys.len() == vals.len(),
        grouping_state(keys, vals, keys.len() as int, gkeys, gvals),
    ensures
        gkeys == distinct_keys(keys),
        forall|j: int| 0 <= j < gkeys.len() ==> #[trigger] gvals[j] == members(keys, vals, gkeys[j]),
{
    assert(keys.take(keys.len() as int) =~= keys);
    assert(vals.take(vals.len() as int) =~= vals);
}

/// Keeps the groups of at least two, in order.
proof fn lemma_filter_groups<K, V>(
    keys: Seq<Option<K>>,
    vals: Seq<V>,
    gkeys: Seq<K>,
    gvals: Seq<Seq<V>>,
    n: int,
    out: Seq<(K, Seq<V>)>,
)
    requires
        0 <= n <= gkeys.len(),
        gvals.len() == gkeys.len(),
        forall|j: int| 0 <= j < gkeys.len() ==> #[trigger] gvals[j] == members(keys, vals, gkeys[j]),
        out == gkeys.take(n).filter(|k: K| members(keys, vals, k).len() > 1).map_values(
            |k: K| (k, members(keys, vals, k)),
        ),
    ensures
        n < gkeys.len() ==> (if gvals[n].len() > 1 {
            out.push((gkeys[n], gvals[n]))
        } else {
            out
        }) == gkeys.take(n + 1).filter(|k: K| members(keys, vals, k).len() > 1).map_values(
            |k: K| (k, members(keys, vals, k)),
        ),
{
    if n < gkeys.len() {
        let p = |k: K| members(keys, vals, k).len() > 1;
        let f = |k: K| (k, members(keys, vals, k));
        assert(gkeys.take(n + 1).drop_last() =~= gkeys.take(n));
        assert(gkeys.take(n + 1).last() == gkeys[n]);
        reveal(Seq::filter);
        assert(gkeys.take(n + 1).filter(p) == if p(gkeys[n]) {
            gkeys.take(n).filter(p).push(gkeys[n])
        } else {
            gkeys.take(n).filter(p)
        });
        if p(gkeys[n]) {
            assert(gkeys.take(n).filter(p).push(gkeys[n]).map_values(f) =~= gkeys.take(n).filter(
                p,
            ).map_values(f).push(f(gkeys[n])));
        }
    }
}

/// Value `v` sits at position `m` with key `k`.
pub open spec fn carries<K, V>(keys: Seq<Option<K>>, vals: Seq<V>, m: int, k: K, v: V) -> bool {
    0 <= m < keys.len() && m < vals.len() && keys[m] == Some(k) && vals[m] == v
}

/// Every value gathered under `k` is a value whose key is `k`.
proof fn lemma_member_origin<K, V>(keys: Seq<Option<K>>, vals: Seq<V>, k: K, j: int)
    requires
        keys.len() == vals.len(),
        0 <= j < members(keys, vals, k).len(),
    ensures
        exists|m: int| #[trigger] carries(keys, vals, m, k, members(keys, vals, k)[j]),
    decreases keys.len(),
{
    let prev = members(keys.drop_last(), vals.drop_last(), k);
    if j < prev.len() {
        lemma_member_origin(keys.drop_last(), vals.drop_last(), k, j);
        let m = choose|m: int| #[trigger] carries(keys.drop_last(), vals.drop_last(), m, k, prev[j]);
        assert(carries(keys, vals, m, k, members(keys, vals, k)[j]));
    } else {
        let m = keys.len() - 1;
        assert(carries(keys, vals, m, k, members(keys, vals, k)[j]));
    }
}

/// A value with a key is gathered under that key, and the key is listed.
pub(crate) proof fn lemma_member_complete<K, V>(keys: Seq<Option<K>>, vals: Seq<V>, m: int)
    requires
        keys.len() == vals.len(),
        0 <= m < keys.len(),
        keys[m] is Some,
    ensures
        members(keys, vals, keys[m]->0).contains(vals[m]),
        distinct_keys(keys).contains(keys[m]->0),
    decreases keys.len(),
{
    let k = keys[m]->0;
    let last = keys.len() - 1;
    let prev = members(keys.drop_last(), vals.drop_last(), k);
    let dprev = distinct_keys(keys.drop_last());
    if m == last {
        assert(members(keys, vals, k) == prev.push(vals[m]));
        assert(prev.push(vals[m])[prev.len() as int] == vals[m]);
        if !dprev.contains(k) {
            assert(dprev.push(k)[dprev.len() as int] == k);
        }
    } else {
        lemma_member_complete(keys.drop_last(), vals.drop_last(), m);
        assert(keys.drop_last()[m] == keys[m]);
        assert(vals.drop_last()[m] == vals[m]);
        let j = choose|j: int| 0 <= j < prev.len() && prev[j] == vals[m];
        if keys.last() == Some(k) {
            assert(prev.push(vals.last())[j] == vals[m]);
        }
        let i = choose|i: int| 0 <= i < dprev.len() && dprev[i] == k;
        match keys.last() {
            Some(x) => if !dprev.contains(x) {
                assert(dprev.push(x)[i] == k);
            },
            None => {},
        }
    }
}

/// Two values sharing a key make a gathering of at least two.
proof fn lemma_two_members<K, V>(keys: Seq<Option<K>>, vals: Seq<V>, m1: int, m2: int)
    requires
        keys.len() == vals.len(),
        0 <= m1 < m2 < keys.len(),
        keys[m1] is Some,
        keys[m1] == keys[m2],
    ensures
        members(keys, vals, keys[m1]->0).len() >= 2,
    decreases keys.len(),
{
    let k = keys[m1]->0;
    if m2 == keys.len() - 1 {
        lemma_member_complete(keys.drop_last(), vals.drop_last(), m1);
        assert(keys.drop_last()[m1] == keys[m1]);
    } else {
        lemma_two_members(keys.drop_last(), vals.drop_last(), m1, m2);
        assert(keys.drop_last()[m1] == keys[m1]);
        assert(keys.drop_last()[m2] == keys[m2]);
    }
}

/// Keeping some elements of a list without repeats leaves a list without
/// repeats.
proof fn lemma_filter_no_dup<A>(s: Seq<A>, p: spec_fn(A) -> bool)
    requires
        s.no_duplicates(),
    ensures
        s.filter(p).no_duplicates(),
    decreases s.len(),
{
    reveal(Seq::filter);
    if s.len() > 0 {
        let rest = s.drop_last();
        assert(rest.no_duplicates());
        lemma_filter_no_dup(rest, p);
        if p(s.last()) {
            if rest.filter(p).contains(s.last()) {
                rest.lemma_filter_contains_rev(p, s.last());
                let j = choose|j: int| 0 <= j < rest.len() && rest[j] == s.last();
                assert(s[j] == s[s.len() - 1]);
            }
            let f = rest.filter(p).push(s.last());
            assert forall|i: int, j: int| 0 <= i < f.len() && 0 <= j < f.len() && i != j implies f[i]
                != f[j] by {
                if i < f.len() - 1 && j < f.len() - 1 {
                    assert(f[i] == rest.filter(p)[i]);
                    assert(f[j] == rest.filter(p)[j]);
                } else if i == f.len() - 1 && j < f.len() - 1 {
                    assert(f[j] == rest.filter(p)[j]);
                    assert(rest.filter(p).contains(f[j]));
                } else if j == f.len() - 1 && i < f.len() - 1 {
                    assert(f[i] == rest.filter(p)[i]);
                    assert(rest.filter(p).contains(f[i]));
                }
            }
        }
    }
}

/// Some value carrying key `k` is `v`.
pub open spec fn carried<K, V>(keys: Seq<Option<K>>, vals: Seq<V>, k: K, v: V) -> bool {
    exists|m: int| #[trigger] carries(keys, vals, m, k, v)
}

/// Grouping is exact: every group holds at least two values, each of them a
/// value carrying the group's key; no key has two groups; and every value
/// whose key another value shares is in the group of that key.
pub proof fn law_groups_exact<K, V>(keys: Seq<Option<K>>, vals: Seq<V>)
    requires
        keys.len() == vals.len(),
    ensures
        forall|i: int| 0 <= i < groups_of(keys, vals).len() ==> #[trigger] groups_of(keys, vals)[i].1.len() >= 2,
        forall|i: int, j: int|
            0 <= i < groups_of(keys, vals).len() && 0 <= j < groups_of(keys, vals)[i].1.len()
                ==> #[trigger] carried(keys, vals, groups_of(keys, vals)[i].0, groups_of(keys, vals)[i].1[j]),
        forall|i: int, i2: int|
            0 <= i < groups_of(keys, vals).len() && 0 <= i2 < groups_of(keys, vals).len() && i != i2
                ==> #[trigger] groups_of(keys, vals)[i].0 != #[trigger] groups_of(keys, vals)[i2].0,
        forall|m: int, m2: int|
            0 <= m < keys.len() && 0 <= m2 < keys.len() && m != m2 && keys[m] is Some && #[trigger] keys[m]
                == #[trigger] keys[m2] ==> exists|i: int|
                0 <= i < groups_of(keys, vals).len() && groups_of(keys, vals)[i].0 == keys[m]->0
                    && #[trigger] groups_of(keys, vals)[i].1.contains(vals[m]),
{
    let dk = distinct_keys(keys);
    let p = |k: K| members(keys, vals, k).len() > 1;
    let f = |k: K| (k, members(keys, vals, k));
    let kept = dk.filter(p);
    let g = groups_of(keys, vals);
    assert(g == kept.map_values(f));
    assert forall|i: int| 0 <= i < g.len() implies #[trigger] g[i].1.len() >= 2 by {
        dk.lemma_filter_pred(p, i);
        assert(g[i] == f(kept[i]));
    }
    assert forall|i: int, j: int| 0 <= i < g.len() && 0 <= j < g[i].1.len() implies #[trigger] carried(
        keys,
        vals,
        g[i].0,
        g[i].1[j],
    ) by {
        assert(g[i] == f(kept[i]));
        assert(g[i].0 == kept[i] && g[i].1 == members(keys, vals, kept[i]));
        lemma_member_origin(keys, vals, kept[i], j);
        let m = choose|m: int| #[trigger] carries(keys, vals, m, kept[i], members(keys, vals, kept[i])[j]);
        assert(carries(keys, vals, m, g[i].0, g[i].1[j]));
    }
    lemma_distinct_keys_no_dup(keys);
    lemma_filter_no_dup(dk, p);
    assert forall|i: int, i2: int| 0 <= i < g.len() && 0 <= i2 < g.len() && i != i2 implies #[trigger] g[i].0
        != #[trigger] g[i2].0 by {
        assert(g[i].0 == kept[i]);
        assert(g[i2].0 == kept[i2]);
    }
    assert forall|m: int, m2: int|
        0 <= m < keys.len() && 0 <= m2 < keys.len() && m != m2 && keys[m] is Some && #[trigger] keys[m]
            == #[trigger] keys[m2] implies exists|i: int|
            0 <= i < g.len() && g[i].0 == keys[m]->0 && #[trigger] g[i].1.contains(vals[m]) by {
        let k = keys[m]->0;
        lemma_member_complete(keys, vals, m);
        if m < m2 {
            lemma_two_members(keys, vals, m, m2);
        } else {
            lemma_two_members(keys, vals, m2, m);
        }
        let di = choose|di: int| 0 <= di < dk.len() && dk[di] == k;
        dk.lemma_filter_contains(p, di);
        let i = choose|i: int| 0 <= i < kept.len() && kept[i] == k;
        assert(g[i] == f(k));
        assert(g[i].1 == members(keys, vals, k));
        assert(g[i].1.contains(vals[m]));
    }
}

/// Renaming every value renames the values gathered under each key, in place.
proof fn lemma_members_map<K, V, W>(keys: Seq<Option<K>>, vals: Seq<V>, f: spec_fn(V) -> W, k: K)
    requires
        keys.len() == vals.len(),
    ensures
        members(keys, vals.map_values(f), k) == members(keys, vals, k).map_values(f),
    decreases keys.len(),
{
    if keys.len() > 0 {
        lemma_members_map(keys.drop_last(), vals.drop_last(), f, k);
        assert(vals.map_values(f).drop_last() =~= vals.drop_last().map_values(f));
        let prev = members(keys.drop_last(), vals.drop_last(), k);
        if keys.last() == Some(k) {
            assert(prev.push(vals.last()).map_values(f) =~= prev.map_values(f).push(f(vals.last())));
        }
    } else {
        assert(members(keys, vals, k).map_values(f) =~= Seq::<W>::empty());
    }
}

/// Which values are grouped together depends on their keys alone, never on
/// the values themselves: renaming every value (a file's path) by `f` gives
/// the same groups, with the same keys, in the same order, holding the
/// renamed values in the same places.
pub proof fn law_renaming_maps_groups<K, V, W>(keys: Seq<Option<K>>, vals: Seq<V>, f: spec_fn(V) -> W)
    requires
        keys.len() == vals.len(),
    ensures
        groups_of(keys, vals.map_values(f)).len() == groups_of(keys, vals).len(),
        forall|i: int|
            0 <= i < groups_of(keys, vals).len() ==> #[trigger] groups_of(keys, vals.map_values(f))[i] == (
                groups_of(keys, vals)[i].0,
                groups_of(keys, vals)[i].1.map_values(f),
            ),
{
    let vals2 = vals.map_values(f);
    let p1 = |k: K| members(keys, vals, k).len() > 1;
    let p2 = |k: K| members(keys, vals2, k).len() > 1;
    assert forall|k: K| #[trigger] p1(k) == p2(k) by {
        lemma_members_map(keys, vals, f, k);
    }
    assert(p1 =~= p2);
    let kept = distinct_keys(keys).filter(p1);
    assert(groups_of(keys, vals) == kept.map_values(|k: K| (k, members(keys, vals, k))));
    assert(groups_of(keys, vals2) == kept.map_values(|k: K| (k, members(keys, vals2, k))));
    assert forall|i: int| 0 <= i < groups_of(keys, vals).len() implies #[trigger] groups_of(keys, vals2)[i] == (
        groups_of(keys, vals)[i].0,
        groups_of(keys, vals)[i].1.map_values(f),
    ) by {
        lemma_members_map(keys, vals, f, kept[i]);
    }
}

/// Renaming files (keeping their sizes and kinds) renames the size groups'
/// paths in place and changes nothing else.
pub proof fn law_size_groups_follow_renaming(entries: Seq<FileEntry>, renamed: Seq<FileEntry>, f: spec_fn(PathSeq) -> PathSeq)
    requires
        renamed.len() == entries.len(),
        forall|i: int|
            0 <= i < entries.len() ==> #[trigger] renamed[i].logical_size == entries[i].logical_size
                && renamed[i].is_dir == entries[i].is_dir && renamed[i].path@ == f(entries[i].path@),
    ensures
        groups_of(size_keys(renamed), entry_paths(renamed)).len() == groups_of(size_keys(entries), entry_paths(entries)).len(),
        forall|i: int|
            0 <= i < groups_of(size_keys(entries), entry_paths(entries)).len() ==> #[trigger] groups_of(
                size_keys(renamed),
                entry_paths(renamed),
            )[i] == (
                groups_of(size_keys(entries), entry_paths(entries))[i].0,
                groups_of(size_keys(entries), entry_paths(entries))[i].1.map_values(f),
            ),
{
    assert(size_keys(renamed) =~= size_keys(entries)) by {
        assert forall|i: int| 0 <= i < entries.len() implies size_keys(renamed)[i] == size_keys(entries)[i] by {
            assert(renamed[i].logical_size == entries[i].logical_size);
        }
    }
    assert(entry_paths(renamed) =~= entry_paths(entries).map_values(f)) by {
        assert forall|i: int| 0 <= i < entries.len() implies entry_paths(renamed)[i] == entry_paths(entries).map_values(f)[i] by {
            assert(renamed[i].logical_size == entries[i].logical_size);
            assert(renamed[i].path@ == f(entries[i].path@));
        }
    }
    law_renaming_maps_groups(size_keys(entries), entry_paths(entries), f);
}

/// Renaming files whose hashes stay what they were renames the hash groups'
/// paths in place and changes nothing else.
pub proof fn law_hash_groups_follow_renaming(hashed: Seq<HashedPath>, renamed: Seq<HashedPath>, f: spec_fn(PathSeq) -> PathSeq)
    requires
        renamed.len() == hashed.len(),
        forall|i: int|
            0 <= i < hashed.len() ==> #[trigger] hash_keys(renamed)[i] == hash_keys(hashed)[i]
                && renamed[i].path@ == f(hashed[i].path@),
    ensures
        groups_of(hash_keys(renamed), hashed_paths(renamed)).len() == groups_of(hash_keys(hashed), hashed_paths(hashed)).len(),
        forall|i: int|
            0 <= i < groups_of(hash_keys(hashed), hashed_paths(hashed)).len() ==> #[trigger] groups_of(
                hash_keys(renamed),
                hashed_paths(renamed),
            )[i] == (
                groups_of(hash_keys(hashed), hashed_paths(hashed))[i].0,
                groups_of(hash_keys(hashed), hashed_paths(hashed))[i].1.map_values(f),
            ),
{
    assert(hash_keys(renamed) =~= hash_keys(hashed));
    assert(hashed_paths(renamed) =~= hashed_paths(hashed).map_values(f)) by {
        assert forall|i: int| 0 <= i < hashed.len() implies hashed_paths(renamed)[i] == hashed_paths(hashed).map_values(f)[i] by {
            assert(hash_keys(renamed)[i] == hash_keys(hashed)[i]);
            assert(renamed[i].path@ == f(hashed[i].path@));
        }
    }
    law_renaming_maps_groups(hash_keys(hashed), hashed_paths(hashed), f);
}

/// One confirmed duplicate group, as values: its size, its content hash and
/// its files.
pub type DupView = (u64, Seq<char>, Seq<PathSeq>);

/// The groups confirmed among files `ps` of one size, `full` giving each
/// file's full hash (`None` when it cannot be read): the contract of
/// `confirm_groups`.
pub open spec fn confirmed_groups(size: u64, ps: Seq<PathSeq>, full: spec_fn(PathSeq) -> Option<Seq<char>>) -> Seq<DupView> {
    groups_of(ps.map_values(full), ps).map_values(|g: (Seq<char>, Seq<PathSeq>)| (size, g.0, g.1))
}

/// Stage three over the partial-hash groups of one size, in order.
pub open spec fn confirm_all(
    size: u64,
    pgs: Seq<(Seq<char>, Seq<PathSeq>)>,
    full: spec_fn(PathSeq) -> Option<Seq<char>>,
) -> Seq<DupView>
    decreases pgs.len(),
{
    if pgs.len() == 0 {
        seq![]
    } else {
        confirm_all(size, pgs.drop_last(), full) + confirmed_groups(size, pgs.last().1, full)
    }
}

/// Stages two and three over the size groups, in order, `partial` giving each
/// file's partial hash.
pub open spec fn confirm_sizes(
    sgs: Seq<(u64, Seq<PathSeq>)>,
    partial: spec_fn(PathSeq) -> Option<Seq<char>>,
    full: spec_fn(PathSeq) -> Option<Seq<char>>,
) -> Seq<DupView>
    decreases sgs.len(),
{
    if sgs.len() == 0 {
        seq![]
    } else {
        let g = sgs.last();
        confirm_sizes(sgs.drop_last(), partial, full) + confirm_all(
            g.0,
            groups_of(g.1.map_values(partial), g.1),
            full,
        )
    }
}

/// The duplicate groups the three stages find among `entries`: size groups
/// (`size_candidates`), split by partial hash (`group_by_hash`), each
/// confirmed by full hash (`confirm_groups`), in that order.
pub open spec fn duplicate_groups(
    entries: Seq<FileEntry>,
    partial: spec_fn(PathSeq) -> Option<Seq<char>>,
    full: spec_fn(PathSeq) -> Option<Seq<char>>,
) -> Seq<DupView> {
    confirm_sizes(groups_of(size_keys(entries), entry_paths(entries)), partial, full)
}

/// A group with its files renamed by `f`.
pub open spec fn renamed_group(d: DupView, f: spec_fn(PathSeq) -> PathSeq) -> DupView {
    (d.0, d.1, d.2.map_values(f))
}

proof fn lemma_confirmed_renamed(
    size: u64,
    ps: Seq<PathSeq>,
    f: spec_fn(PathSeq) -> PathSeq,
    full: spec_fn(PathSeq) -> Option<Seq<char>>,
    full2: spec_fn(PathSeq) -> Option<Seq<char>>,
)
    requires
        forall|p: PathSeq| #[trigger] full2(f(p)) == full(p),
    ensures
        confirmed_groups(size, ps.map_values(f), full2) == confirmed_groups(size, ps, full).map_values(
            |d: DupView| renamed_group(d, f),
        ),
{
    let keys = ps.map_values(full);
    assert(ps.map_values(f).map_values(full2) =~= keys) by {
        assert forall|i: int| 0 <= i < ps.len() implies ps.map_values(f).map_values(full2)[i] == keys[i] by {
            assert(full2(f(ps[i])) == full(ps[i]));
        }
    }
    law_renaming_maps_groups(keys, ps, f);
    let a = confirmed_groups(size, ps.map_values(f), full2);
    let b = confirmed_groups(size, ps, full).map_values(|d: DupView| renamed_group(d, f));
    assert(a =~= b) by {
        assert forall|i: int| 0 <= i < a.len() implies a[i] == b[i] by {
            assert(groups_of(keys, ps.map_values(f))[i] == (groups_of(keys, ps)[i].0, groups_of(keys, ps)[i].1.map_values(f)));
        }
    }
}

proof fn lemma_confirm_all_renamed(
    size: u64,
    pgs: Seq<(Seq<char>, Seq<PathSeq>)>,
    f: spec_fn(PathSeq) -> PathSeq,
    full: spec_fn(PathSeq) -> Option<Seq<char>>,
    full2: spec_fn(PathSeq) -> Option<Seq<char>>,
)
    requires
        forall|p: PathSeq| #[trigger] full2(f(p)) == full(p),
    ensures
        confirm_all(size, pgs.map_values(|g: (Seq<char>, Seq<PathSeq>)| (g.0, g.1.map_values(f))), full2)
            == confirm_all(size, pgs, full).map_values(|d: DupView| renamed_group(d, f)),
    decreases pgs.len(),
{
    let rn = |g: (Seq<char>, Seq<PathSeq>)| (g.0, g.1.map_values(f));
    let rd = |d: DupView| renamed_group(d, f);
    let pgs2 = pgs.map_values(rn);
    if pgs.len() > 0 {
        lemma_confirm_all_renamed(size, pgs.drop_last(), f, full, full2);
        assert(pgs2.drop_last() =~= pgs.drop_last().map_values(rn));
        assert(pgs2.last() == rn(pgs.last()));
        lemma_confirmed_renamed(size, pgs.last().1, f, full, full2);
        let x = confirm_all(size, pgs.drop_last(), full);
        let y = confirmed_groups(size, pgs.last().1, full);
        assert((x + y).map_values(rd) =~= x.map_values(rd) + y.map_values(rd));
    } else {
        assert(confirm_all(size, pgs, full).map_values(rd) =~= Seq::<DupView>::empty());
    }
}

proof fn lemma_confirm_sizes_renamed(
    sgs: Seq<(u64, Seq<PathSeq>)>,
    f: spec_fn(PathSeq) -> PathSeq,
    partial: spec_fn(PathSeq) -> Option<Seq<char>>,
    full: spec_fn(PathSeq) -> Option<Seq<char>>,
    partial2: spec_fn(PathSeq) -> Option<Seq<char>>,
    full2: spec_fn(PathSeq) -> Option<Seq<char>>,
)
    requires
        forall|p: PathSeq| #[trigger] partial2(f(p)) == partial(p),
        forall|p: PathSeq| #[trigger] full2(f(p)) == full(p),
    ensures
        confirm_sizes(sgs.map_values(|g: (u64, Seq<PathSeq>)| (g.0, g.1.map_values(f))), partial2, full2)
            == confirm_sizes(sgs, partial, full).map_values(|d: DupView| renamed_group(d, f)),
    decreases sgs.len(),
{
    let rs = |g: (u64, Seq<PathSeq>)| (g.0, g.1.map_values(f));
    let rn = |g: (Seq<char>, Seq<PathSeq>)| (g.0, g.1.map_values(f));
    let rd = |d: DupView| renamed_group(d, f);
    let sgs2 = sgs.map_values(rs);
    if sgs.len() > 0 {
        lemma_confirm_sizes_renamed(sgs.drop_last(), f, partial, full, partial2, full2);
        assert(sgs2.drop_last() =~= sgs.drop_last().map_values(rs));
        let g = sgs.last();
        assert(sgs2.last() == rs(g));
        let ps = g.1;
        let keys = ps.map_values(partial);
        assert(ps.map_values(f).map_values(partial2) =~= keys) by {
            assert forall|i: int| 0 <= i < ps.len() implies ps.map_values(f).map_values(partial2)[i] == keys[i] by {
                assert(partial2(f(ps[i])) == partial(ps[i]));
            }
        }
        law_renaming_maps_groups(keys, ps, f);
        assert(groups_of(keys, ps.map_values(f)) =~= groups_of(keys, ps).map_values(rn)) by {
            assert forall|i: int| 0 <= i < groups_of(keys, ps).len() implies groups_of(keys, ps.map_values(f))[i]
                == groups_of(keys, ps).map_values(rn)[i] by {
                assert(groups_of(keys, ps.map_values(f))[i] == (groups_of(keys, ps)[i].0, groups_of(keys, ps)[i].1.map_values(f)));
            }
        }
        lemma_confirm_all_renamed(g.0, groups_of(keys, ps), f, full, full2);
        let x = confirm_sizes(sgs.drop_last(), partial, full);
        let y = confirm_all(g.0, groups_of(keys, ps), full);
        assert((x + y).map_values(rd) =~= x.map_values(rd) + y.map_values(rd));
    } else {
        assert(confirm_sizes(sgs, partial, full).map_values(rd) =~= Seq::<DupView>::empty());
    }
}

/// File names are never a duplicate signal, across all three stages:
/// renaming every file by `f` (keeping its size, its kind and its content,
/// so that its partial and full hashes stay what they were) gives exactly the
/// same duplicate groups -- same sizes, same hashes, same order -- with the
/// files renamed in place.
pub proof fn law_duplicates_follow_renaming(
    entries: Seq<FileEntry>,
    renamed: Seq<FileEntry>,
    f: spec_fn(PathSeq) -> PathSeq,
    partial: spec_fn(PathSeq) -> Option<Seq<char>>,
    full: spec_fn(PathSeq) -> Option<Seq<char>>,
    partial2: spec_fn(PathSeq) -> Option<Seq<char>>,
    full2: spec_fn(PathSeq) -> Option<Seq<char>>,
)
    requires
        renamed.len() == entries.len(),
        forall|i: int|
            0 <= i < entries.len() ==> #[trigger] renamed[i].logical_size == entries[i].logical_size
                && renamed[i].is_dir == entries[i].is_dir && renamed[i].path@ == f(entries[i].path@),
        forall|p: PathSeq| #[trigger] partial2(f(p)) == partial(p),
        forall|p: PathSeq| #[trigger] full2(f(p)) == full(p),
    ensures
        duplicate_groups(renamed, partial2, full2) == duplicate_groups(entries, partial, full).map_values(
            |d: DupView| renamed_group(d, f),
        ),
{
    let sg = groups_of(size_keys(entries), entry_paths(entries));
    let rs = |g: (u64, Seq<PathSeq>)| (g.0, g.1.map_values(f));
    law_size_groups_follow_renaming(entries, renamed, f);
    assert(groups_of(size_keys(renamed), entry_paths(renamed)) =~= sg.map_values(rs)) by {
        assert forall|i: int| 0 <= i < sg.len() implies groups_of(size_keys(renamed), entry_paths(renamed))[i]
            == sg.map_values(rs)[i] by {
            assert(groups_of(size_keys(renamed), entry_paths(renamed))[i] == (sg[i].0, sg[i].1.map_values(f)));
        }
    }
    lemma_confirm_sizes_renamed(sg, f, partial, full, partial2, full2);
}

/// Stage one is complete, whatever the size: two different non-empty files
/// (not directories) of equal size always land together in the one size
/// group of that size.
pub proof fn law_equal_sizes_grouped(entries: Seq<FileEntry>, i: int, j: int)
    requires
        0 <= i < entries.len(),
        0 <= j < entries.len(),
        i != j,
        !entries[i].is_dir,
        !entries[j].is_dir,
        entries[i].logical_size > 0,
        entries[i].logical_size == entries[j].logical_size,
    ensures
        exists|g: int|
            0 <= g < groups_of(size_keys(entries), entry_paths(entries)).len()
                && #[trigger] groups_of(size_keys(entries), entry_paths(entries))[g].0 == entries[i].logical_size
                && groups_of(size_keys(entries), entry_paths(entries))[g].1.contains(entries[i].path@)
                && groups_of(size_keys(entries), entry_paths(entries))[g].1.contains(entries[j].path@),
{
    let keys = size_keys(entries);
    let vals = entry_paths(entries);
    let gs = groups_of(keys, vals);
    assert(keys[i] == Some(entries[i].logical_size));
    assert(keys[j] == Some(entries[j].logical_size));
    assert(vals[i] == entries[i].path@);
    assert(vals[j] == entries[j].path@);
    law_groups_exact(keys, vals);
    assert(keys[i] == keys[j]);
    let gi = choose|g: int| 0 <= g < gs.len() && gs[g].0 == keys[i]->0 && #[trigger] gs[g].1.contains(vals[i]);
    assert(keys[j] == keys[i]);
    let gj = choose|g: int| 0 <= g < gs.len() && gs[g].0 == keys[j]->0 && #[trigger] gs[g].1.contains(vals[j]);
    if gi != gj {
        assert(gs[gi].0 != gs[gj].0);
    }
    assert(gs[gi].1.contains(entries[j].path@));
}

/// Some non-empty file of the list, not a directory, has size `size` and path
/// `p`.
pub open spec fn sized_file_in(entries: Seq<FileEntry>, size: u64, p: PathSeq) -> bool {
    exists|m: int|
        0 <= m < entries.len() && !entries[m].is_dir && entries[m].logical_size > 0
            && entries[m].logical_size == size && #[trigger] entries[m].path@ == p
}

/// Size grouping never groups a directory or an empty file, and every group
/// holds files of exactly the group's size.
pub proof fn law_size_groups_sound(entries: Seq<FileEntry>)
    ensures
        forall|i: int, j: int|
            0 <= i < groups_of(size_keys(entries), entry_paths(entries)).len() && 0 <= j
                < groups_of(size_keys(entries), entry_paths(entries))[i].1.len() ==> #[trigger] sized_file_in(
                entries,
                groups_of(size_keys(entries), entry_paths(entries))[i].0,
                groups_of(size_keys(entries), entry_paths(entries))[i].1[j],
            ),
{
    let keys = size_keys(entries);
    let vals = entry_paths(entries);
    let g = groups_of(keys, vals);
    law_groups_exact(keys, vals);
    assert forall|i: int, j: int| 0 <= i < g.len() && 0 <= j < g[i].1.len() implies #[trigger] sized_file_in(
        entries,
        g[i].0,
        g[i].1[j],
    ) by {
        assert(carried(keys, vals, g[i].0, g[i].1[j]));
        let m = choose|m: int| #[trigger] carries(keys, vals, m, g[i].0, g[i].1[j]);
        assert(keys[m] == size_key(entries[m]));
        assert(vals[m] == entries[m].path@);
        assert(entries[m].path@ == g[i].1[j]);
    }
}

pub open spec fn size_group_view(g: SizeGroup) -> (u64, Seq<PathSeq>) {
    (g.size, paths_view(g.paths@))
}

pub open spec fn hash_group_view(g: HashGroup) -> (Seq<char>, Seq<PathSeq>) {
    (g.hash@, paths_view(g.paths@))
}

/// Finds `k` among `keys`.
fn find_size(keys: &Vec<u64>, k: u64) -> (r: Option<usize>)
    ensures
        match r {
            Some(j) => j < keys@.len() && keys@[j as int] == k,
            None => !keys@.contains(k),
        },
{
    let mut j: usize = 0;
    while j < keys.len()
        invariant
            j <= keys@.len(),
            forall|x: int| 0 <= x < j ==> keys@[x] != k,
        decreases keys@.len() - j,
    {
        if keys[j] == k {
            return Some(j);
        }
        j = j + 1;
    }
    None
}

/// Finds `k` among `keys`.
pub(crate) fn find_hash(keys: &Vec<String>, k: &String) -> (r: Option<usize>)
    ensures
        match r {
            Some(j) => j < keys@.len() && keys@[j as int]@ == k@,
            None => forall|x: int| 0 <= x < keys@.len() ==> keys@[x]@ != k@,
        },
{
    let mut j: usize = 0;
    while j < keys.len()
        invariant
            j <= keys@.len(),
            forall|x: int| 0 <= x < j ==> keys@[x]@ != k@,
        decreases keys@.len() - j,
    {
        if keys[j] == *k {
            return Some(j);
        }
        j = j + 1;
    }
    None
}

/// Appends a path to slot `j` of a list of path lists.
fn push_into(groups: &mut Vec<Vec<FsPath>>, j: usize, p: FsPath)
    requires
        j < old(groups)@.len(),
    ensures
        final(groups)@.len() == old(groups)@.len(),
        forall|x: int|
            0 <= x < final(groups)@.len() && x != j ==> #[trigger] final(groups)@[x] == old(groups)@[x],
        final(groups)@[j as int]@ == old(groups)@[j as int]@.push(p),
{
    let mut g = groups.remove(j);
    g.push(p);
    groups.insert(j, g);
}

pub open spec fn nested_paths_view(gs: Seq<Vec<FsPath>>) -> Seq<Seq<PathSeq>> {
    Seq::new(gs.len(), |i: int| paths_view(gs[i]@))
}

pub struct DuplicateEngine;

impl DuplicateEngine {
    pub fn new() -> (e: DuplicateEngine) {
        DuplicateEngine
    }

    /// Stage one: the non-empty files sharing their size with at least one
    /// other file, one group per size, sizes in order of first appearance.
    pub fn size_candidates(&self, entries: &[FileEntry]) -> (r: Vec<SizeGroup>)
        ensures
            Seq::new(r@.len(), |i: int| size_group_view(r@[i])) == groups_of(
                size_keys(entries@),
                entry_paths(entries@),
            ),
    {
        let ghost keys = size_keys(entries@);
        let ghost vals = entry_paths(entries@);
        let mut gkeys: Vec<u64> = Vec::new();
        let mut gvals: Vec<Vec<FsPath>> = Vec::new();
        let mut i: usize = 0;
        proof {
            assert(keys.take(0) =~= Seq::<Option<u64>>::empty());
            assert(gkeys@ =~= distinct_keys(keys.take(0)));
        }
        while i < entries.len()
            invariant
                i <= entries@.len(),
                keys == size_keys(entries@),
                vals == entry_paths(entries@),
                grouping_state(keys, vals, i as int, gkeys@, nested_paths_view(gvals@)),
            decreases entries@.len() - i,
        {
            let e = &entries[i];
            proof {
                assert(vals[i as int] == e.path@);
                assert(keys[i as int] == size_key(*e));
            }
            if !e.is_dir && e.logical_size > 0 {
                match find_size(&gkeys, e.logical_size) {
                    Some(j) => {
                        proof {
                            lemma_grouping_step(keys, vals, i as int, gkeys@, nested_paths_view(gvals@), j as int);
                        }
                        let ghost before = gvals@;
                        push_into(&mut gvals, j, e.path.copied());
                        proof {
                            assert(nested_paths_view(gvals@) =~~= nested_paths_view(before).update(
                                j as int,
                                nested_paths_view(before)[j as int].push(vals[i as int]),
                            ));
                        }
                    },
                    None => {
                        proof {
                            lemma_grouping_step(keys, vals, i as int, gkeys@, nested_paths_view(gvals@), -1);
                        }
                        let ghost before = gvals@;
                        gkeys.push(e.logical_size);
                        let mut g: Vec<FsPath> = Vec::new();
                        g.push(e.path.copied());
                        gvals.push(g);
                        proof {
                            assert(nested_paths_view(gvals@) =~~= nested_paths_view(before).push(
                                seq![vals[i as int]],
                            ));
                        }
                    },
                }
            } else {
                proof {
                    lemma_grouping_step(keys, vals, i as int, gkeys@, nested_paths_view(gvals@), -1);
                }
            }
            i = i + 1;
        }
        proof {
            lemma_grouping_done(keys, vals, gkeys@, nested_paths_view(gvals@));
        }
        let mut out: Vec<SizeGroup> = Vec::new();
        let n = gkeys.len();
        let mut rest = gvals;
        let mut j: usize = 0;
        proof {
            assert forall|x: int| 0 <= x < rest@.len() implies #[trigger] paths_view(rest@[x]@) == members(
                keys,
                vals,
                gkeys@[j + x],
            ) by {
                assert(nested_paths_view(rest@)[x] == paths_view(rest@[x]@));
            }
            assert(gkeys@.take(0).filter(|k: u64| members(keys, vals, k).len() > 1) =~= seq![]) by {
                reveal(Seq::filter);
            }
            assert(Seq::new(out@.len(), |x: int| size_group_view(out@[x])) =~= gkeys@.take(0).filter(
                |k: u64| members(keys, vals, k).len() > 1,
            ).map_values(|k: u64| (k, members(keys, vals, k))));
        }
        while j < n
            invariant
                n == gkeys@.len(),
                j <= n,
                rest@.len() == n - j,
                forall|x: int|
                    0 <= x < rest@.len() ==> #[trigger] paths_view(rest@[x]@) == members(
                        keys,
                        vals,
                        gkeys@[j + x],
                    ),
                Seq::new(out@.len(), |x: int| size_group_view(out@[x])) == gkeys@.take(j as int).filter(
                    |k: u64| members(keys, vals, k).len() > 1,
                ).map_values(|k: u64| (k, members(keys, vals, k))),
            decreases n - j,
        {
            let ghost before = Seq::new(out@.len(), |x: int| size_group_view(out@[x]));
            let ghost gv = Seq::new(n as nat, |x: int| members(keys, vals, gkeys@[x]));
            proof {
                assert forall|x: int| 0 <= x < gkeys@.len() implies #[trigger] gv[x] == members(keys, vals, gkeys@[x]) by {}
                lemma_filter_groups(keys, vals, gkeys@, gv, j as int, before);
                assert(paths_view(rest@[0]@) == members(keys, vals, gkeys@[j as int]));
            }
            let ghost rest_before = rest@;
            let g = rest.remove(0);
            if g.len() > 1 {
                out.push(SizeGroup { size: gkeys[j], paths: g });
                proof {
                    assert(Seq::new(out@.len(), |x: int| size_group_view(out@[x])) =~= before.push(
                        (gkeys@[j as int], gv[j as int]),
                    ));
                }
            }
            proof {
                assert forall|x: int| 0 <= x < rest@.len() implies #[trigger] paths_view(rest@[x]@)
                    == members(keys, vals, gkeys@[j + 1 + x]) by {
                    assert(rest@[x] == rest_before[x + 1]);
                    assert(paths_view(rest_before[x + 1]@) == members(keys, vals, gkeys@[j + (x + 1)]));
                }
            }
            j = j + 1;
        }
        proof {
            assert(gkeys@.take(n as int) =~= gkeys@);
        }
        out
    }

    /// Stages two and three: among the files of one size, those whose hashes
    /// agree with at least one other's, one group per hash, hashes in order of
    /// first appearance. Files that could not be hashed take no part.
    pub fn group_by_hash(&self, hashed: &[HashedPath]) -> (r: Vec<HashGroup>)
        ensures
            Seq::new(r@.len(), |i: int| hash_group_view(r@[i])) == groups_of(
                hash_keys(hashed@),
                hashed_paths(hashed@),
            ),
    {
        let ghost keys = hash_keys(hashed@);
        let ghost vals = hashed_paths(hashed@);
        let mut gkeys: Vec<String> = Vec::new();
        let mut gvals: Vec<Vec<FsPath>> = Vec::new();
        let mut i: usize = 0;
        proof {
            assert(keys.take(0) =~= Seq::<Option<Seq<char>>>::empty());
            assert(strings_view(gkeys@) =~= distinct_keys(keys.take(0)));
        }
        while i < hashed.len()
            invariant
                i <= hashed@.len(),
                keys == hash_keys(hashed@),
                vals == hashed_paths(hashed@),
                grouping_state(keys, vals, i as int, strings_view(gkeys@), nested_paths_view(gvals@)),
            decreases hashed@.len() - i,
        {
            let h = &hashed[i];
            proof {
                assert(vals[i as int] == h.path@);
            }
            match &h.hash {
                Some(hash) => {
                    proof {
                        assert(keys[i as int] == Some(hash@));
                    }
                    match find_hash(&gkeys, hash) {
                        Some(j) => {
                            proof {
                                assert(strings_view(gkeys@)[j as int] == hash@);
                                assert(strings_view(gkeys@).contains(hash@));
                                lemma_grouping_step(keys, vals, i as int, strings_view(gkeys@), nested_paths_view(gvals@), j as int);
                            }
                            let ghost before = gvals@;
                            push_into(&mut gvals, j, h.path.copied());
                            proof {
                                assert(nested_paths_view(gvals@) =~~= nested_paths_view(before).update(
                                    j as int,
                                    nested_paths_view(before)[j as int].push(vals[i as int]),
                                ));
                            }
                        },
                        None => {
                            proof {
                                if strings_view(gkeys@).contains(hash@) {
                                    let x = choose|x: int| 0 <= x < strings_view(gkeys@).len() && strings_view(gkeys@)[x] == hash@;
                                    assert(gkeys@[x]@ == hash@);
                                }
                                lemma_grouping_step(keys, vals, i as int, strings_view(gkeys@), nested_paths_view(gvals@), -1);
                            }
                            let ghost before = gvals@;
                            let ghost before_keys = gkeys@;
                            gkeys.push(hash.clone());
                            let mut g: Vec<FsPath> = Vec::new();
                            g.push(h.path.copied());
                            gvals.push(g);
                            proof {
                                assert(strings_view(gkeys@) =~= strings_view(before_keys).push(hash@));
                                assert(nested_paths_view(gvals@) =~~= nested_paths_view(before).push(
                                    seq![vals[i as int]],
                                ));
                            }
                        },
                    }
                },
                None => {
                    proof {
                        assert(keys[i as int] is None);
                        lemma_grouping_step(keys, vals, i as int, strings_view(gkeys@), nested_paths_view(gvals@), -1);
                    }
                },
            }
            i = i + 1;
        }
        proof {
            lemma_grouping_done(keys, vals, strings_view(gkeys@), nested_paths_view(gvals@));
        }
        let ghost gk = strings_view(gkeys@);
        let mut out: Vec<HashGroup> = Vec::new();
        let n = gkeys.len();
        let mut rest_vals = gvals;
        let mut rest_keys = gkeys;
        let mut j: usize = 0;
        proof {
            assert forall|x: int| 0 <= x < rest_vals@.len() implies #[trigger] paths_view(rest_vals@[x]@) == members(
                keys,
                vals,
                gk[j + x],
            ) by {
                assert(nested_paths_view(rest_vals@)[x] == paths_view(rest_vals@[x]@));
            }
            assert(gk.take(0).filter(|k: Seq<char>| members(keys, vals, k).len() > 1) =~= seq![]) by {
                reveal(Seq::filter);
            }
            assert(Seq::new(out@.len(), |x: int| hash_group_view(out@[x])) =~= gk.take(0).filter(
                |k: Seq<char>| members(keys, vals, k).len() > 1,
            ).map_values(|k: Seq<char>| (k, members(keys, vals, k))));
        }
        while j < n
            invariant
                n == gk.len(),
                j <= n,
                rest_vals@.len() == n - j,
                rest_keys@.len() == n - j,
                forall|x: int| 0 <= x < rest_keys@.len() ==> #[trigger] rest_keys@[x]@ == gk[j + x],
                forall|x: int|
                    0 <= x < rest_vals@.len() ==> #[trigger] paths_view(rest_vals@[x]@) == members(
                        keys,
                        vals,
                        gk[j + x],
                    ),
                Seq::new(out@.len(), |x: int| hash_group_view(out@[x])) == gk.take(j as int).filter(
                    |k: Seq<char>| members(keys, vals, k).len() > 1,
                ).map_values(|k: Seq<char>| (k, members(keys, vals, k))),
            decreases n - j,
        {
            let ghost before = Seq::new(out@.len(), |x: int| hash_group_view(out@[x]));
            let ghost gv = Seq::new(n as nat, |x: int| members(keys, vals, gk[x]));
            proof {
                assert forall|x: int| 0 <= x < gk.len() implies #[trigger] gv[x] == members(keys, vals, gk[x]) by {}
                lemma_filter_groups(keys, vals, gk, gv, j as int, before);
                assert(paths_view(rest_vals@[0]@) == members(keys, vals, gk[j as int]));
                assert(rest_keys@[0]@ == gk[j + 0]);
            }
            let ghost rv_before = rest_vals@;
            let ghost rk_before = rest_keys@;
            let g = rest_vals.remove(0);
            let k = rest_keys.remove(0);
            if g.len() > 1 {
                out.push(HashGroup { hash: k, paths: g });
                proof {
                    assert(Seq::new(out@.len(), |x: int| hash_group_view(out@[x])) =~= before.push(
                        (gk[j as int], gv[j as int]),
                    ));
                }
            }
            proof {
                assert forall|x: int| 0 <= x < rest_vals@.len() implies #[trigger] paths_view(rest_vals@[x]@)
                    == members(keys, vals, gk[j + 1 + x]) by {
                    assert(rest_vals@[x] == rv_before[x + 1]);
                    assert(paths_view(rv_before[x + 1]@) == members(keys, vals, gk[j + (x + 1)]));
                }
                assert forall|x: int| 0 <= x < rest_keys@.len() implies #[trigger] rest_keys@[x]@ == gk[j + 1 + x] by {
                    assert(rest_keys@[x] == rk_before[x + 1]);
                    assert(rk_before[x + 1]@ == gk[j + (x + 1)]);
                }
            }
            j = j + 1;
        }
        proof {
            assert(gk.take(n as int) =~= gk);
        }
        out
    }

    /// The confirmed duplicate groups among files of one size, from their full
    /// content hashes: one group per hash shared by at least two files, each
    /// with a fresh identifier. `None` when no identifier could be had, which
    /// cannot happen when there is no group (the result is then empty).
    pub fn confirm_groups(&self, size: u64, hashed: &[HashedPath]) -> (r: Option<Vec<DuplicateGroup>>)
        ensures
            r is None ==> groups_of(hash_keys(hashed@), hashed_paths(hashed@)).len() > 0,
            r matches Some(v) ==> {
                &&& v@.len() == groups_of(hash_keys(hashed@), hashed_paths(hashed@)).len()
                &&& forall|i: int|
                    #![trigger v@[i]]
                    0 <= i < v@.len() ==> v@[i].size == size && (v@[i].content_hash@, paths_view(
                        v@[i].paths@,
                    )) == groups_of(hash_keys(hashed@), hashed_paths(hashed@))[i]
            },
    {
        let groups = self.group_by_hash(hashed);
        let ghost gv = Seq::new(groups@.len(), |i: int| hash_group_view(groups@[i]));
        let n = groups.len();
        let mut rest = groups;
        let mut out: Vec<DuplicateGroup> = Vec::new();
        let mut j: usize = 0;
        while j < n
            invariant
                n == gv.len(),
                gv == groups_of(hash_keys(hashed@), hashed_paths(hashed@)),
                j <= n,
                rest@.len() == n - j,
                forall|x: int| 0 <= x < rest@.len() ==> #[trigger] hash_group_view(rest@[x]) == gv[j + x],
                out@.len() == j,
                forall|x: int|
                    #![trigger out@[x]]
                    0 <= x < j ==> out@[x].size == size && (out@[x].content_hash@, paths_view(
                        out@[x].paths@,
                    )) == gv[x],
            decreases n - j,
        {
            let ghost rest_before = rest@;
            let g = rest.remove(0);
            proof {
                assert(hash_group_view(g) == gv[j + 0]);
                assert forall|x: int| 0 <= x < rest@.len() implies #[trigger] hash_group_view(rest@[x]) == gv[j + 1 + x] by {
                    assert(rest@[x] == rest_before[x + 1]);
                    assert(hash_group_view(rest_before[x + 1]) == gv[j + (x + 1)]);
                }
            }
            let id = match new_id() {
                Some(id) => id,
                None => return None,
            };
            out.push(DuplicateGroup { id, size, content_hash: g.hash, paths: g.paths });
            j = j + 1;
        }
        Some(out)
    }
}

/// The identity of a string list, as texts.
pub open spec fn strings_view(ss: Seq<String>) -> Seq<Seq<char>> {
    Seq::new(ss.len(), |i: int| ss[i]@)
}

/// The result of `blake3::hash` followed by `Hash::to_hex`.
pub uninterp spec fn blake3_hex(data: Seq<u8>) -> Seq<char>;

/// Whether a text is lowercase hexadecimal.
pub open spec fn is_lower_hex(s: Seq<char>) -> bool {
    forall|i: int| 0 <= i < s.len() ==> ('0' <= #[trigger] s[i] <= '9' || 'a' <= s[i] <= 'f')
}

/// Calls `blake3::hash` on `data` and renders the 32-byte digest with
/// `Hash::to_hex` (documented as lowercase hexadecimal). Claims that the text
/// is a function of the bytes alone, 64 lowercase hex digits long; BLAKE3
/// itself is not restated.
#[verifier::external_body]
fn content_hash(data: &[u8]) -> (r: String)
    ensures
        r@ == blake3_hex(data@),
        r@.len() == 64,
        is_lower_hex(r@),
{
    blake3::hash(data).to_hex().to_string()
}

/// The partial hash of a file from its leading bytes (the caller reads at most
/// `PARTIAL_HASH_BYTES` of them).
pub fn partial_hash(leading_bytes: &[u8]) -> (r: String)
    ensures
        r@ == blake3_hex(leading_bytes@),
        r@.len() == 64,
        is_lower_hex(r@),
{
    content_hash(leading_bytes)
}

/// The full hash of a file from its whole content.
pub fn full_hash(content: &[u8]) -> (r: String)
    ensures
        r@ == blake3_hex(content@),
        r@.len() == 64,
        is_lower_hex(r@),
{
    content_hash(content)
}

/// Declares `blake3::Hasher` (opaque).
#[verifier::external_type_specification]
#[verifier::external_body]
pub struct ExBlake3Hasher(blake3::Hasher);

/// The bytes a `blake3::Hasher` has absorbed so far, in order.
pub uninterp spec fn hasher_input(h: blake3::Hasher) -> Seq<u8>;

/// Calls `blake3::Hasher::new`: a hasher that has absorbed nothing.
#[verifier::external_body]
fn hasher_new() -> (h: blake3::Hasher)
    ensures
        hasher_input(h) == Seq::<u8>::empty(),
{
    blake3::Hasher::new()
}

/// Calls `blake3::Hasher::update`, which adds `chunk` to the input (it may be
/// called any number of times).
#[verifier::external_body]
fn hasher_update(h: &mut blake3::Hasher, chunk: &[u8])
    ensures
        hasher_input(*final(h)) == hasher_input(*old(h)) + chunk@,
{
    h.update(chunk);
}

/// Calls `blake3::Hasher::finalize` and renders the digest with
/// `Hash::to_hex`. The crate documents `Hasher::new().update(input).finalize()`
/// as equal to `blake3::hash(input)`, so the text is the hash of everything
/// absorbed; finalizing does not change the state.
#[verifier::external_body]
fn hasher_hex(h: &blake3::Hasher) -> (r: String)
    ensures
        r@ == blake3_hex(hasher_input(*h)),
        r@.len() == 64,
        is_lower_hex(r@),
{
    h.finalize().to_hex().to_string()
}

/// The full hash of a file whose content arrives in chunks, so that a large
/// file never has to be held in memory at once.
pub struct ContentHasher {
    hasher: blake3::Hasher,
}

impl ContentHasher {
    /// The content fed so far, in order.
    pub closed spec fn fed(&self) -> Seq<u8> {
        hasher_input(self.hasher)
    }

    /// A hasher that has been fed nothing.
    pub fn new() -> (h: ContentHasher)
        ensures
            h.fed() == Seq::<u8>::empty(),
    {
        ContentHasher { hasher: hasher_new() }
    }

    /// Feeds the next chunk of content.
    pub fn update(&mut self, chunk: &[u8])
        ensures
            final(self).fed() == old(self).fed() + chunk@,
    {
        hasher_update(&mut self.hasher, chunk);
    }

    /// The full hash of everything fed: the same text `full_hash` gives for
    /// the whole content at once.
    pub fn finalize_hex(&self) -> (r: String)
        ensures
            r@ == blake3_hex(self.fed()),
            r@.len() == 64,
            is_lower_hex(r@),
    {
        hasher_hex(&self.hasher)
    }
}

} // verus!
