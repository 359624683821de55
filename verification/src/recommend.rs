//! Recommendation engine: turns classified directories into cleanup
//! candidates, one per category, and supplies the integer inputs of the
//! ranking (staleness in days, human-readable sizes). Items marked
//! never-auto-delete are never suggested: the user can still find them in the
//! storage explorer, but this engine's job is "safe to suggest", not
//! "everything that exists".

use vstd::prelude::*;
use crate::classification::ClassificationEngine;
use crate::duplicates::{
    distinct_keys, find_hash, grouping_state, lemma_distinct_keys_no_dup, lemma_grouping_done,
    lemma_grouping_step, lemma_member_complete, members, paths_view, strings_view,
};
use crate::model::{CleanupCandidate, DirectoryAggregate, SafetyLevel, Timestamp};
use crate::path::{FsPath, PathSeq};
use crate::runtime::new_id;
use crate::text::push_char;

verus! {

/// A classified directory: its aggregate, its category and its safety level.
pub type Classified = (DirectoryAggregate, String, SafetyLevel);

/// The category a classified directory is suggested under (none when it must
/// never be deleted automatically).
pub open spec fn category_key(c: Classified) -> Option<Seq<char>> {
    if c.2 == SafetyLevel::NeverAutoDelete { None } else { Some(c.1@) }
}

pub open spec fn category_keys(cs: Seq<Classified>) -> Seq<Option<Seq<char>>> {
    Seq::new(cs.len(), |i: int| category_key(cs[i]))
}

pub open spec fn positions(n: nat) -> Seq<int> {
    Seq::new(n, |i: int| i)
}

/// The positions of the directories suggested under category `k`, in order.
pub open spec fn category_members(cs: Seq<Classified>, k: Seq<char>) -> Seq<int> {
    members(category_keys(cs), positions(cs.len()), k)
}

/// The summed sizes of the directories at positions `idx`.
pub open spec fn sum_sizes(cs: Seq<Classified>, idx: Seq<int>) -> nat
    decreases idx.len(),
{
    if idx.len() == 0 {
        0
    } else {
        sum_sizes(cs, idx.drop_last()) + cs[idx.last()].0.total_size as nat
    }
}

/// Whether every category's summed size fits in a `u64`.
pub open spec fn category_sizes_fit(cs: Seq<Classified>) -> bool {
    forall|i: int|
        0 <= i < cs.len() && #[trigger] category_key(cs[i]) is Some ==> sum_sizes(
            cs,
            category_members(cs, category_key(cs[i])->0),
        ) <= u64::MAX
}

/// Whether `c` is the candidate for category `k`.
pub open spec fn candidate_for(c: CleanupCandidate, cs: Seq<Classified>, k: Seq<char>) -> bool {
    let idx = category_members(cs, k);
    &&& c.category_id@ == k
    &&& paths_view(c.paths@) == Seq::new(idx.len(), |j: int| cs[idx[j]].0.path@)
    &&& c.total_size == sum_sizes(cs, idx)
    &&& idx.len() > 0 && c.safety == cs[idx[0]].2
}

pub open spec fn index_view(v: Seq<usize>) -> Seq<int> {
    Seq::new(v.len(), |i: int| v[i] as int)
}

pub open spec fn nested_index_view(vs: Seq<Vec<usize>>) -> Seq<Seq<int>> {
    Seq::new(vs.len(), |i: int| index_view(vs[i]@))
}

proof fn lemma_members_nonempty<K, V>(keys: Seq<Option<K>>, vals: Seq<V>, k: K)
    requires
        keys.len() == vals.len(),
        distinct_keys(keys).contains(k),
    ensures
        members(keys, vals, k).len() > 0,
    decreases keys.len(),
{
    if keys.len() > 0 {
        let prev = distinct_keys(keys.drop_last());
        if keys.last() == Some(k) {
        } else {
            assert(prev.contains(k)) by {
                let j = choose|j: int| 0 <= j < distinct_keys(keys).len() && distinct_keys(keys)[j] == k;
                match keys.last() {
                    Some(x) => if !prev.contains(x) {
                        assert(j < prev.len());
                        assert(prev.push(x)[j] == prev[j]);
                    },
                    None => {},
                }
            }
            lemma_members_nonempty(keys.drop_last(), vals.drop_last(), k);
        }
    }
}

proof fn lemma_members_in_range<K>(keys: Seq<Option<K>>, n: nat, k: K)
    requires
        keys.len() == n,
    ensures
        forall|j: int|
            0 <= j < members(keys, positions(n), k).len() ==> 0 <= #[trigger] members(
                keys,
                positions(n),
                k,
            )[j] < n && keys[members(keys, positions(n), k)[j]] == Some(k),
    decreases n,
{
    if n > 0 {
        assert(positions(n).drop_last() =~= positions((n - 1) as nat));
        lemma_members_in_range(keys.drop_last(), (n - 1) as nat, k);
        let prev = members(keys.drop_last(), positions((n - 1) as nat), k);
        assert forall|j: int| 0 <= j < members(keys, positions(n), k).len() implies 0
            <= #[trigger] members(keys, positions(n), k)[j] < n && keys[members(
            keys,
            positions(n),
            k,
        )[j]] == Some(k) by {
            if j < prev.len() {
                assert(members(keys, positions(n), k)[j] == prev[j]);
                assert(keys.drop_last()[prev[j]] == keys[prev[j]]);
            }
        }
    }
}

/// A never-auto-delete directory is never suggested: every directory gathered
/// under a category belongs to that category and may be offered for cleanup.
pub proof fn law_never_auto_delete_never_suggested(cs: Seq<Classified>, k: Seq<char>)
    ensures
        forall|j: int|
            0 <= j < category_members(cs, k).len() ==> {
                let at = #[trigger] category_members(cs, k)[j];
                &&& 0 <= at < cs.len()
                &&& cs[at].2 != SafetyLevel::NeverAutoDelete
                &&& cs[at].1@ == k
            },
{
    let keys = category_keys(cs);
    lemma_members_in_range(keys, cs.len(), k);
    assert forall|j: int| 0 <= j < category_members(cs, k).len() implies {
        let at = #[trigger] category_members(cs, k)[j];
        &&& 0 <= at < cs.len()
        &&& cs[at].2 != SafetyLevel::NeverAutoDelete
        &&& cs[at].1@ == k
    } by {
        let at = category_members(cs, k)[j];
        assert(keys[at] == category_key(cs[at]));
    }
}

/// Every classified directory that is not marked never-auto-delete -- safe,
/// review or advanced alike -- is gathered under its own category: that
/// category has a candidate, and the directory is among its members.
pub proof fn law_every_offerable_directory_suggested(cs: Seq<Classified>, i: int)
    requires
        0 <= i < cs.len(),
        cs[i].2 != SafetyLevel::NeverAutoDelete,
    ensures
        exists|k: int|
            0 <= k < distinct_keys(category_keys(cs)).len() && #[trigger] distinct_keys(category_keys(cs))[k]
                == cs[i].1@,
        category_members(cs, cs[i].1@).contains(i),
{
    let keys = category_keys(cs);
    let vals = positions(cs.len());
    assert(keys[i] == Some(cs[i].1@));
    assert(vals[i] == i);
    lemma_member_complete(keys, vals, i);
    let k = choose|k: int| 0 <= k < distinct_keys(keys).len() && distinct_keys(keys)[k] == cs[i].1@;
    assert(distinct_keys(keys)[k] == cs[i].1@);
}

/// One more position joins the members of a prefix.
proof fn lemma_members_take_step(keys: Seq<Option<Seq<char>>>, m: int, k: Seq<char>)
    requires
        0 <= m < keys.len(),
    ensures
        members(keys.take(m + 1), positions((m + 1) as nat), k) == if keys[m] == Some(k) {
            members(keys.take(m), positions(m as nat), k).push(m)
        } else {
            members(keys.take(m), positions(m as nat), k)
        },
{
    assert(keys.take(m + 1).drop_last() =~= keys.take(m));
    assert(positions((m + 1) as nat).drop_last() =~= positions(m as nat));
    assert(keys.take(m + 1).last() == keys[m]);
    assert(positions((m + 1) as nat).last() == m);
}

/// The summed size of a prefix's members never exceeds the whole list's.
proof fn lemma_member_sizes_grow(cs: Seq<Classified>, m: int, k: Seq<char>)
    requires
        0 <= m <= cs.len(),
    ensures
        sum_sizes(cs, members(category_keys(cs).take(m), positions(m as nat), k)) <= sum_sizes(
            cs,
            category_members(cs, k),
        ),
    decreases cs.len() - m,
{
    let keys = category_keys(cs);
    if m < cs.len() {
        lemma_member_sizes_grow(cs, m + 1, k);
        lemma_members_take_step(keys, m, k);
        let prev = members(keys.take(m), positions(m as nat), k);
        if keys[m] == Some(k) {
            assert(prev.push(m).drop_last() =~= prev);
        }
    } else {
        assert(keys.take(m) =~= keys);
    }
}

/// Whether every category's summed size fits in a `u64`, so that the
/// candidates can be built.
pub fn category_sizes_fit_checked(classified: &[Classified]) -> (r: bool)
    ensures
        r == category_sizes_fit(classified@),
{
    let ghost cs = classified@;
    let ghost keys = category_keys(cs);
    let n = classified.len();
    let mut i: usize = 0;
    while i < n
        invariant
            cs == classified@,
            keys == category_keys(cs),
            n == cs.len(),
            i <= n,
            forall|a: int|
                0 <= a < i && #[trigger] category_key(cs[a]) is Some ==> sum_sizes(
                    cs,
                    category_members(cs, category_key(cs[a])->0),
                ) <= u64::MAX,
        decreases n - i,
    {
        if classified[i].2 != SafetyLevel::NeverAutoDelete {
            let ghost k = classified[i as int].1@;
            proof {
                assert(category_key(cs[i as int]) == Some(k));
            }
            let mut total: u64 = 0;
            let mut j: usize = 0;
            while j < n
                invariant
                    cs == classified@,
                    keys == category_keys(cs),
                    n == cs.len(),
                    j <= n,
                    i < n,
                    k == classified@[i as int].1@,
                    total == sum_sizes(cs, members(keys.take(j as int), positions(j as nat), k)),
                decreases n - j,
            {
                proof {
                    lemma_members_take_step(keys, j as int, k);
                    let prev = members(keys.take(j as int), positions(j as nat), k);
                    assert(prev.push(j as int).drop_last() =~= prev);
                    assert(keys[j as int] == category_key(cs[j as int]));
                }
                let other = &classified[j];
                if other.2 != SafetyLevel::NeverAutoDelete && crate::text::str_eq(
                    other.1.as_str(),
                    classified[i].1.as_str(),
                ) {
                    if other.0.total_size > u64::MAX - total {
                        proof {
                            lemma_member_sizes_grow(cs, j + 1, k);
                        }
                        return false;
                    }
                    total = total + other.0.total_size;
                }
                j = j + 1;
            }
            proof {
                assert(keys.take(n as int) =~= keys);
            }
        }
        i = i + 1;
    }
    true
}

pub struct RecommendationEngine;

impl RecommendationEngine {
    pub fn new() -> (e: RecommendationEngine) {
        RecommendationEngine
    }

    /// One cleanup candidate per category, categories in order of first
    /// appearance, never-auto-delete directories left out. Each candidate
    /// gathers its category's directories in order, sums their sizes, takes
    /// the safety level of the first, and is named by the knowledge base (or
    /// by its category identifier when the knowledge base does not know it).
    /// Each candidate gets a fresh identifier; `None` when none could be had,
    /// which cannot happen when no directory is suggested at all (the result
    /// is then empty).
    pub fn candidates(&self, classified: &[Classified], classifier: &ClassificationEngine) -> (r: Option<Vec<
        CleanupCandidate,
    >>)
        requires
            category_sizes_fit(classified@),
        ensures
            r is None ==> distinct_keys(category_keys(classified@)).len() > 0,
            r matches Some(v) ==> {
                &&& v@.len() == distinct_keys(category_keys(classified@)).len()
                &&& forall|i: int|
                    #![trigger v@[i]]
                    0 <= i < v@.len() ==> candidate_for(
                        v@[i],
                        classified@,
                        distinct_keys(category_keys(classified@))[i],
                    )
                &&& forall|i: int|
                    #![trigger v@[i]]
                    0 <= i < v@.len() ==> v@[i].display_name@ == classifier.display_name_for(
                        v@[i].category_id@,
                    )
            },
    {
        let ghost cs = classified@;
        let ghost keys = category_keys(cs);
        let ghost vals = positions(cs.len());
        let mut gkeys: Vec<String> = Vec::new();
        let mut gvals: Vec<Vec<usize>> = Vec::new();
        let mut i: usize = 0;
        proof {
            assert(keys.take(0) =~= Seq::<Option<Seq<char>>>::empty());
            assert(strings_view(gkeys@) =~= distinct_keys(keys.take(0)));
        }
        while i < classified.len()
            invariant
                cs == classified@,
                i <= cs.len(),
                keys == category_keys(cs),
                vals == positions(cs.len()),
                grouping_state(keys, vals, i as int, strings_view(gkeys@), nested_index_view(gvals@)),
            decreases cs.len() - i,
        {
            let entry = &classified[i];
            proof {
                assert(vals[i as int] == i);
            }
            if entry.2 != SafetyLevel::NeverAutoDelete {
                proof {
                    assert(keys[i as int] == Some(entry.1@));
                }
                let found = find_hash(&gkeys, &entry.1);
                match found {
                    Some(j) => {
                        proof {
                            assert(strings_view(gkeys@)[j as int] == entry.1@);
                            lemma_grouping_step(keys, vals, i as int, strings_view(gkeys@), nested_index_view(gvals@), j as int);
                        }
                        let ghost before = gvals@;
                        let mut g = gvals.remove(j);
                        g.push(i);
                        gvals.insert(j, g);
                        proof {
                            assert(nested_index_view(gvals@) =~~= nested_index_view(before).update(
                                j as int,
                                nested_index_view(before)[j as int].push(vals[i as int]),
                            ));
                        }
                    },
                    None => {
                        proof {
                            if strings_view(gkeys@).contains(entry.1@) {
                                let x = choose|x: int| 0 <= x < strings_view(gkeys@).len() && strings_view(gkeys@)[x] == entry.1@;
                                assert(gkeys@[x]@ == entry.1@);
                                assert(false);
                            }
                            lemma_grouping_step(keys, vals, i as int, strings_view(gkeys@), nested_index_view(gvals@), -1);
                        }
                        let ghost before = gvals@;
                        let ghost before_keys = gkeys@;
                        gkeys.push(entry.1.clone());
                        let mut g: Vec<usize> = Vec::new();
                        g.push(i);
                        gvals.push(g);
                        proof {
                            assert(strings_view(gkeys@) =~= strings_view(before_keys).push(entry.1@));
                            assert(nested_index_view(gvals@) =~~= nested_index_view(before).push(
                                seq![vals[i as int]],
                            ));
                        }
                    },
                }
            } else {
                proof {
                    assert(keys[i as int] is None);
                    lemma_grouping_step(keys, vals, i as int, strings_view(gkeys@), nested_index_view(gvals@), -1);
                }
            }
            i = i + 1;
        }
        proof {
            lemma_grouping_done(keys, vals, strings_view(gkeys@), nested_index_view(gvals@));
        }
        let ghost gk = strings_view(gkeys@);
        let mut out: Vec<CleanupCandidate> = Vec::new();
        let n = gkeys.len();
        let mut g: usize = 0;
        while g < n
            invariant
                cs == classified@,
                keys == category_keys(cs),
                vals == positions(cs.len()),
                category_sizes_fit(cs),
                n == gkeys@.len(),
                gk == strings_view(gkeys@),
                gk == distinct_keys(keys),
                gvals@.len() == n,
                forall|x: int| 0 <= x < n ==> #[trigger] nested_index_view(gvals@)[x] == members(keys, vals, gk[x]),
                g <= n,
                out@.len() == g,
                forall|x: int|
                    #![trigger out@[x]]
                    0 <= x < g ==> candidate_for(out@[x], cs, gk[x]) && out@[x].display_name@
                        == classifier.display_name_for(out@[x].category_id@),
            decreases n - g,
        {
            let idx = &gvals[g];
            let ghost k = gk[g as int];
            proof {
                assert(nested_index_view(gvals@)[g as int] == index_view(idx@));
                assert(index_view(idx@) == category_members(cs, k));
                assert(gk.contains(k));
                lemma_members_nonempty(keys, vals, k);
                lemma_members_in_range(keys, cs.len(), k);
                // the category's size fits: take the first member as the witness
                let first = category_members(cs, k)[0];
                assert(keys[first] == Some(k));
                assert(category_key(cs[first]) == Some(k));
                assert forall|y: int| 0 <= y < idx@.len() implies 0 <= #[trigger] idx@[y] < cs.len() by {
                    assert(index_view(idx@)[y] == idx@[y] as int);
                    assert(0 <= category_members(cs, k)[y] < cs.len());
                }
            }
            let mut paths: Vec<FsPath> = Vec::new();
            let mut total: u64 = 0;
            let mut x: usize = 0;
            while x < idx.len()
                invariant
                    cs == classified@,
                    index_view(idx@) == category_members(cs, k),
                    sum_sizes(cs, category_members(cs, k)) <= u64::MAX,
                    forall|y: int| 0 <= y < idx@.len() ==> 0 <= #[trigger] idx@[y] < cs.len(),
                    x <= idx@.len(),
                    total == sum_sizes(cs, index_view(idx@).take(x as int)),
                    paths@.len() == x,
                    paths_view(paths@) == Seq::new(x as nat, |y: int| cs[idx@[y] as int].0.path@),
                decreases idx@.len() - x,
            {
                let at = idx[x];
                proof {
                    let iv = index_view(idx@);
                    assert(iv.take(x + 1).drop_last() =~= iv.take(x as int));
                    assert(iv.take(x + 1).last() == at as int);
                    lemma_sum_sizes_prefix(cs, iv, x + 1);
                    assert(0 <= idx@[x as int] < cs.len());
                }
                let ghost before = paths@;
                paths.push(classified[at].0.path.copied());
                total = total + classified[at].0.total_size;
                proof {
                    assert(paths@.last()@ == cs[idx@[x as int] as int].0.path@);
                    assert(paths@.drop_last() == before);
                    let want = Seq::new((x + 1) as nat, |y: int| cs[idx@[y] as int].0.path@);
                    assert forall|y: int| 0 <= y < x + 1 implies paths_view(paths@)[y] == want[y] by {
                        if y < x {
                            assert(paths@[y] == before[y]);
                            assert(paths_view(before)[y] == Seq::new(x as nat, |y: int| cs[idx@[y] as int].0.path@)[y]);
                        }
                    }
                    assert(paths_view(paths@) =~~= want);
                }
                x = x + 1;
            }
            proof {
                assert(index_view(idx@).take(idx@.len() as int) =~= index_view(idx@));
                assert(paths_view(paths@) =~~= Seq::new(category_members(cs, k).len(), |y: int| cs[category_members(cs, k)[y]].0.path@));
            }
            let first = idx[0];
            let category_id = gkeys[g].clone();
            let display_name = match classifier.category_by_id(category_id.as_str()) {
                Some(c) => c.display_name,
                None => category_id.clone(),
            };
            let id = match new_id() {
                Some(id) => id,
                None => return None,
            };
            out.push(
                CleanupCandidate {
                    id,
                    category_id,
                    display_name,
                    paths,
                    total_size: total,
                    safety: classified[first].2,
                },
            );
            g = g + 1;
        }
        Some(out)
    }

    /// For each directory of category `category_id` with a known modification
    /// time, in order, the whole days between that time and `now` (zero when
    /// the time is not in the past).
    pub fn staleness_days(&self, classified: &[Classified], category_id: &str, now: Timestamp) -> (r: Vec<u64>)
        ensures
            r@ == stale_days(classified@, category_id@, now),
    {
        let mut out: Vec<u64> = Vec::new();
        let mut i: usize = 0;
        while i < classified.len()
            invariant
                i <= classified@.len(),
                out@ == stale_days(classified@.take(i as int), category_id@, now),
            decreases classified@.len() - i,
        {
            let c = &classified[i];
            proof {
                assert(classified@.take(i + 1).drop_last() =~= classified@.take(i as int));
                assert(classified@.take(i + 1).last() == *c);
            }
            if crate::text::str_eq(c.1.as_str(), category_id) {
                match c.0.latest_modified {
                    Some(t) => out.push(days_between(t, now)),
                    None => {},
                }
            }
            i = i + 1;
        }
        proof {
            assert(classified@.take(classified@.len() as int) =~= classified@);
        }
        out
    }
}

proof fn lemma_sum_sizes_prefix(cs: Seq<Classified>, idx: Seq<int>, k: int)
    requires
        0 <= k <= idx.len(),
    ensures
        sum_sizes(cs, idx.take(k)) <= sum_sizes(cs, idx),
    decreases idx.len() - k,
{
    if k < idx.len() {
        lemma_sum_sizes_prefix(cs, idx, k + 1);
        assert(idx.take(k + 1).drop_last() =~= idx.take(k));
    } else {
        assert(idx.take(k) =~= idx);
    }
}

/// A point in time as nanoseconds since the epoch.
pub open spec fn ts_nanos(t: Timestamp) -> int {
    t.secs * 1_000_000_000 + t.nanos
}

/// Whole days from `then` to `now`, zero when `then` is not before `now`.
pub open spec fn days_since(then: Timestamp, now: Timestamp) -> nat {
    let d = ts_nanos(now) - ts_nanos(then);
    if d <= 0 { 0 } else { (d / 86_400_000_000_000) as nat }
}

/// The staleness in days of each dated directory of one category, in order.
pub open spec fn stale_days(cs: Seq<Classified>, category_id: Seq<char>, now: Timestamp) -> Seq<u64>
    decreases cs.len(),
{
    if cs.len() == 0 {
        seq![]
    } else {
        let prev = stale_days(cs.drop_last(), category_id, now);
        let c = cs.last();
        if c.1@ == category_id && c.0.latest_modified is Some {
            prev.push(days_since(c.0.latest_modified->0, now) as u64)
        } else {
            prev
        }
    }
}

/// Computes `days_since`.
fn days_between(then: Timestamp, now: Timestamp) -> (r: u64)
    ensures
        r == days_since(then, now),
{
    let a = (now.secs as i128) * 1_000_000_000i128 + (now.nanos as i128);
    let b = (then.secs as i128) * 1_000_000_000i128 + (then.nanos as i128);
    proof {
        assert(a == ts_nanos(now));
        assert(b == ts_nanos(then));
    }
    let d = a - b;
    if d <= 0 {
        return 0;
    }
    let days = d / 86_400_000_000_000i128;
    proof {
        assert(d <= 2 * 0x8000_0000_0000_0000 * 1_000_000_000 + 8_000_000_000);
        assert(days <= d / 86_400_000_000_000) by (nonlinear_arith)
            requires
                days == d / 86_400_000_000_000,
        ;
        assert(d / 86_400_000_000_000 <= u64::MAX) by (nonlinear_arith)
            requires
                0 < d <= 2 * 0x8000_0000_0000_0000 * 1_000_000_000 + 8_000_000_000,
        ;
    }
    days as u64
}

/// The units a size is shown in, smallest first.
pub open spec fn unit_name(u: nat) -> Seq<char> {
    if u == 0 {
        "B"@
    } else if u == 1 {
        "KB"@
    } else if u == 2 {
        "MB"@
    } else if u == 3 {
        "GB"@
    } else {
        "TB"@
    }
}

pub open spec fn pow1024(u: nat) -> nat
    decreases u,
{
    if u == 0 { 1 } else { 1024 * pow1024((u - 1) as nat) }
}

/// The unit a size is shown in: the largest (up to terabytes) it reaches.
pub open spec fn unit_of(bytes: nat) -> nat {
    if bytes >= pow1024(4) {
        4
    } else if bytes >= pow1024(3) {
        3
    } else if bytes >= pow1024(2) {
        2
    } else if bytes >= pow1024(1) {
        1
    } else {
        0
    }
}

/// A size in tenths of its unit, rounded to the nearest tenth (ties to an even
/// last digit), as `{:.1}` renders it.
pub open spec fn tenths(bytes: nat) -> nat {
    let d = pow1024(unit_of(bytes));
    let q = (bytes * 10) / d;
    let r = (bytes * 10) % d;
    if 2 * r > d || (2 * r == d && q % 2 == 1) { q + 1 } else { q }
}

/// The decimal digits of a number.
pub open spec fn decimal(n: nat) -> Seq<char>
    decreases n,
{
    if n < 10 {
        seq![digit_char(n)]
    } else {
        decimal(n / 10).push(digit_char(n % 10))
    }
}

pub open spec fn digit_char(d: nat) -> char {
    if d < 10 { ((d + 48) as u8) as char } else { '?' }
}

/// The power of two by which a count is scaled down to fit the 53-bit
/// significand of an `f64`, looked for from `p` on, doubling at most `fuel`
/// more times.
pub open spec fn f64_scale_from(b: nat, p: nat, fuel: nat) -> nat
    decreases fuel,
{
    if fuel == 0 || p == 0 || b / p < 0x20_0000_0000_0000 {
        p
    } else {
        f64_scale_from(b, 2 * p, (fuel - 1) as nat)
    }
}

/// The value of `b as f64` for a 64-bit count: `b` rounded to 53 significant
/// bits, to nearest, ties to an even significand.
pub open spec fn f64_value(b: nat) -> nat {
    let p = f64_scale_from(b, 1, 11);
    let q = b / p;
    let r = b % p;
    if 2 * r > p || (2 * r == p && q % 2 == 1) { (q + 1) * p } else { q * p }
}

/// A byte count as text, with one decimal, in the largest unit it reaches, as
/// the count converted to `f64` prints with `{:.1}`: `"1.5 KB"`, `"500.0 B"`.
pub open spec fn human_size_text(bytes: nat) -> Seq<char> {
    let v = f64_value(bytes);
    let t = tenths(v);
    decimal(t / 10) + seq!['.', digit_char(t % 10), ' '] + unit_name(unit_of(v))
}

/// Computes `f64_value` (the result may be 2^64 itself).
fn to_f64_value(bytes: u64) -> (r: u128)
    ensures
        r == f64_value(bytes as nat),
        r <= 0x1_0000_0000_0000_0000,
{
    let b = bytes as u128;
    let mut p: u128 = 1;
    let mut fuel: u32 = 11;
    proof {
        reveal_with_fuel(pow2_fuel, 12);
    }
    while fuel > 0 && b / p >= 0x20_0000_0000_0000
        invariant
            1 <= p <= 2048,
            fuel <= 11,
            p * pow2_fuel(fuel as nat) == 2048,
            f64_scale_from(b as nat, p as nat, fuel as nat) == f64_scale_from(b as nat, 1, 11),
        decreases fuel,
    {
        proof {
            let x = pow2_fuel((fuel - 1) as nat);
            lemma_pow2_fuel_positive((fuel - 1) as nat);
            assert(pow2_fuel(fuel as nat) == 2 * x);
            assert((p * 2) * x == 2048) by (nonlinear_arith)
                requires
                    p * (2 * x) == 2048,
            ;
            assert(p * 2 <= 2048) by (nonlinear_arith)
                requires
                    (p * 2) * x == 2048,
                    x >= 1,
            ;
        }
        p = p * 2;
        fuel = fuel - 1;
    }
    proof {
        assert(f64_scale_from(b as nat, p as nat, fuel as nat) == p);
    }
    let q = b / p;
    let r = b % p;
    proof {
        assert(q * p + r == b) by (nonlinear_arith)
            requires
                q == b / p,
                r == b % p,
                p > 0,
        ;
        assert(q * p <= b);
        assert((q + 1) * p <= b + p) by (nonlinear_arith)
            requires
                q * p <= b,
        ;
    }
    if 2 * r > p || (2 * r == p && q % 2 == 1) {
        proof {
            if fuel > 0 {
                assert(q < 0x20_0000_0000_0000);
                assert((q + 1) * p <= 0x20_0000_0000_0000 * p) by (nonlinear_arith)
                    requires
                        q + 1 <= 0x20_0000_0000_0000,
                        p > 0,
                ;
                assert(0x20_0000_0000_0000 * p <= 0x1_0000_0000_0000_0000) by (nonlinear_arith)
                    requires
                        p <= 2048,
                ;
            } else {
                let x = pow2_fuel(fuel as nat);
                assert(x == 1);
                assert(p == 2048) by (nonlinear_arith)
                    requires
                        p * x == 2048,
                        x == 1,
                ;
                assert(q < 0x20_0000_0000_0000) by (nonlinear_arith)
                    requires
                        q == b / p,
                        p == 2048,
                        b < 0x1_0000_0000_0000_0000,
                ;
                assert((q + 1) * p <= 0x20_0000_0000_0000 * 2048) by (nonlinear_arith)
                    requires
                        q + 1 <= 0x20_0000_0000_0000,
                        p == 2048,
                ;
            }
        }
        (q + 1) * p
    } else {
        q * p
    }
}

proof fn lemma_pow2_fuel_positive(n: nat)
    ensures
        pow2_fuel(n) >= 1,
    decreases n,
{
    if n > 0 {
        lemma_pow2_fuel_positive((n - 1) as nat);
    }
}

/// `2` to the power `n`.
pub open spec fn pow2_fuel(n: nat) -> nat
    decreases n,
{
    if n == 0 { 1 } else { 2 * pow2_fuel((n - 1) as nat) }
}

/// Appends the decimal digits of `n`.
fn push_decimal(out: &mut String, n: u128)
    ensures
        final(out)@ == old(out)@ + decimal(n as nat),
    decreases n,
{
    if n >= 10 {
        push_decimal(out, n / 10);
        proof {
            assert(((n % 10) as nat) < 10);
        }
        let d = (n % 10) as u8;
        push_char(out, (d + 48) as char);
        proof {
            assert(decimal(n as nat) == decimal((n / 10) as nat).push(digit_char((n % 10) as nat)));
        }
    } else {
        let d = n as u8;
        push_char(out, (d + 48) as char);
        proof {
            assert(decimal(n as nat) == seq![digit_char(n as nat)]);
        }
    }
}

/// A byte count as text with one decimal in the largest unit it reaches, up
/// to terabytes.
pub fn human_size(bytes: u64) -> (r: String)
    ensures
        r@ == human_size_text(bytes as nat),
{
    proof {
        reveal_with_fuel(pow1024, 5);
    }
    let b = to_f64_value(bytes);
    let ghost v = f64_value(bytes as nat);
    let (unit, d): (usize, u128) = if b >= 1099511627776 {
        (4, 1099511627776)
    } else if b >= 1073741824 {
        (3, 1073741824)
    } else if b >= 1048576 {
        (2, 1048576)
    } else if b >= 1024 {
        (1, 1024)
    } else {
        (0, 1)
    };
    proof {
        assert(d == pow1024(unit_of(v)));
        assert(unit == unit_of(v));
    }
    let scaled = b * 10;
    let q = scaled / d;
    let rem = scaled % d;
    let t = if 2 * rem > d || (2 * rem == d && q % 2 == 1) { q + 1 } else { q };
    proof {
        assert(t == tenths(v));
    }
    let mut out = String::new();
    push_decimal(&mut out, t / 10);
    push_char(&mut out, '.');
    let last = (t % 10) as u8;
    push_char(&mut out, (last + 48) as char);
    push_char(&mut out, ' ');
    let name = if unit == 0 {
        "B"
    } else if unit == 1 {
        "KB"
    } else if unit == 2 {
        "MB"
    } else if unit == 3 {
        "GB"
    } else {
        "TB"
    };
    out.append(name);
    proof {
        assert(name@ == unit_name(unit as nat));
        assert(out@ =~= human_size_text(bytes as nat));
    }
    out
}

} // verus!
