//! HistoryEngine: lightweight per-scan category snapshots, and the diff of the
//! oldest and newest snapshot in a window that answers "why is my disk full?"
//! -- total growth plus the categories that grew the most, never raw file
//! listings.

use vstd::prelude::*;
use crate::model::{CategoryTotal, HistoricalSnapshot};
use crate::runtime::{new_id, now};

verus! {

/// How much one category grew (negative when it shrank).
#[derive(Debug, Clone)]
pub struct CategoryDelta {
    pub category_id: String,
    pub delta_bytes: i64,
}

/// Growth between the oldest and the newest snapshot of a window.
#[derive(Debug, Clone)]
pub struct GrowthSummary {
    pub growth_bytes: i64,
    pub period_days: i64,
    pub top_contributors: Vec<CategoryDelta>,
}

/// The most categories a growth summary reports.
pub const TOP_CONTRIBUTORS: usize = 5;

/// A byte count reinterpreted as a signed 64-bit integer (two's complement),
/// as `x as i64` does.
pub open spec fn as_signed(x: u64) -> int {
    if x <= i64::MAX { x as int } else { x as int - 0x1_0000_0000_0000_0000 }
}

/// Computes `as_signed`.
fn to_signed(x: u64) -> (r: i64)
    ensures
        r == as_signed(x),
{
    if x <= 9223372036854775807u64 {
        x as i64
    } else {
        ((x - 9223372036854775808u64) as i64) + i64::MIN
    }
}

/// What a delta says, as numbers.
pub struct DeltaView {
    pub category_id: Seq<char>,
    pub delta: int,
}

pub open spec fn delta_view(d: CategoryDelta) -> DeltaView {
    DeltaView { category_id: d.category_id@, delta: d.delta_bytes as int }
}

pub open spec fn deltas_view(ds: Seq<CategoryDelta>) -> Seq<DeltaView> {
    Seq::new(ds.len(), |i: int| delta_view(ds[i]))
}

/// The size recorded for `id` in `cats`: the last entry with that id wins, and
/// a category that is absent counts as zero.
pub open spec fn prior_total(cats: Seq<CategoryTotal>, id: Seq<char>) -> nat
    decreases cats.len(),
{
    if cats.len() == 0 {
        0
    } else if cats.last().category_id@ == id {
        cats.last().total_size as nat
    } else {
        prior_total(cats.drop_last(), id)
    }
}

/// The total recorded under `id` is that of the last entry with that id,
/// wherever it sits, or zero when there is none.
proof fn lemma_prior_total_at(cats: Seq<CategoryTotal>, id: Seq<char>, j: int)
    requires
        0 <= j < cats.len(),
        cats[j].category_id@ == id,
        forall|k: int| j < k < cats.len() ==> #[trigger] cats[k].category_id@ != id,
    ensures
        prior_total(cats, id) == cats[j].total_size,
    decreases cats.len(),
{
    if j < cats.len() - 1 {
        assert(cats[cats.len() - 1].category_id@ != id);
        lemma_prior_total_at(cats.drop_last(), id, j);
        assert(cats.drop_last()[j] == cats[j]);
    }
}

proof fn lemma_prior_total_absent(cats: Seq<CategoryTotal>, id: Seq<char>)
    requires
        forall|k: int| 0 <= k < cats.len() ==> #[trigger] cats[k].category_id@ != id,
    ensures
        prior_total(cats, id) == 0,
    decreases cats.len(),
{
    if cats.len() > 0 {
        assert(cats[cats.len() - 1].category_id@ != id);
        assert forall|k: int| 0 <= k < cats.drop_last().len() implies #[trigger] cats.drop_last()[k].category_id@ != id by {
            assert(cats.drop_last()[k] == cats[k]);
        }
        lemma_prior_total_absent(cats.drop_last(), id);
    }
}

/// A category's change is its newest total minus the total the oldest
/// snapshot records under the same category id -- wherever that entry sits
/// (the last one, if the id occurs more than once).
pub proof fn law_delta_against_same_category(first: HistoricalSnapshot, last: HistoricalSnapshot, i: int, j: int)
    requires
        0 <= i < last.category_totals@.len(),
        0 <= j < first.category_totals@.len(),
        first.category_totals@[j].category_id@ == last.category_totals@[i].category_id@,
        forall|k: int|
            j < k < first.category_totals@.len() ==> #[trigger] first.category_totals@[k].category_id@
                != last.category_totals@[i].category_id@,
    ensures
        raw_deltas(first, last)[i].category_id == last.category_totals@[i].category_id@,
        raw_deltas(first, last)[i].delta == as_signed(last.category_totals@[i].total_size) - as_signed(
            first.category_totals@[j].total_size,
        ),
{
    lemma_prior_total_at(first.category_totals@, last.category_totals@[i].category_id@, j);
}

/// A category the oldest snapshot does not record at all grew by its whole
/// newest total.
pub proof fn law_delta_of_new_category(first: HistoricalSnapshot, last: HistoricalSnapshot, i: int)
    requires
        0 <= i < last.category_totals@.len(),
        forall|k: int|
            0 <= k < first.category_totals@.len() ==> #[trigger] first.category_totals@[k].category_id@
                != last.category_totals@[i].category_id@,
    ensures
        raw_deltas(first, last)[i].category_id == last.category_totals@[i].category_id@,
        raw_deltas(first, last)[i].delta == as_signed(last.category_totals@[i].total_size),
{
    lemma_prior_total_absent(first.category_totals@, last.category_totals@[i].category_id@);
}

/// Each category of the newest snapshot, with how much it changed since the
/// oldest one, in the newest snapshot's order.
pub open spec fn raw_deltas(first: HistoricalSnapshot, last: HistoricalSnapshot) -> Seq<DeltaView> {
    Seq::new(
        last.category_totals@.len(),
        |i: int|
            DeltaView {
                category_id: last.category_totals@[i].category_id@,
                delta: as_signed(last.category_totals@[i].total_size) - as_signed(
                    prior_total(first.category_totals@, last.category_totals@[i].category_id@)
                        as u64,
                ),
            },
    )
}

/// Inserts `x` into a ranking after every entry that grew at least as much.
pub open spec fn insert_ranked(ranked: Seq<DeltaView>, x: DeltaView) -> Seq<DeltaView>
    decreases ranked.len(),
{
    if ranked.len() == 0 {
        seq![x]
    } else if ranked.last().delta >= x.delta {
        ranked.push(x)
    } else {
        insert_ranked(ranked.drop_last(), x).push(ranked.last())
    }
}

/// Stable ranking by decreasing delta: entries that grew equally keep their order.
pub open spec fn rank(ds: Seq<DeltaView>) -> Seq<DeltaView>
    decreases ds.len(),
{
    if ds.len() == 0 {
        seq![]
    } else {
        insert_ranked(rank(ds.drop_last()), ds.last())
    }
}

/// Whether a ranking lists deltas from largest to smallest.
pub open spec fn ranked_desc(ds: Seq<DeltaView>) -> bool {
    forall|i: int, j: int| 0 <= i < j < ds.len() ==> ds[i].delta >= ds[j].delta
}

/// Whether a window of snapshots can be summarised without overflowing: the
/// total growth and every category's change fit in an `i64`.
pub open spec fn growth_fits(snapshots: Seq<HistoricalSnapshot>) -> bool {
    snapshots.len() > 0 && snapshots[0].id != snapshots.last().id ==> {
        let first = snapshots[0];
        let last = snapshots.last();
        &&& i64::MIN <= as_signed(last.total_size) - as_signed(first.total_size) <= i64::MAX
        &&& forall|i: int|
            #![trigger raw_deltas(first, last)[i]]
            0 <= i < raw_deltas(first, last).len() ==> i64::MIN <= raw_deltas(first, last)[i].delta
                <= i64::MAX
    }
}

proof fn lemma_insert_ranked_len(ranked: Seq<DeltaView>, x: DeltaView)
    ensures
        insert_ranked(ranked, x).len() == ranked.len() + 1,
    decreases ranked.len(),
{
    if ranked.len() > 0 && ranked.last().delta < x.delta {
        lemma_insert_ranked_len(ranked.drop_last(), x);
    }
}

/// Where `insert_ranked` places `x`: after the entries that grew at least as
/// much, found by walking back from the end.
proof fn lemma_insert_ranked_at(ranked: Seq<DeltaView>, x: DeltaView, pos: int)
    requires
        0 <= pos <= ranked.len(),
        forall|k: int| pos <= k < ranked.len() ==> ranked[k].delta < x.delta,
        pos == 0 || ranked[pos - 1].delta >= x.delta,
    ensures
        insert_ranked(ranked, x) == ranked.take(pos) + seq![x] + ranked.skip(pos),
    decreases ranked.len(),
{
    if ranked.len() == 0 {
        assert(ranked.take(pos) + seq![x] + ranked.skip(pos) =~= seq![x]);
    } else if ranked.last().delta >= x.delta {
        assert(pos == ranked.len());
        assert(ranked.take(pos) + seq![x] + ranked.skip(pos) =~= ranked.push(x));
    } else {
        let r = ranked.drop_last();
        lemma_insert_ranked_at(r, x, pos);
        assert(ranked.take(pos) + seq![x] + ranked.skip(pos) =~= (r.take(pos) + seq![x] + r.skip(
            pos,
        )).push(ranked.last()));
    }
}

proof fn lemma_insert_ranked_sorted(ranked: Seq<DeltaView>, x: DeltaView)
    requires
        ranked_desc(ranked),
    ensures
        ranked_desc(insert_ranked(ranked, x)),
        insert_ranked(ranked, x).to_multiset() == ranked.to_multiset().insert(x),
    decreases ranked.len(),
{
    broadcast use vstd::seq_lib::group_to_multiset_ensures;
    if ranked.len() == 0 {
        assert(seq![x] =~= Seq::<DeltaView>::empty().push(x));
    } else if ranked.last().delta >= x.delta {
    } else {
        let r = ranked.drop_last();
        lemma_insert_ranked_sorted(r, x);
        lemma_insert_ranked_len(r, x);
        let ir = insert_ranked(r, x);
        assert(ranked =~= r.push(ranked.last()));
        assert forall|i: int, j: int| 0 <= i < j < ir.push(ranked.last()).len() implies ir.push(
            ranked.last(),
        )[i].delta >= ir.push(ranked.last())[j].delta by {
            if j == ir.len() {
                // every entry of ir is either x or an entry of r, all at least ranked.last()
                assert(ir.to_multiset().contains(ir[i]));
                assert(ir.to_multiset() == r.to_multiset().insert(x));
                if ir[i] != x {
                    assert(r.to_multiset().contains(ir[i]));
                    assert(r.contains(ir[i]));
                    let k = choose|k: int| 0 <= k < r.len() && r[k] == ir[i];
                    assert(ranked[k] == r[k]);
                }
            }
        }
        assert(ir.push(ranked.last()).to_multiset() == ranked.to_multiset().insert(x)) by {
            assert(ranked.to_multiset() == r.to_multiset().insert(ranked.last()));
        }
    }
}

/// The ranking lists every delta exactly once, largest first.
pub proof fn law_rank_sorted_permutation(ds: Seq<DeltaView>)
    ensures
        ranked_desc(rank(ds)),
        rank(ds).to_multiset() == ds.to_multiset(),
        rank(ds).len() == ds.len(),
    decreases ds.len(),
{
    broadcast use vstd::seq_lib::group_to_multiset_ensures;
    if ds.len() == 0 {
    } else {
        law_rank_sorted_permutation(ds.drop_last());
        lemma_insert_ranked_sorted(rank(ds.drop_last()), ds.last());
        lemma_insert_ranked_len(rank(ds.drop_last()), ds.last());
        assert(ds =~= ds.drop_last().push(ds.last()));
    }
}

/// The growth summary for a window of snapshots, oldest first: `None` unless
/// the window holds two distinct snapshots.
pub open spec fn summary_exists(snapshots: Seq<HistoricalSnapshot>) -> bool {
    snapshots.len() > 0 && snapshots[0].id != snapshots.last().id
}

/// The size recorded for `id` among `cats`, the last entry with that id winning.
fn prior_total_of(cats: &Vec<CategoryTotal>, id: &String) -> (r: u64)
    ensures
        r == prior_total(cats@, id@),
{
    let mut i = cats.len();
    proof {
        assert(cats@.take(i as int) =~= cats@);
    }
    while i > 0
        invariant
            i <= cats@.len(),
            prior_total(cats@, id@) == prior_total(cats@.take(i as int), id@),
        decreases i,
    {
        let c = &cats[i - 1];
        proof {
            assert(cats@.take(i as int).drop_last() =~= cats@.take(i - 1));
            assert(cats@.take(i as int).last() == cats@[i - 1]);
        }
        if c.category_id == *id {
            return c.total_size;
        }
        i = i - 1;
    }
    proof {
        assert(cats@.take(0) =~= Seq::<CategoryTotal>::empty());
    }
    0
}

/// Inserts `d` into `ranked` after every entry that grew at least as much.
fn insert_ranked_exec(ranked: &mut Vec<CategoryDelta>, d: CategoryDelta)
    ensures
        deltas_view(final(ranked)@) == insert_ranked(deltas_view(old(ranked)@), delta_view(d)),
{
    let ghost rv = deltas_view(ranked@);
    let mut pos = ranked.len();
    while pos > 0 && ranked[pos - 1].delta_bytes < d.delta_bytes
        invariant
            pos <= ranked@.len(),
            rv == deltas_view(ranked@),
            forall|k: int| pos <= k < ranked@.len() ==> ranked@[k].delta_bytes < d.delta_bytes,
        decreases pos,
    {
        pos = pos - 1;
    }
    proof {
        lemma_insert_ranked_at(rv, delta_view(d), pos as int);
    }
    ranked.insert(pos, d);
    proof {
        assert(deltas_view(ranked@) =~= rv.take(pos as int) + seq![delta_view(d)] + rv.skip(
            pos as int,
        ));
    }
}

pub struct HistoryEngine;

impl HistoryEngine {
    pub fn new() -> (e: HistoryEngine) {
        HistoryEngine
    }

    /// A snapshot of one scan's totals, stamped with a fresh identifier and the
    /// current time; the caller persists it. `None` when no identifier or no
    /// time could be had.
    pub fn record_snapshot(&self, scan_id: u128, total_size: u64, category_totals: Vec<CategoryTotal>) -> (r: Option<HistoricalSnapshot>)
        ensures
            r matches Some(s) ==> {
                &&& s.scan_id == scan_id
                &&& s.total_size == total_size
                &&& s.category_totals == category_totals
            },
    {
        match (new_id(), now()) {
            (Some(id), Some(taken_at)) => Some(HistoricalSnapshot { id, scan_id, taken_at, total_size, category_totals }),
            _ => None,
        }
    }

    /// Compares the oldest snapshot of the window (`snapshots[0]`) against the
    /// newest (`snapshots.last()`). Returns `None` when there is not yet enough
    /// history: no snapshot, or a single one.
    pub fn growth_summary(&self, snapshots: &[HistoricalSnapshot], lookback_days: i64) -> (r: Option<GrowthSummary>)
        requires
            growth_fits(snapshots@),
        ensures
            r is Some <==> summary_exists(snapshots@),
            r matches Some(g) ==> {
                let first = snapshots@[0];
                let last = snapshots@.last();
                &&& g.growth_bytes == as_signed(last.total_size) - as_signed(first.total_size)
                &&& g.period_days == lookback_days
                &&& deltas_view(g.top_contributors@) == rank(raw_deltas(first, last)).take(
                    if raw_deltas(first, last).len() < TOP_CONTRIBUTORS { raw_deltas(first, last).len() as int } else { TOP_CONTRIBUTORS as int },
                )
            },
    {
        let n = snapshots.len();
        if n == 0 {
            return None;
        }
        let first = &snapshots[0];
        let last = &snapshots[n - 1];
        if first.id == last.id {
            return None;
        }
        let ghost raw = raw_deltas(*first, *last);
        let growth_bytes = to_signed(last.total_size) - to_signed(first.total_size);
        let mut ranked: Vec<CategoryDelta> = Vec::new();
        let m = last.category_totals.len();
        let mut i: usize = 0;
        while i < m
            invariant
                m == last.category_totals@.len(),
                raw == raw_deltas(*first, *last),
                growth_fits(snapshots@),
                n == snapshots@.len(),
                n > 0,
                snapshots@[0] == *first,
                snapshots@.last() == *last,
                first.id != last.id,
                i <= m,
                deltas_view(ranked@) == rank(raw.take(i as int)),
            decreases m - i,
        {
            let c = &last.category_totals[i];
            let prev = prior_total_of(&first.category_totals, &c.category_id);
            proof {
                assert(raw_deltas(*first, *last)[i as int].delta >= i64::MIN);
                assert(c.category_id@ == raw[i as int].category_id);
            }
            let delta = to_signed(c.total_size) - to_signed(prev);
            let d = CategoryDelta { category_id: c.category_id.clone(), delta_bytes: delta };
            insert_ranked_exec(&mut ranked, d);
            proof {
                assert(delta_view(d) == raw[i as int]);
                assert(raw.take(i + 1).drop_last() =~= raw.take(i as int));
                assert(raw.take(i + 1).last() == raw[i as int]);
            }
            i = i + 1;
        }
        proof {
            assert(raw.take(m as int) =~= raw);
            law_rank_sorted_permutation(raw);
        }
        ranked.truncate(TOP_CONTRIBUTORS);
        proof {
            assert(deltas_view(ranked@) =~= rank(raw).take(
                if raw.len() < TOP_CONTRIBUTORS { raw.len() as int } else { TOP_CONTRIBUTORS as int },
            ));
        }
        Some(GrowthSummary { growth_bytes, period_days: lookback_days, top_contributors: ranked })
    }
}

} // verus!
