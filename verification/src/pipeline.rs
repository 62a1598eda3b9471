//! The query-1 operator: localization intake, per-window aggregation with
//! an incremental cache, improvement ranking and the top-k emit.
//!
//! Each output window covers `w` five-minute buckets of the current year
//! and of the year before.  The window's aggregates are folds of the
//! per-bucket city maps; the engine keeps a cache holding the fold of all
//! buckets of the window but the newest, so one addition and one
//! subtraction per window replace a recomputation.  Subtracting a city
//! down to zero measurements leaves a zero entry behind; the maps the
//! cached path computes therefore agree with a cold recomputation on
//! every city that has data, which [`zext`] states precisely.
use crate::CityId;
use crate::aggregate::AggModel;
use crate::aggregate::CityParticleMap;
use crate::aggregate::LocalizedMeasurement;
use crate::aggregate::MAX_COUNT;
use crate::aggregate::PreAggregateData;
use crate::aggregate::cmap_wf;
use crate::aggregate::map_merge;
use crate::aggregate::map_minus;
use crate::aggregate::model_plus;
use crate::aggregate::model_wf;
use crate::aggregate::model_zero;
use vstd::prelude::*;

verus! {

/// The per-bucket city maps of a pre-aggregated stream.
pub open spec fn maps_of(datas: Seq<PreAggregateData>) -> Seq<Map<CityId, AggModel>> {
    datas.map_values(|d: PreAggregateData| d.values@)
}

/// The fold of the maps `ms[from .. to]` under pointwise sum.
pub open spec fn fold_range(ms: Seq<Map<CityId, AggModel>>, from: int, to: int) -> Map<
    CityId,
    AggModel,
>
    decreases to - from,
{
    if to <= from {
        Map::empty()
    } else {
        map_merge(fold_range(ms, from, to - 1), ms[to - 1])
    }
}

/// The measurement count a map holds for a city: zero when absent.
pub open spec fn key_n(m: Map<CityId, AggModel>, k: CityId) -> int {
    if m.dom().contains(k) {
        m[k].n
    } else {
        0
    }
}

/// The measurement count the maps `ms[from .. to]` together hold for a
/// city.
pub open spec fn key_n_range(ms: Seq<Map<CityId, AggModel>>, k: CityId, from: int, to: int) -> int
    decreases to - from,
{
    if to <= from {
        0
    } else {
        key_n_range(ms, k, from, to - 1) + key_n(ms[to - 1], k)
    }
}

/// A usable bucket map: every entry counts at least one measurement,
/// stays within the model bounds, and belongs to a known city.
pub open spec fn map_ok(m: Map<CityId, AggModel>, ncities: int) -> bool {
    forall|k: CityId| #[trigger]
        m.dom().contains(k) ==> 1 <= m[k].n && model_wf(m[k]) && (k as int) < ncities
}

/// A usable pre-aggregated stream: well-formed maps whose entries are
/// usable, and no city collecting more measurements over the whole
/// stream than one aggregate can count.
pub open spec fn stream_ok(datas: Seq<PreAggregateData>, ncities: int) -> bool {
    &&& forall|i: int|
        0 <= i < datas.len() ==> cmap_wf((#[trigger] datas[i]).values) && map_ok(
            datas[i].values@,
            ncities,
        )
    &&& forall|k: CityId|
        key_n_range(maps_of(datas), k, 0, datas.len() as int) <= MAX_COUNT
}

/// `m` extends `f` by zero entries: they agree on `f`'s cities, and every
/// other city of `m` holds the zero aggregate.  This is exactly how the
/// cached window maps relate to the cold-start folds.
pub open spec fn zext(m: Map<CityId, AggModel>, f: Map<CityId, AggModel>) -> bool {
    &&& forall|k: CityId| #[trigger] f.dom().contains(k) ==> m.dom().contains(k) && m[k] == f[k]
    &&& forall|k: CityId| #[trigger]
        m.dom().contains(k) ==> f.dom().contains(k) || m[k] == model_zero()
}

/// Merging adds the per-city counts.
pub proof fn lemma_key_n_merge(m1: Map<CityId, AggModel>, m2: Map<CityId, AggModel>, k: CityId)
    ensures
        key_n(map_merge(m1, m2), k) == key_n(m1, k) + key_n(m2, k),
{
}

/// The per-city count of a fold is the sum over the folded maps.
pub proof fn lemma_fold_range_key_n(
    ms: Seq<Map<CityId, AggModel>>,
    k: CityId,
    from: int,
    to: int,
)
    requires
        0 <= from,
        to <= ms.len(),
    ensures
        key_n(fold_range(ms, from, to), k) == key_n_range(ms, k, from, to),
    decreases to - from,
{
    if to > from {
        lemma_fold_range_key_n(ms, k, from, to - 1);
        lemma_key_n_merge(fold_range(ms, from, to - 1), ms[to - 1], k);
    }
}

/// Per-city counts over a subrange never exceed those over an enclosing
/// range.
pub proof fn lemma_key_n_range_sub(
    ms: Seq<Map<CityId, AggModel>>,
    k: CityId,
    from1: int,
    to1: int,
    from2: int,
    to2: int,
)
    requires
        from2 <= from1,
        to1 <= to2,
        from1 <= to1,
        forall|i: int| from2 <= i < to2 ==> #[trigger] key_n(ms[i], k) >= 0,
    ensures
        key_n_range(ms, k, from1, to1) <= key_n_range(ms, k, from2, to2),
{
    lemma_key_n_range_drop_front(ms, k, from2, from1, to2);
    lemma_key_n_range_drop_front(ms, k, from1, to1, to2);
    lemma_key_n_range_nonneg(ms, k, from2, from1);
    lemma_key_n_range_nonneg(ms, k, to1, to2);
}

/// A sum of non-negative counts is non-negative.
pub proof fn lemma_key_n_range_nonneg(
    ms: Seq<Map<CityId, AggModel>>,
    k: CityId,
    from: int,
    to: int,
)
    requires
        forall|i: int| from <= i < to ==> #[trigger] key_n(ms[i], k) >= 0,
    ensures
        key_n_range(ms, k, from, to) >= 0,
    decreases to - from,
{
    if from < to {
        lemma_key_n_range_nonneg(ms, k, from, to - 1);
    }
}

/// Splitting a count range at the front.
pub proof fn lemma_key_n_range_drop_front(
    ms: Seq<Map<CityId, AggModel>>,
    k: CityId,
    from: int,
    mid: int,
    to: int,
)
    requires
        from <= mid <= to,
    ensures
        key_n_range(ms, k, from, to) == key_n_range(ms, k, from, mid) + key_n_range(
            ms,
            k,
            mid,
            to,
        ),
    decreases to - mid,
{
    if mid < to {
        lemma_key_n_range_drop_front(ms, k, from, mid, to - 1);
    }
}

/// All counts of usable maps are non-negative.
pub proof fn lemma_map_ok_key_n_nonneg(ms: Seq<Map<CityId, AggModel>>, ncities: int)
    requires
        forall|i: int| 0 <= i < ms.len() ==> map_ok(#[trigger] ms[i], ncities),
    ensures
        forall|i: int, k: CityId| 0 <= i < ms.len() ==> #[trigger] key_n(ms[i], k) >= 0,
{
    assert forall|i: int, k: CityId| 0 <= i < ms.len() implies #[trigger] key_n(ms[i], k)
        >= 0 by {
        if ms[i].dom().contains(k) {
            assert(map_ok(ms[i], ncities));
        }
    }
}

/// Every value of a fold of usable maps holds at least one measurement,
/// is within the model bounds, and belongs to a known city.
pub proof fn lemma_fold_range_ok(
    ms: Seq<Map<CityId, AggModel>>,
    ncities: int,
    from: int,
    to: int,
)
    requires
        0 <= from,
        to <= ms.len(),
        forall|i: int| 0 <= i < ms.len() ==> map_ok(#[trigger] ms[i], ncities),
        forall|k: CityId| key_n_range(ms, k, 0, ms.len() as int) <= MAX_COUNT,
    ensures
        map_ok(fold_range(ms, from, to), ncities),
    decreases to - from,
{
    if to > from {
        lemma_fold_range_ok(ms, ncities, from, to - 1);
        lemma_map_ok_key_n_nonneg(ms, ncities);
        let prev = fold_range(ms, from, to - 1);
        let merged = fold_range(ms, from, to);
        assert forall|k: CityId| #[trigger] merged.dom().contains(k) implies 1 <= merged[k].n
            && model_wf(merged[k]) && (k as int) < ncities by {
            lemma_fold_range_key_n(ms, k, from, to);
            if from <= 0 && to >= ms.len() {
            } else {
                lemma_key_n_range_sub(ms, k, from, to, 0, ms.len() as int);
            }
            assert(key_n(merged, k) <= MAX_COUNT);
            if prev.dom().contains(k) && ms[to - 1].dom().contains(k) {
                let x = prev[k];
                let y = ms[to - 1][k];
                assert(map_ok(ms[to - 1], ncities));
                assert((x.n + y.n) * crate::aggregate::MAX_MILLI == x.n
                    * crate::aggregate::MAX_MILLI + y.n * crate::aggregate::MAX_MILLI)
                    by (nonlinear_arith);
                assert(merged[k].n <= MAX_COUNT);
            } else if ms[to - 1].dom().contains(k) {
                assert(map_ok(ms[to - 1], ncities));
            }
        }
    } else {
        assert(forall|k: CityId| !(#[trigger] fold_range(ms, from, to).dom().contains(k)));
    }
}

/// Pointwise map sum commutes.
pub proof fn lemma_map_merge_comm(m1: Map<CityId, AggModel>, m2: Map<CityId, AggModel>)
    ensures
        map_merge(m1, m2) == map_merge(m2, m1),
{
    assert(map_merge(m1, m2) =~= map_merge(m2, m1));
}

/// A fold also splits off its first map.
pub proof fn lemma_fold_range_front(ms: Seq<Map<CityId, AggModel>>, from: int, to: int)
    requires
        from < to,
    ensures
        fold_range(ms, from, to) == map_merge(ms[from], fold_range(ms, from + 1, to)),
    decreases to - from,
{
    if from + 1 == to {
        assert(fold_range(ms, from, to - 1) =~= Map::<CityId, AggModel>::empty());
        assert(fold_range(ms, from + 1, to) =~= Map::<CityId, AggModel>::empty());
        assert(map_merge(fold_range(ms, from, to - 1), ms[to - 1]) =~= map_merge(
            ms[from],
            fold_range(ms, from + 1, to),
        ));
    } else {
        lemma_fold_range_front(ms, from, to - 1);
        assert(map_merge(map_merge(ms[from], fold_range(ms, from + 1, to - 1)), ms[to - 1])
            =~= map_merge(ms[from], map_merge(fold_range(ms, from + 1, to - 1), ms[to - 1])));
    }
}

/// Merging the same map onto both sides preserves zero extension.
pub proof fn lemma_zext_merge(
    b: Map<CityId, AggModel>,
    m: Map<CityId, AggModel>,
    f: Map<CityId, AggModel>,
)
    requires
        zext(m, f),
    ensures
        zext(map_merge(b, m), map_merge(b, f)),
{
    assert forall|k: CityId| #[trigger]
        map_merge(b, f).dom().contains(k) implies map_merge(b, m).dom().contains(k) && map_merge(
        b,
        m,
    )[k] == map_merge(b, f)[k] by {
        if f.dom().contains(k) {
        } else if m.dom().contains(k) {
            assert(m[k] == model_zero());
        }
    }
    assert forall|k: CityId| #[trigger]
        map_merge(b, m).dom().contains(k) implies map_merge(b, f).dom().contains(k) || map_merge(
        b,
        m,
    )[k] == model_zero() by {
        if m.dom().contains(k) && !f.dom().contains(k) && !b.dom().contains(k) {
            assert(m[k] == model_zero());
        }
    }
}

/// Subtracting the split-off map takes a zero extension of `merge(b, f)`
/// to a zero extension of `f`, when every city of `f` has data.
pub proof fn lemma_zext_sub(
    m: Map<CityId, AggModel>,
    b: Map<CityId, AggModel>,
    f: Map<CityId, AggModel>,
)
    requires
        zext(m, map_merge(b, f)),
        forall|k: CityId| #[trigger]
            f.dom().contains(k) ==> f[k].n >= 1 && f[k].s1 >= 0 && f[k].s2 >= 0,
    ensures
        zext(map_minus(m, b), f),
        forall|k: CityId| #[trigger]
            b.dom().contains(k) ==> m.dom().contains(k) && b[k].n <= m[k].n && b[k].s1
                <= m[k].s1 && b[k].s2 <= m[k].s2,
{
    let mf = map_merge(b, f);
    assert forall|k: CityId| #[trigger]
        b.dom().contains(k) implies m.dom().contains(k) && b[k].n <= m[k].n && b[k].s1
        <= m[k].s1 && b[k].s2 <= m[k].s2 by {
        assert(mf.dom().contains(k));
        assert(m[k] == mf[k]);
        if f.dom().contains(k) {
            assert(f[k].n >= 1);
        }
    }
    assert forall|k: CityId| #[trigger]
        f.dom().contains(k) implies map_minus(m, b).dom().contains(k) && map_minus(m, b)[k]
        == f[k] by {
        assert(mf.dom().contains(k));
        assert(m[k] == mf[k]);
        if b.dom().contains(k) {
            assert(m[k] == model_plus(b[k], f[k]));
            assert(f[k].n >= 1);
        }
    }
    assert forall|k: CityId| #[trigger]
        map_minus(m, b).dom().contains(k) implies f.dom().contains(k) || map_minus(m, b)[k]
        == model_zero() by {
        if !f.dom().contains(k) {
            if b.dom().contains(k) {
                assert(mf.dom().contains(k));
                assert(m[k] == mf[k]);
                assert(m[k] == b[k]);
            } else {
                assert(m.dom().contains(k));
                if mf.dom().contains(k) {
                    assert(m[k] == mf[k]);
                    assert(false);
                } else {
                    assert(m[k] == model_zero());
                }
            }
        }
    }
}

} // verus!

verus! {

/// The mean PM10 concentration of an aggregate, in milli units, rounded
/// to the nearest.
pub open spec fn agg_avg1(x: AggModel) -> int {
    crate::aqi::rounded_div(x.s1, x.n)
}

/// The mean PM2.5 concentration of an aggregate, in milli units, rounded
/// to the nearest.
pub open spec fn agg_avg2(x: AggModel) -> int {
    crate::aqi::rounded_div(x.s2, x.n)
}

/// Whether the aggregate's mean PM10 concentration is on the AQI scale.
pub open spec fn p1_in_scale(x: AggModel) -> bool {
    crate::aqi::pm10_whole(agg_avg1(x)) <= 604
}

/// Whether the aggregate's mean PM2.5 concentration is on the AQI scale.
pub open spec fn p2_in_scale(x: AggModel) -> bool {
    crate::aqi::pm25_tenths(agg_avg2(x)) <= 5004
}

/// The city's AQI from an aggregate, as AQI times 1000 rounded: the worse
/// of the PM10 and PM2.5 values.  Meaningful only when both means are on
/// the scale.
pub open spec fn agg_aqi_debs(x: AggModel) -> int {
    let a1 = crate::aqi::pm10_value(agg_avg1(x)).spec_get_asdebs();
    let a2 = crate::aqi::pm25_value(agg_avg2(x)).spec_get_asdebs();
    if a1 >= a2 {
        a1
    } else {
        a2
    }
}

/// Whether a city takes part in the ranking of a window: it has data in
/// the current five-day window and was active in the trailing ten
/// minutes, the year-before window has data for it, and all four mean
/// concentrations are on the AQI scale.
pub open spec fn cand_ok(
    cur: Map<CityId, AggModel>,
    last: Map<CityId, AggModel>,
    active: Set<CityId>,
    k: CityId,
) -> bool {
    &&& cur.dom().contains(k) && cur[k].n >= 1
    &&& active.contains(k)
    &&& p1_in_scale(cur[k]) && p2_in_scale(cur[k])
    &&& last.dom().contains(k) && last[k].n >= 1
    &&& p1_in_scale(last[k]) && p2_in_scale(last[k])
}

/// The improvement of a ranked city: current AQI minus year-before AQI,
/// so lower values are bigger improvements.
pub open spec fn improvement_of(cur: Map<CityId, AggModel>, last: Map<CityId, AggModel>, k: CityId) -> int {
    agg_aqi_debs(cur[k]) - agg_aqi_debs(last[k])
}

/// The ranking candidates of a window: every eligible city below `n`, in
/// ascending city id order, with its improvement.
pub open spec fn candidates_spec(
    cur: Map<CityId, AggModel>,
    last: Map<CityId, AggModel>,
    active: Set<CityId>,
    n: int,
) -> Seq<(i32, CityId)>
    decreases n,
{
    if n <= 0 {
        Seq::empty()
    } else {
        let prev = candidates_spec(cur, last, active, n - 1);
        let k = (n - 1) as CityId;
        if cand_ok(cur, last, active, k) {
            prev.push((improvement_of(cur, last, k) as i32, k))
        } else {
            prev
        }
    }
}

/// Inserts a candidate into a run sorted by improvement, after every
/// candidate with the same improvement, so the sort below is stable.
pub open spec fn insert_sorted(s: Seq<(i32, CityId)>, e: (i32, CityId)) -> Seq<(i32, CityId)>
    decreases s.len(),
{
    if s.len() == 0 {
        seq![e]
    } else if s.last().0 <= e.0 {
        s.push(e)
    } else {
        insert_sorted(s.drop_last(), e).push(s.last())
    }
}

/// Stable insertion sort of the candidates by ascending improvement.
pub open spec fn sort_by_improvement(s: Seq<(i32, CityId)>) -> Seq<(i32, CityId)>
    decreases s.len(),
{
    if s.len() == 0 {
        Seq::empty()
    } else {
        insert_sorted(sort_by_improvement(s.drop_last()), s.last())
    }
}

/// Non-decreasing improvements.
pub open spec fn sorted_by_improvement(s: Seq<(i32, CityId)>) -> bool {
    forall|i: int, j: int| 0 <= i <= j < s.len() ==> (#[trigger] s[i]).0 <= (#[trigger] s[j]).0
}

/// Inserting keeps one more element.
pub proof fn lemma_insert_sorted_len(s: Seq<(i32, CityId)>, e: (i32, CityId))
    ensures
        insert_sorted(s, e).len() == s.len() + 1,
    decreases s.len(),
{
    if s.len() > 0 && !(s.last().0 <= e.0) {
        lemma_insert_sorted_len(s.drop_last(), e);
    }
}

/// Inserting into a sorted run keeps it sorted.
pub proof fn lemma_insert_sorted_sorted(s: Seq<(i32, CityId)>, e: (i32, CityId))
    requires
        sorted_by_improvement(s),
    ensures
        sorted_by_improvement(insert_sorted(s, e)),
    decreases s.len(),
{
    if s.len() == 0 {
    } else if s.last().0 <= e.0 {
        assert(sorted_by_improvement(s.push(e)));
    } else {
        assert(forall|i: int| 0 <= i < s.len() - 1 ==> (#[trigger] s.drop_last()[i]) == s[i]);
        lemma_insert_sorted_sorted(s.drop_last(), e);
        lemma_insert_sorted_len(s.drop_last(), e);
        let t = insert_sorted(s.drop_last(), e);
        lemma_insert_sorted_le(s.drop_last(), e);
        assert forall|i: int, j: int|
            0 <= i <= j < t.push(s.last()).len() implies (#[trigger] t.push(s.last())[i]).0 <= (
            #[trigger] t.push(s.last())[j]).0 by {
            if j < t.len() {
            } else {
                if i < t.len() {
                    assert(t[i].0 <= s.last().0);
                }
            }
        }
    }
}

/// Every element of an insertion result is bounded by the run's bound.
pub proof fn lemma_insert_sorted_le(s: Seq<(i32, CityId)>, e: (i32, CityId))
    ensures
        forall|i: int|
            0 <= i < insert_sorted(s, e).len() ==> {
                let v = (#[trigger] insert_sorted(s, e)[i]).0;
                v == e.0 || exists|j: int| 0 <= j < s.len() && (#[trigger] s[j]).0 == v
            },
    decreases s.len(),
{
    if s.len() == 0 {
    } else if s.last().0 <= e.0 {
        assert forall|i: int| 0 <= i < insert_sorted(s, e).len() implies {
            let v = (#[trigger] insert_sorted(s, e)[i]).0;
            v == e.0 || exists|j: int| 0 <= j < s.len() && (#[trigger] s[j]).0 == v
        } by {
            if i < s.len() {
                assert(s[i].0 == s[i].0);
            }
        }
    } else {
        lemma_insert_sorted_le(s.drop_last(), e);
        lemma_insert_sorted_len(s.drop_last(), e);
        let t = insert_sorted(s.drop_last(), e);
        assert forall|i: int| 0 <= i < insert_sorted(s, e).len() implies {
            let v = (#[trigger] insert_sorted(s, e)[i]).0;
            v == e.0 || exists|j: int| 0 <= j < s.len() && (#[trigger] s[j]).0 == v
        } by {
            if i < t.len() {
                assert(insert_sorted(s, e)[i] == t[i]);
                let v = t[i].0;
                if v != e.0 {
                    let j = choose|j: int|
                        0 <= j < s.drop_last().len() && (#[trigger] s.drop_last()[j]).0 == v;
                    assert(s[j].0 == v);
                }
            } else {
                assert(insert_sorted(s, e)[i] == s.last());
                assert(s[s.len() - 1].0 == s.last().0);
            }
        }
    }
}

/// The sorted candidates are sorted.
pub proof fn lemma_sort_sorted(s: Seq<(i32, CityId)>)
    ensures
        sorted_by_improvement(sort_by_improvement(s)),
    decreases s.len(),
{
    if s.len() > 0 {
        lemma_sort_sorted(s.drop_last());
        lemma_insert_sorted_sorted(sort_by_improvement(s.drop_last()), s.last());
    }
}

/// Where an element lands when inserted: before the maximal strictly
/// greater suffix.
pub proof fn lemma_insert_sorted_at(s: Seq<(i32, CityId)>, e: (i32, CityId), j: int)
    requires
        0 <= j <= s.len(),
        forall|i: int| j <= i < s.len() ==> (#[trigger] s[i]).0 > e.0,
        j > 0 ==> s[j - 1].0 <= e.0,
    ensures
        insert_sorted(s, e) == s.subrange(0, j) + seq![e] + s.subrange(j, s.len() as int),
    decreases s.len() - j,
{
    if j == s.len() {
        if s.len() == 0 {
            assert(insert_sorted(s, e) =~= s.subrange(0, j) + seq![e] + s.subrange(
                j,
                s.len() as int,
            ));
        } else {
            assert(s.last().0 <= e.0);
            assert(insert_sorted(s, e) =~= s.subrange(0, j) + seq![e] + s.subrange(
                j,
                s.len() as int,
            ));
        }
    } else {
        assert(s[s.len() - 1].0 > e.0);
        assert(forall|i: int| 0 <= i < s.len() - 1 ==> (#[trigger] s.drop_last()[i]) == s[i]);
        lemma_insert_sorted_at(s.drop_last(), e, j);
        assert(insert_sorted(s, e) =~= s.subrange(0, j) + seq![e] + s.subrange(
            j,
            s.len() as int,
        ));
    }
}

/// Sorts the candidates by ascending improvement, stably.
pub fn sort_candidates(cands: &Vec<(i32, CityId)>) -> (r: Vec<(i32, CityId)>)
    ensures
        r@ == sort_by_improvement(cands@),
        sorted_by_improvement(r@),
        r@.len() == cands@.len(),
{
    let mut out: Vec<(i32, CityId)> = Vec::new();
    let mut i: usize = 0;
    while i < cands.len()
        invariant
            i <= cands@.len(),
            out@ == sort_by_improvement(cands@.take(i as int)),
            sorted_by_improvement(out@),
            out@.len() == i,
        decreases cands@.len() - i,
    {
        let e = cands[i];
        let mut j: usize = out.len();
        while j > 0 && out[j - 1].0 > e.0
            invariant
                j <= out@.len(),
                sorted_by_improvement(out@),
                forall|x: int| j <= x < out@.len() ==> (#[trigger] out@[x]).0 > e.0,
            decreases j,
        {
            j -= 1;
        }
        proof {
            lemma_insert_sorted_at(out@, e, j as int);
            lemma_insert_sorted_sorted(out@, e);
            lemma_insert_sorted_len(out@, e);
            assert(cands@.take(i + 1).drop_last() =~= cands@.take(i as int));
            assert(cands@.take(i + 1).last() == cands@[i as int]);
        }
        out.insert(j, e);
        proof {
            assert(out@ =~= sort_by_improvement(cands@.take(i as int)).subrange(0, j as int)
                + seq![e] + sort_by_improvement(cands@.take(i as int)).subrange(
                j as int,
                sort_by_improvement(cands@.take(i as int)).len() as int,
            ));
        }
        i += 1;
    }
    proof {
        assert(cands@.take(cands@.len() as int) =~= cands@);
    }
    out
}

/// Folds the city maps of the buckets `datas[from .. to]` into one map:
/// the aggregate of a whole window.
pub fn get_final_aggregate(datas: &Vec<PreAggregateData>, from: usize, to: usize) -> (r:
    CityParticleMap)
    requires
        from <= to <= datas@.len(),
        forall|i: int|
            0 <= i < datas@.len() ==> cmap_wf((#[trigger] datas[i as int]).values) && map_ok(
                datas[i as int].values@,
                0x1_0000_0000,
            ),
        forall|k: CityId|
            key_n_range(maps_of(datas@), k, 0, datas@.len() as int) <= MAX_COUNT,
    ensures
        r@ == fold_range(maps_of(datas@), from as int, to as int),
        cmap_wf(r),
{
    let ghost ms = maps_of(datas@);
    let mut r = CityParticleMap::new();
    proof {
        assert(r@ =~= fold_range(ms, from as int, from as int));
    }
    let mut i: usize = from;
    while i < to
        invariant
            from <= i <= to <= datas@.len(),
            ms == maps_of(datas@),
            forall|j: int|
                0 <= j < datas@.len() ==> cmap_wf((#[trigger] datas[j]).values) && map_ok(
                    datas[j].values@,
                    0x1_0000_0000,
                ),
            forall|k: CityId| key_n_range(ms, k, 0, datas@.len() as int) <= MAX_COUNT,
            r@ == fold_range(ms, from as int, i as int),
            cmap_wf(r),
        decreases to - i,
    {
        proof {
            assert(ms[i as int] == datas[i as int].values@);
            lemma_map_ok_key_n_nonneg(ms, 0x1_0000_0000);
            assert forall|k: CityId|
                r@.dom().contains(k) && #[trigger] datas[i as int].values@.dom().contains(
                    k,
                ) implies r@[k].n + datas[i as int].values@[k].n <= MAX_COUNT by {
                lemma_fold_range_key_n(ms, k, from as int, i as int);
                lemma_key_n_range_drop_front(ms, k, from as int, i as int, i + 1);
                lemma_key_n_range_sub(ms, k, from as int, i + 1, 0, datas@.len() as int);
            }
        }
        crate::aggregate::map_add(&mut r, &datas[i].values);
        i += 1;
    }
    r
}

} // verus!

verus! {

/// Data for one ranked city of a window, as the challenge wire format
/// carries it.
#[derive(Debug, Clone)]
pub struct TopKCities {
    /// Rank of the city in this window, starting at zero.
    pub position: i32,
    /// The city's name.
    pub city: String,
    /// How much the five-day AQI improved over the year before, as AQI
    /// times 1000; bigger is better.
    pub average_aqi_improvement: i32,
    /// The last-day PM10 AQI times 1000; `i32::MAX` when the last-day
    /// mean concentration falls outside the AQI scale.
    pub current_aqip1: i32,
    /// The last-day PM2.5 AQI times 1000; `i32::MAX` when out of scale.
    pub current_aqip2: i32,
}

/// The result the core emits for one window.
#[derive(Debug, Clone)]
pub struct ResultQ1 {
    /// The benchmark the result belongs to; the core leaves it zero.
    pub benchmark_id: i64,
    /// The largest batch id contributing to the window: the newest
    /// non-empty bucket's label, zero when the window holds no
    /// measurement.
    pub batch_seq_id: i64,
    /// The ranked cities, best improvement first.
    pub topkimproved: Vec<TopKCities>,
}

/// The cache the sliding-window engine threads from one window to the
/// next: the aggregates of every bucket of the window except the newest,
/// so that adding the newest bucket yields the window's aggregates.
pub struct SlidingWindowCache {
    /// The trailing day, short of the newest bucket.
    pub current_1d: CityParticleMap,
    /// The current five-day window, short of the newest bucket.
    pub current_5d: CityParticleMap,
    /// The year-before five-day window, short of the newest bucket.
    pub lastyear_5d: CityParticleMap,
}

/// What a valid cache holds before the window starting at `start` is
/// analyzed: zero extensions of the folds over the window minus its
/// newest bucket.
pub open spec fn cache_ok(
    c: SlidingWindowCache,
    cur: Seq<Map<CityId, AggModel>>,
    last: Seq<Map<CityId, AggModel>>,
    start: int,
    w: int,
    d: int,
) -> bool {
    &&& crate::aggregate::keys_unique(c.current_1d.entries@)
    &&& crate::aggregate::keys_unique(c.current_5d.entries@)
    &&& crate::aggregate::keys_unique(c.lastyear_5d.entries@)
    &&& zext(c.current_1d@, fold_range(cur, start + w - d, start + w - 1))
    &&& zext(c.current_5d@, fold_range(cur, start, start + w - 1))
    &&& zext(c.lastyear_5d@, fold_range(last, start, start + w - 1))
}

/// The batch id that labels the window `[start, start + w)`: the newest
/// bucket's batch label, falling back to older buckets while the newer
/// ones are empty; zero when the whole window is empty.
pub open spec fn window_batch_label(labels: Seq<Option<i64>>, start: int, w: int) -> i64
    decreases w,
{
    if w <= 0 {
        0
    } else {
        match labels[start + w - 1] {
            Some(id) => id,
            None => window_batch_label(labels, start, w - 1),
        }
    }
}

/// The per-bucket batch labels of a pre-aggregated stream.
pub open spec fn batch_labels(datas: Seq<PreAggregateData>) -> Seq<Option<i64>> {
    datas.map_values(|d: PreAggregateData| d.maxbatch)
}

/// The cities active in the trailing ten minutes of the window: those
/// with data in its last two buckets.
pub open spec fn active_set(cur: Seq<Map<CityId, AggModel>>, start: int, w: int) -> Set<CityId> {
    cur[start + w - 2].dom() + cur[start + w - 1].dom()
}

/// One emitted ranking row: position, city name, last-day AQIs (with the
/// sentinel for out-of-scale means) and the negated improvement, so that
/// bigger output values mean bigger improvements.
pub open spec fn topk_entry(
    c: (i32, CityId),
    f1: Map<CityId, AggModel>,
    names: Seq<String>,
    i: int,
) -> TopKCities {
    TopKCities {
        position: i as i32,
        city: names[c.1 as int],
        average_aqi_improvement: (0 - c.0) as i32,
        current_aqip1: (if p1_in_scale(f1[c.1]) {
            crate::aqi::pm10_value(agg_avg1(f1[c.1])).spec_get_asdebs()
        } else {
            i32::MAX as int
        }) as i32,
        current_aqip2: (if p2_in_scale(f1[c.1]) {
            crate::aqi::pm25_value(agg_avg2(f1[c.1])).spec_get_asdebs()
        } else {
            i32::MAX as int
        }) as i32,
    }
}

/// The ranked rows of one window: candidates sorted by ascending
/// improvement, the first `k` emitted in order.
pub open spec fn topk_spec(
    cur: Seq<Map<CityId, AggModel>>,
    last: Seq<Map<CityId, AggModel>>,
    names: Seq<String>,
    start: int,
    w: int,
    d: int,
    k: int,
) -> Seq<TopKCities> {
    let f5c = fold_range(cur, start, start + w);
    let f5l = fold_range(last, start, start + w);
    let f1 = fold_range(cur, start + w - d, start + w);
    let sorted = sort_by_improvement(
        candidates_spec(f5c, f5l, active_set(cur, start, w), names.len() as int),
    );
    let cnt = if k < sorted.len() {
        k
    } else {
        sorted.len() as int
    };
    Seq::new(cnt as nat, |i: int| topk_entry(sorted[i], f1, names, i))
}

/// Every candidate is eligible, carries its city's improvement, and
/// belongs to a known city.
pub proof fn lemma_candidates_props(
    cur: Map<CityId, AggModel>,
    last: Map<CityId, AggModel>,
    active: Set<CityId>,
    n: int,
)
    requires
        n <= 0x1_0000_0000,
    ensures
        forall|i: int|
            0 <= i < candidates_spec(cur, last, active, n).len() ==> {
                let c = #[trigger] candidates_spec(cur, last, active, n)[i];
                &&& cand_ok(cur, last, active, c.1)
                &&& (c.1 as int) < n
                &&& c.0 == improvement_of(cur, last, c.1) as i32
            },
    decreases n,
{
    if n > 0 {
        lemma_candidates_props(cur, last, active, n - 1);
        let prev = candidates_spec(cur, last, active, n - 1);
        let k = (n - 1) as CityId;
        assert(k as int == n - 1);
        if cand_ok(cur, last, active, k) {
            let whole = candidates_spec(cur, last, active, n);
            assert(whole == prev.push((improvement_of(cur, last, k) as i32, k)));
            assert(forall|i: int| 0 <= i < prev.len() ==> whole[i] == prev[i]);
            assert(whole[whole.len() - 1] == (improvement_of(cur, last, k) as i32, k));
        }
    }
}

/// Every element of an insertion result is the inserted element or one
/// of the run.
pub proof fn lemma_insert_sorted_mem(s: Seq<(i32, CityId)>, e: (i32, CityId))
    ensures
        forall|i: int|
            0 <= i < insert_sorted(s, e).len() ==> (#[trigger] insert_sorted(s, e)[i]) == e
                || exists|j: int| 0 <= j < s.len() && (#[trigger] s[j]) == insert_sorted(s, e)[i],
    decreases s.len(),
{
    if s.len() == 0 {
    } else if s.last().0 <= e.0 {
        assert forall|i: int| 0 <= i < insert_sorted(s, e).len() implies (#[trigger] insert_sorted(
            s,
            e,
        )[i]) == e || exists|j: int|
            0 <= j < s.len() && (#[trigger] s[j]) == insert_sorted(s, e)[i] by {
            if i < s.len() {
                assert(s[i] == insert_sorted(s, e)[i]);
            }
        }
    } else {
        lemma_insert_sorted_mem(s.drop_last(), e);
        lemma_insert_sorted_len(s.drop_last(), e);
        let t = insert_sorted(s.drop_last(), e);
        assert forall|i: int| 0 <= i < insert_sorted(s, e).len() implies (#[trigger] insert_sorted(
            s,
            e,
        )[i]) == e || exists|j: int|
            0 <= j < s.len() && (#[trigger] s[j]) == insert_sorted(s, e)[i] by {
            if i < t.len() {
                assert(insert_sorted(s, e)[i] == t[i]);
                if t[i] != e {
                    let j = choose|j: int|
                        0 <= j < s.drop_last().len() && (#[trigger] s.drop_last()[j]) == t[i];
                    assert(s[j] == t[i]);
                }
            } else {
                assert(insert_sorted(s, e)[i] == s.last());
                assert(s[s.len() - 1] == s.last());
            }
        }
    }
}

/// Every element of the sorted run is an element of the input.
pub proof fn lemma_sort_mem(s: Seq<(i32, CityId)>)
    ensures
        forall|i: int|
            0 <= i < sort_by_improvement(s).len() ==> exists|j: int|
                0 <= j < s.len() && s[j] == #[trigger] sort_by_improvement(s)[i],
    decreases s.len(),
{
    if s.len() > 0 {
        lemma_sort_mem(s.drop_last());
        lemma_insert_sorted_mem(sort_by_improvement(s.drop_last()), s.last());
        assert forall|i: int| 0 <= i < sort_by_improvement(s).len() implies exists|j: int|
            0 <= j < s.len() && s[j] == #[trigger] sort_by_improvement(s)[i] by {
            let t = sort_by_improvement(s.drop_last());
            let v = sort_by_improvement(s)[i];
            if v == s.last() {
                assert(s[s.len() - 1] == v);
            } else {
                let x = choose|x: int| 0 <= x < t.len() && (#[trigger] t[x]) == v;
                let j = choose|j: int|
                    0 <= j < s.drop_last().len() && (#[trigger] s.drop_last()[j]) == t[x];
                assert(s[j] == v);
            }
        }
    }
}

/// The worse of the two particle AQIs of an aggregate, as AQI times 1000
/// rounded; `None` when either mean concentration is out of scale.
pub fn agg_aqi_debs_exec(a: crate::aggregate::ParticleAggregate) -> (r: Option<i32>)
    requires
        crate::aggregate::agg_wf(a),
        a.denom >= 1,
    ensures
        (r is Some) <==> (p1_in_scale(a@) && p2_in_scale(a@)),
        r is Some ==> (r->Some_0) == agg_aqi_debs(a@) && 0 <= r->Some_0 <= 500_000,
{
    let m1 = a.p1();
    let m2 = a.p2();
    let v1 = crate::aqi::AQIValue::from_pm10(m1);
    let v2 = crate::aqi::AQIValue::from_pm25(m2);
    match (v1, v2) {
        (Some(q1), Some(q2)) => {
            let d1 = q1.get_asdebs();
            let d2 = q2.get_asdebs();
            Some(
                if d1 >= d2 {
                    d1
                } else {
                    d2
                },
            )
        },
        _ => None,
    }
}

/// The last-day AQIs of a ranked city, `i32::MAX` standing in for an
/// out-of-scale mean.
pub fn lastday_aqi(a: crate::aggregate::ParticleAggregate) -> (r: (i32, i32))
    requires
        crate::aggregate::agg_wf(a),
        a.denom >= 1,
    ensures
        r.0 == (if p1_in_scale(a@) {
            crate::aqi::pm10_value(agg_avg1(a@)).spec_get_asdebs()
        } else {
            i32::MAX as int
        }),
        r.1 == (if p2_in_scale(a@) {
            crate::aqi::pm25_value(agg_avg2(a@)).spec_get_asdebs()
        } else {
            i32::MAX as int
        }),
{
    let m1 = a.p1();
    let m2 = a.p2();
    let r0 = match crate::aqi::AQIValue::from_pm10(m1) {
        Some(v) => v.get_asdebs(),
        None => i32::MAX,
    };
    let r1 = match crate::aqi::AQIValue::from_pm25(m2) {
        Some(v) => v.get_asdebs(),
        None => i32::MAX,
    };
    (r0, r1)
}

} // verus!

verus! {

/// The improvement of one city in one window, when the city is ranked:
/// the candidate test of the query-1 operator.
fn candidate_for_city(
    cur_5d: &CityParticleMap,
    last_5d: &CityParticleMap,
    active: &crate::aggregate::ActiveCities,
    city: CityId,
    Ghost(f5c): Ghost<Map<CityId, AggModel>>,
    Ghost(f5l): Ghost<Map<CityId, AggModel>>,
) -> (r: Option<i32>)
    requires
        crate::aggregate::keys_unique(cur_5d.entries@),
        crate::aggregate::keys_unique(last_5d.entries@),
        zext(cur_5d@, f5c),
        zext(last_5d@, f5l),
        map_ok(f5c, 0x1_0000_0000),
        map_ok(f5l, 0x1_0000_0000),
    ensures
        (r is Some) <==> cand_ok(f5c, f5l, active@, city),
        r is Some ==> (r->Some_0) == improvement_of(f5c, f5l, city) as i32 && -500_000 <= (r
            ->Some_0) <= 500_000,
{
    let a = match cur_5d.get(city) {
        Some(a) => a,
        None => {
            proof {
                if f5c.dom().contains(city) {
                    assert(cur_5d@.dom().contains(city));
                }
            }
            return None;
        },
    };
    if a.denom == 0 {
        proof {
            if f5c.dom().contains(city) {
                assert(a@ == f5c[city]);
            }
        }
        return None;
    }
    proof {
        if !f5c.dom().contains(city) {
            assert(a@ == model_zero());
            assert(false);
        }
        assert(a@ == f5c[city]);
    }
    if !active.is_active(city) {
        return None;
    }
    let cur_aqi = match agg_aqi_debs_exec(a) {
        Some(v) => v,
        None => {
            return None;
        },
    };
    let b = match last_5d.get(city) {
        Some(b) => b,
        None => {
            proof {
                if f5l.dom().contains(city) {
                    assert(last_5d@.dom().contains(city));
                }
            }
            return None;
        },
    };
    if b.denom == 0 {
        proof {
            if f5l.dom().contains(city) {
                assert(b@ == f5l[city]);
            }
        }
        return None;
    }
    proof {
        if !f5l.dom().contains(city) {
            assert(b@ == model_zero());
            assert(false);
        }
        assert(b@ == f5l[city]);
    }
    let last_aqi = match agg_aqi_debs_exec(b) {
        Some(v) => v,
        None => {
            return None;
        },
    };
    Some(cur_aqi - last_aqi)
}

/// Analyzes the window of `w` buckets starting at `start`: computes the
/// window aggregates (incrementally when a cache is present, from
/// scratch otherwise), ranks the active cities by improvement, emits the
/// first `k` under the window's batch label (the newest contributing
/// batch id), and returns the cache for the next window.  The emitted
/// rows equal [`topk_spec`], which is defined by the cold-start folds
/// alone: the cached and the recomputing path emit the same result.
pub fn analyze_window(
    current: &Vec<PreAggregateData>,
    lastyear: &Vec<PreAggregateData>,
    start: usize,
    w: usize,
    d: usize,
    k: usize,
    cache: Option<SlidingWindowCache>,
    known_cities: &Vec<String>,
) -> (r: (ResultQ1, SlidingWindowCache))
    requires
        2 <= d <= w,
        k <= 0x7FFF_FFFF,
        start + w <= current@.len(),
        start + w <= lastyear@.len(),
        known_cities@.len() <= 0x1_0000_0000,
        stream_ok(current@, known_cities@.len() as int),
        stream_ok(lastyear@, known_cities@.len() as int),
        cache is Some ==> cache_ok(
            cache->Some_0,
            maps_of(current@),
            maps_of(lastyear@),
            start as int,
            w as int,
            d as int,
        ),
    ensures
        r.0.benchmark_id == 0,
        r.0.batch_seq_id == window_batch_label(batch_labels(current@), start as int, w as int),
        r.0.topkimproved@ == topk_spec(
            maps_of(current@),
            maps_of(lastyear@),
            known_cities@,
            start as int,
            w as int,
            d as int,
            k as int,
        ),
        r.0.topkimproved@.len() <= k,
        forall|i: int|
            0 <= i < r.0.topkimproved@.len() ==> (#[trigger] r.0.topkimproved@[i]).position == i,
        forall|i: int, j: int|
            0 <= i <= j < r.0.topkimproved@.len() ==> (#[trigger] r.0.topkimproved@[i]).average_aqi_improvement
                >= (#[trigger] r.0.topkimproved@[j]).average_aqi_improvement,
        cache_ok(
            r.1,
            maps_of(current@),
            maps_of(lastyear@),
            start + 1,
            w as int,
            d as int,
        ),
{
    let ncur = current.len();
    let nlast = lastyear.len();
    proof {
        assert(ncur == current@.len());
        assert(nlast == lastyear@.len());
    }
    let ghost cms = maps_of(current@);
    let ghost lms = maps_of(lastyear@);
    let ghost ncities = known_cities@.len() as int;
    let ghost f1 = fold_range(cms, start + w - d, start + w);
    let ghost f5c = fold_range(cms, start as int, start + w);
    let ghost f5l = fold_range(lms, start as int, start + w);
    proof {
        assert(forall|i: int| 0 <= i < cms.len() ==> #[trigger] cms[i] == current@[i].values@);
        assert(forall|i: int| 0 <= i < lms.len() ==> #[trigger] lms[i] == lastyear@[i].values@);
        lemma_fold_range_ok(cms, ncities, start + w - d, start + w);
        lemma_fold_range_ok(cms, ncities, start as int, start + w);
        lemma_fold_range_ok(lms, ncities, start as int, start + w);
        lemma_map_ok_key_n_nonneg(cms, ncities);
        lemma_map_ok_key_n_nonneg(lms, ncities);
    }
    // active cities: those with data in the last two buckets (the
    // trailing ten minutes)
    let a1 = crate::aggregate::ActiveCities::from_map_keys(&current[start + w - 2].values);
    let a2 = crate::aggregate::ActiveCities::from_map_keys(&current[start + w - 1].values);
    let active = a1.bitor(a2);
    proof {
        assert(active@ == active_set(cms, start as int, w as int));
    }
    // the window aggregates: incrementally from the cache when present
    let (cur_1d, cur_5d, last_5d) = match cache {
        Some(c) => {
            proof {
                lemma_fold_range_ok(cms, ncities, start + w - d, start + w - 1);
                lemma_fold_range_ok(cms, ncities, start as int, start + w - 1);
                lemma_fold_range_ok(lms, ncities, start as int, start + w - 1);
                lemma_zext_values_wf(c.current_1d@, fold_range(cms, start + w - d, start + w - 1));
                lemma_zext_values_wf(c.current_5d@, fold_range(cms, start as int, start + w - 1));
                lemma_zext_values_wf(c.lastyear_5d@, fold_range(lms, start as int, start + w - 1));
                crate::aggregate::lemma_cmap_wf_from_view(c.current_1d);
                crate::aggregate::lemma_cmap_wf_from_view(c.current_5d);
                crate::aggregate::lemma_cmap_wf_from_view(c.lastyear_5d);
            }
            let newest = &current[start + w - 1].values;
            let newest_last = &lastyear[start + w - 1].values;
            let mut cur_1d = newest.copy_map();
            let mut cur_5d = newest.copy_map();
            let mut last_5d = newest_last.copy_map();
            proof {
                lemma_merge_count_bound(cms, newest@, c.current_1d@, fold_range(cms, start + w - d, start + w - 1), start + w - d, start + w - 1, ncities);
                lemma_merge_count_bound(cms, newest@, c.current_5d@, fold_range(cms, start as int, start + w - 1), start as int, start + w - 1, ncities);
                lemma_merge_count_bound(lms, newest_last@, c.lastyear_5d@, fold_range(lms, start as int, start + w - 1), start as int, start + w - 1, ncities);
            }
            crate::aggregate::map_add(&mut cur_1d, &c.current_1d);
            crate::aggregate::map_add(&mut cur_5d, &c.current_5d);
            crate::aggregate::map_add(&mut last_5d, &c.lastyear_5d);
            proof {
                lemma_zext_merge(newest@, c.current_1d@, fold_range(cms, start + w - d, start + w - 1));
                lemma_zext_merge(newest@, c.current_5d@, fold_range(cms, start as int, start + w - 1));
                lemma_zext_merge(newest_last@, c.lastyear_5d@, fold_range(lms, start as int, start + w - 1));
                lemma_map_merge_comm(fold_range(cms, start + w - d, start + w - 1), cms[start + w - 1]);
                lemma_map_merge_comm(fold_range(cms, start as int, start + w - 1), cms[start + w - 1]);
                lemma_map_merge_comm(fold_range(lms, start as int, start + w - 1), lms[start + w - 1]);
                assert(zext(cur_1d@, f1));
                assert(zext(cur_5d@, f5c));
                assert(zext(last_5d@, f5l));
            }
            (cur_1d, cur_5d, last_5d)
        },
        None => {
            // cold start: fold the windows from scratch
            let cur_1d = get_final_aggregate(current, start + w - d, start + w);
            let cur_5d = get_final_aggregate(current, start, start + w);
            let last_5d = get_final_aggregate(lastyear, start, start + w);
            (cur_1d, cur_5d, last_5d)
        },
    };
    // the cache for the next window: drop the bucket that leaves each
    // window when the next one arrives
    proof {
        lemma_fold_range_front(cms, start + w - d, start + w);
        lemma_fold_range_front(cms, start as int, start + w);
        lemma_fold_range_front(lms, start as int, start + w);
        lemma_fold_range_ok(cms, ncities, start + w - d + 1, start + w);
        lemma_fold_range_ok(cms, ncities, start + 1, start + w);
        lemma_fold_range_ok(lms, ncities, start + 1, start + w);
        lemma_zext_sub(cur_1d@, cms[start + w - d], fold_range(cms, start + w - d + 1, start + w));
        lemma_zext_sub(cur_5d@, cms[start as int], fold_range(cms, start + 1, start + w));
        lemma_zext_sub(last_5d@, lms[start as int], fold_range(lms, start + 1, start + w));
    }
    let mut cur_1d_next = cur_1d.copy_map();
    let mut cur_5d_next = cur_5d.copy_map();
    let mut last_5d_next = last_5d.copy_map();
    crate::aggregate::map_sub(&mut cur_1d_next, &current[start + w - d].values);
    crate::aggregate::map_sub(&mut cur_5d_next, &current[start].values);
    crate::aggregate::map_sub(&mut last_5d_next, &lastyear[start].values);
    let newcache = SlidingWindowCache {
        current_1d: cur_1d_next,
        current_5d: cur_5d_next,
        lastyear_5d: last_5d_next,
    };
    // the candidates, in ascending city id order
    let nc = known_cities.len();
    let mut cands: Vec<(i32, CityId)> = Vec::new();
    let mut city: usize = 0;
    while city < nc
        invariant
            city <= nc,
            nc == ncities,
            ncities <= 0x1_0000_0000,
            crate::aggregate::keys_unique(cur_5d.entries@),
            crate::aggregate::keys_unique(last_5d.entries@),
            zext(cur_5d@, f5c),
            zext(last_5d@, f5l),
            map_ok(f5c, 0x1_0000_0000),
            map_ok(f5l, 0x1_0000_0000),
            cands@ == candidates_spec(f5c, f5l, active@, city as int),
            forall|x: int|
                0 <= x < cands@.len() ==> -500_000 <= (#[trigger] cands@[x]).0 <= 500_000,
        decreases nc - city,
    {
        match candidate_for_city(&cur_5d, &last_5d, &active, city as u32, Ghost(f5c), Ghost(f5l)) {
            Some(imp) => {
                cands.push((imp, city as u32));
            },
            None => {},
        }
        city += 1;
    }
    // rank by improvement, ascending: the biggest improvements first
    let sorted = sort_candidates(&cands);
    let cnt = if k < sorted.len() {
        k
    } else {
        sorted.len()
    };
    let ghost spec_rows = topk_spec(cms, lms, known_cities@, start as int, w as int, d as int, k as int);
    proof {
        lemma_candidates_props(f5c, f5l, active@, ncities);
        lemma_sort_mem(cands@);
        lemma_sort_sorted(cands@);
    }
    let mut topk: Vec<TopKCities> = Vec::new();
    let mut i: usize = 0;
    while i < cnt
        invariant
            i <= cnt,
            cnt <= sorted@.len(),
            cnt <= k,
            cnt == if (k as int) < sorted@.len() { k as int } else { sorted@.len() as int },
            k <= 0x7FFF_FFFF,
            cands@ == candidates_spec(f5c, f5l, active@, ncities),
            nc == ncities,
            ncities <= 0x1_0000_0000,
            known_cities@.len() == ncities,
            sorted@ == sort_by_improvement(cands@),
            sorted@.len() == cands@.len(),
            sorted@ == sort_by_improvement(candidates_spec(f5c, f5l, active@, ncities)),
            spec_rows == topk_spec(cms, lms, known_cities@, start as int, w as int, d as int, k as int),
            spec_rows.len() == cnt,
            forall|x: int| 0 <= x < cands@.len() ==> -500_000 <= (#[trigger] cands@[x]).0 <= 500_000,
            forall|x: int|
                0 <= x < sorted@.len() ==> exists|j: int|
                    0 <= j < cands@.len() && cands@[j] == #[trigger] sorted@[x],
            forall|x: int|
                0 <= x < candidates_spec(f5c, f5l, active@, ncities).len() ==> {
                    let c = #[trigger] candidates_spec(f5c, f5l, active@, ncities)[x];
                    &&& cand_ok(f5c, f5l, active@, c.1)
                    &&& (c.1 as int) < ncities
                    &&& c.0 == improvement_of(f5c, f5l, c.1) as i32
                },
            active@ == active_set(cms, start as int, w as int),
            crate::aggregate::keys_unique(cur_1d.entries@),
            zext(cur_1d@, f1),
            map_ok(f1, ncities),
            f1 == fold_range(cms, start + w - d, start + w),
            f5c == fold_range(cms, start as int, start + w),
            f5l == fold_range(lms, start as int, start + w),
            cms == maps_of(current@),
            lms == maps_of(lastyear@),
            2 <= d <= w,
            start + w <= current@.len(),
            stream_ok(current@, ncities),
            topk@.len() == i,
            forall|x: int| 0 <= x < i ==> #[trigger] topk@[x] == spec_rows[x],
        decreases cnt - i,
    {
        let (imp, cityid) = sorted[i];
        proof {
            let x = choose|j: int| 0 <= j < cands@.len() && cands@[j] == sorted@[i as int];
            assert(cand_ok(f5c, f5l, active@, cityid));
            assert((cityid as int) < ncities);
            assert(-500_000 <= imp <= 500_000);
            // an active city has data in the trailing buckets, which lie
            // inside the one-day window, so the last-day fold holds it
            let bidx: int = if cms[start + w - 2].dom().contains(cityid) {
                start + w - 2
            } else {
                start + w - 1
            };
            assert(cms[bidx].dom().contains(cityid));
            assert(map_ok(cms[bidx], ncities));
            assert(key_n(cms[bidx], cityid) >= 1);
            assert(forall|x: int| 0 <= x < cms.len() ==> #[trigger] cms[x] == current@[x].values@);
            lemma_map_ok_key_n_nonneg(cms, ncities);
            lemma_key_n_range_drop_front(cms, cityid, start + w - d, bidx, start + w);
            lemma_key_n_range_drop_front(cms, cityid, bidx, bidx + 1, start + w);
            lemma_key_n_range_nonneg(cms, cityid, start + w - d, bidx);
            lemma_key_n_range_nonneg(cms, cityid, bidx + 1, start + w);
            lemma_fold_range_key_n(cms, cityid, start + w - d, start + w);
            assert(key_n(f1, cityid) == key_n_range(cms, cityid, start + w - d, start + w));
            assert(key_n_range(cms, cityid, bidx, bidx) == 0);
            assert(key_n_range(cms, cityid, bidx, bidx + 1) == key_n(cms[bidx], cityid));
            assert(key_n_range(cms, cityid, start + w - d, bidx) >= 0);
            assert(key_n_range(cms, cityid, bidx + 1, start + w) >= 0);
            assert(key_n(f1, cityid) >= 1);
            assert(f1.dom().contains(cityid));
            assert(cur_1d@.dom().contains(cityid));
            assert(cur_1d@[cityid] == f1[cityid]);
        }
        let lastday = match cur_1d.get(cityid) {
            Some(a) => lastday_aqi(a),
            None => {
                proof {
                    assert(false);
                }
                (0, 0)
            },
        };
        let row = TopKCities {
            position: i as i32,
            city: known_cities[cityid as usize].clone(),
            average_aqi_improvement: 0 - imp,
            current_aqip1: lastday.0,
            current_aqip2: lastday.1,
        };
        proof {
            assert(spec_rows[i as int] == topk_entry(sorted@[i as int], f1, known_cities@, i as int));
        }
        topk.push(row);
        i += 1;
    }
    proof {
        assert(topk@ =~= spec_rows);
        assert forall|a: int, b: int|
            0 <= a <= b < topk@.len() implies (#[trigger] topk@[a]).average_aqi_improvement >= (
        #[trigger] topk@[b]).average_aqi_improvement by {
            assert(sorted@[a].0 <= sorted@[b].0);
            assert(topk@[a] == spec_rows[a]);
            assert(topk@[b] == spec_rows[b]);
        }
    }
    // the window's label: the newest non-empty bucket's batch id
    let ghost wlabels = batch_labels(current@);
    let mut batch_seq_id: i64 = 0;
    let mut rem: usize = w;
    loop
        invariant_except_break
            batch_seq_id == 0,
            window_batch_label(wlabels, start as int, w as int) == window_batch_label(
                wlabels,
                start as int,
                rem as int,
            ),
        invariant
            rem <= w,
            start + w <= ncur,
            ncur == current@.len(),
            wlabels == batch_labels(current@),
        ensures
            batch_seq_id == window_batch_label(wlabels, start as int, w as int),
        decreases rem,
    {
        if rem == 0 {
            break ;
        }
        match current[start + rem - 1].maxbatch {
            Some(id) => {
                batch_seq_id = id;
                proof {
                    assert(wlabels[start + rem - 1] == Some(id));
                }
                break ;
            },
            None => {
                proof {
                    assert(wlabels[start + rem - 1] is None);
                }
                rem = rem - 1;
            },
        }
    }
    (ResultQ1 { benchmark_id: 0, batch_seq_id, topkimproved: topk }, newcache)
}

/// Every value of a zero extension of a map with bounded values is
/// itself bounded.
pub proof fn lemma_zext_values_wf(m: Map<CityId, AggModel>, f: Map<CityId, AggModel>)
    requires
        zext(m, f),
        map_ok(f, 0x1_0000_0001),
    ensures
        forall|k: CityId| #[trigger] m.dom().contains(k) ==> model_wf(m[k]),
{
    assert forall|k: CityId| #[trigger] m.dom().contains(k) implies model_wf(m[k]) by {
        if f.dom().contains(k) {
        } else {
            assert(m[k] == model_zero());
        }
    }
}

/// The per-city counts of the newest bucket and the cache together stay
/// within what one aggregate can count.
pub proof fn lemma_merge_count_bound(
    ms: Seq<Map<CityId, AggModel>>,
    newest: Map<CityId, AggModel>,
    cachem: Map<CityId, AggModel>,
    f: Map<CityId, AggModel>,
    from: int,
    to: int,
    ncities: int,
)
    requires
        zext(cachem, f),
        f == fold_range(ms, from, to),
        0 <= from <= to < ms.len(),
        newest == ms[to],
        forall|i: int| 0 <= i < ms.len() ==> map_ok(#[trigger] ms[i], ncities),
        forall|k: CityId| key_n_range(ms, k, 0, ms.len() as int) <= MAX_COUNT,
    ensures
        forall|k: CityId|
            newest.dom().contains(k) && #[trigger] cachem.dom().contains(k) ==> newest[k].n
                + cachem[k].n <= MAX_COUNT,
{
    lemma_map_ok_key_n_nonneg(ms, ncities);
    assert forall|k: CityId|
        newest.dom().contains(k) && #[trigger] cachem.dom().contains(k) implies newest[k].n
        + cachem[k].n <= MAX_COUNT by {
        lemma_fold_range_key_n(ms, k, from, to);
        lemma_key_n_range_drop_front(ms, k, from, to, to + 1);
        lemma_key_n_range_sub(ms, k, from, to + 1, 0, ms.len() as int);
        if f.dom().contains(k) {
            assert(cachem[k] == f[k]);
            assert(key_n(f, k) == f[k].n);
            assert(key_n(newest, k) == newest[k].n);
        } else {
            assert(cachem[k] == model_zero());
            assert(key_n(newest, k) == newest[k].n);
            assert(key_n_range(ms, k, from, to + 1) >= key_n(ms[to], k));
        }
    }
}

} // verus!

verus! {

/// One raw measurement, with coordinates in micro-degrees and
/// concentrations in milli units.
#[derive(Debug, Copy, Clone)]
pub struct Measurement {
    /// The timestamp, in whole seconds.
    pub timestamp_seconds: i64,
    /// Latitude, in millionths of a degree.
    pub latitude: i32,
    /// Longitude, in millionths of a degree.
    pub longitude: i32,
    /// Particles < 10 µm (PM10), in milli units.
    pub p1: u32,
    /// Particles < 2.5 µm (PM2.5), in milli units.
    pub p2: u32,
}

/// One input batch: measurements of the current year and of the same
/// calendar window one year before.
#[derive(Debug, Clone)]
pub struct Batch {
    /// The batch's sequence number.
    pub seq_id: i64,
    /// Whether this is the last batch of the feed.
    pub last: bool,
    /// This year's measurements.
    pub current: Vec<Measurement>,
    /// The measurements of the same window one year before.
    pub lastyear: Vec<Measurement>,
}

/// The pre-filter applied before any polygon is consulted: the bounding
/// box of Germany, in micro-degrees.
pub open spec fn in_germany_spec(latitude: i32, longitude: i32) -> bool {
    &&& 47_407_240 <= latitude <= 54_907_900
    &&& 5_988_150 <= longitude <= 14_988_530
}

/// Whether the coordinate lies in the bounding box of Germany.
pub fn in_germany(latitude: i32, longitude: i32) -> (r: bool)
    ensures
        r == in_germany_spec(latitude, longitude),
{
    47_407_240 <= latitude && latitude <= 54_907_900 && 5_988_150 <= longitude && longitude
        <= 14_988_530
}

/// What the locator makes of one measurement: nothing when it falls
/// outside the Germany box or outside every polygon, else the
/// measurement tagged with the first matching polygon's city.
pub open spec fn localize_one(
    locs: Seq<(crate::AnalysisLocation, Vec<Vec<crate::geometry::PointMicro>>)>,
    m: Measurement,
    sid: i64,
) -> Option<LocalizedMeasurement> {
    if !in_germany_spec(m.latitude, m.longitude) {
        None
    } else {
        let ms = crate::matches_of(
            locs,
            crate::geometry::PointMicro { x: m.longitude, y: m.latitude },
        );
        if ms.len() == 0 {
            None
        } else {
            Some(
                LocalizedMeasurement {
                    batch_seq_id: sid,
                    cityid: ms[0].1,
                    timestamp_seconds: m.timestamp_seconds,
                    p1: m.p1,
                    p2: m.p2,
                },
            )
        }
    }
}

/// The localized stream: every measurement the locator keeps, in order.
pub open spec fn localize_seq(
    locs: Seq<(crate::AnalysisLocation, Vec<Vec<crate::geometry::PointMicro>>)>,
    s: Seq<(Measurement, i64)>,
) -> Seq<LocalizedMeasurement>
    decreases s.len(),
{
    if s.len() == 0 {
        Seq::empty()
    } else {
        let prev = localize_seq(locs, s.drop_last());
        match localize_one(locs, s.last().0, s.last().1) {
            Some(lm) => prev.push(lm),
            None => prev,
        }
    }
}

/// A measurement stream the core accepts: monotone timestamps within
/// bounds, concentrations within range.
pub open spec fn meas_input_wf(s: Seq<(Measurement, i64)>) -> bool {
    &&& forall|i: int, j: int|
        0 <= i <= j < s.len() ==> (#[trigger] s[i]).0.timestamp_seconds
            <= (#[trigger] s[j]).0.timestamp_seconds
    &&& forall|i: int|
        0 <= i < s.len() ==> (#[trigger] s[i]).0.timestamp_seconds <= i64::MAX
            - crate::partition::BUCKET_SECONDS && s[i].0.p1 <= crate::aggregate::MAX_MILLI
            && s[i].0.p2 <= crate::aggregate::MAX_MILLI
}

/// The current-year measurements of all batches, in order, each tagged
/// with its batch id.
pub open spec fn flat_current(batches: Seq<Batch>) -> Seq<(Measurement, i64)>
    decreases batches.len(),
{
    if batches.len() == 0 {
        Seq::empty()
    } else {
        flat_current(batches.drop_last()) + batches.last().current@.map_values(
            |m: Measurement| (m, batches.last().seq_id),
        )
    }
}

/// The year-before measurements of all batches, in order, each tagged
/// with its batch id.
pub open spec fn flat_lastyear(batches: Seq<Batch>) -> Seq<(Measurement, i64)>
    decreases batches.len(),
{
    if batches.len() == 0 {
        Seq::empty()
    } else {
        flat_lastyear(batches.drop_last()) + batches.last().lastyear@.map_values(
            |m: Measurement| (m, batches.last().seq_id),
        )
    }
}

/// Flattens one side of the batches into a single tagged stream.
fn flatten_side(batches: &Vec<Batch>, lastyear: bool) -> (r: Vec<(Measurement, i64)>)
    ensures
        !lastyear ==> r@ == flat_current(batches@),
        lastyear ==> r@ == flat_lastyear(batches@),
{
    let mut r: Vec<(Measurement, i64)> = Vec::new();
    let mut i: usize = 0;
    while i < batches.len()
        invariant
            i <= batches@.len(),
            !lastyear ==> r@ == flat_current(batches@.take(i as int)),
            lastyear ==> r@ == flat_lastyear(batches@.take(i as int)),
        decreases batches@.len() - i,
    {
        let b = &batches[i];
        let side = if lastyear {
            &b.lastyear
        } else {
            &b.current
        };
        let sid = b.seq_id;
        let ghost r0 = r@;
        let mut j: usize = 0;
        while j < side.len()
            invariant
                j <= side@.len(),
                r@ == r0 + side@.take(j as int).map_values(|m: Measurement| (m, sid)),
            decreases side@.len() - j,
        {
            r.push((side[j], sid));
            proof {
                assert(side@.take(j + 1).map_values(|m: Measurement| (m, sid)) =~= side@.take(
                    j as int,
                ).map_values(|m: Measurement| (m, sid)).push((side@[j as int], sid)));
                assert(r@ =~= r0 + side@.take(j + 1).map_values(|m: Measurement| (m, sid)));
            }
            j += 1;
        }
        proof {
            assert(side@.take(side@.len() as int) =~= side@);
            assert(batches@.take(i + 1).drop_last() =~= batches@.take(i as int));
            assert(batches@.take(i + 1).last() == batches@[i as int]);
        }
        i += 1;
    }
    proof {
        assert(batches@.take(batches@.len() as int) =~= batches@);
    }
    r
}

/// Localizes a tagged measurement stream: Germany pre-filter, then the
/// locator; measurements outside every polygon are dropped.
fn localize_stream(
    locations: &mut crate::AnalysisLocations,
    flat: &Vec<(Measurement, i64)>,
) -> (r: Vec<LocalizedMeasurement>)
    requires
        crate::locations_wf(*old(locations)),
    ensures
        crate::locations_wf(*final(locations)),
        final(locations).locations == old(locations).locations,
        final(locations).known_cities == old(locations).known_cities,
        r@ == localize_seq(old(locations).locations@, flat@),
{
    let ghost locs = locations.locations@;
    let mut r: Vec<LocalizedMeasurement> = Vec::new();
    let mut i: usize = 0;
    while i < flat.len()
        invariant
            i <= flat@.len(),
            crate::locations_wf(*locations),
            locations.locations == old(locations).locations,
            locations.known_cities == old(locations).known_cities,
            locations.locations@ == locs,
            r@ == localize_seq(locs, flat@.take(i as int)),
        decreases flat@.len() - i,
    {
        let (m, sid) = flat[i];
        proof {
            assert(flat@.take(i + 1).drop_last() =~= flat@.take(i as int));
            assert(flat@.take(i + 1).last() == flat@[i as int]);
        }
        if in_germany(m.latitude, m.longitude) {
            proof {
                assert(crate::geometry::pt_wf(
                    crate::geometry::PointMicro { x: m.longitude, y: m.latitude },
                ));
            }
            let matches = locations.localize(m.latitude, m.longitude);
            if matches.len() > 0 {
                let cityid = matches[0].cityid;
                proof {
                    assert((matches@[0].zipcode@, matches@[0].cityid) == crate::matches_of(
                        locs,
                        crate::geometry::PointMicro { x: m.longitude, y: m.latitude },
                    )[0]);
                }
                r.push(
                    LocalizedMeasurement {
                        batch_seq_id: sid,
                        cityid,
                        timestamp_seconds: m.timestamp_seconds,
                        p1: m.p1,
                        p2: m.p2,
                    },
                );
            }
        }
        i += 1;
    }
    proof {
        assert(flat@.take(flat@.len() as int) =~= flat@);
    }
    r
}

/// A localized stream inherits order, bounds and ranges from its source.
pub proof fn lemma_localize_seq_wf(
    locs: Seq<(crate::AnalysisLocation, Vec<Vec<crate::geometry::PointMicro>>)>,
    s: Seq<(Measurement, i64)>,
)
    requires
        meas_input_wf(s),
    ensures
        crate::partition::input_wf(localize_seq(locs, s)),
        localize_seq(locs, s).len() <= s.len(),
        forall|x: int|
            0 <= x < localize_seq(locs, s).len() ==> crate::aggregate::lm_wf(
                #[trigger] localize_seq(locs, s)[x],
            ),
        localize_seq(locs, s).len() > 0 ==> s.len() > 0 && localize_seq(locs, s).last()
            .timestamp_seconds <= s.last().0.timestamp_seconds,
    decreases s.len(),
{
    if s.len() > 0 {
        let t = s.drop_last();
        assert(forall|i: int| 0 <= i < t.len() ==> t[i] == s[i]);
        lemma_localize_seq_wf(locs, t);
        let prev = localize_seq(locs, t);
        match localize_one(locs, s.last().0, s.last().1) {
            Some(lm) => {
                let whole = localize_seq(locs, s);
                assert(whole == prev.push(lm));
                assert(lm.timestamp_seconds == s.last().0.timestamp_seconds);
                assert(s[s.len() - 1] == s.last());
                assert forall|i: int, j: int|
                    0 <= i <= j < whole.len() implies (#[trigger] whole[i]).timestamp_seconds
                    <= (#[trigger] whole[j]).timestamp_seconds by {
                    if j < whole.len() - 1 {
                        assert(whole[i] == prev[i] && whole[j] == prev[j]);
                    } else if i < whole.len() - 1 {
                        assert(whole[i] == prev[i]);
                        assert(prev[i].timestamp_seconds <= prev.last().timestamp_seconds || prev.len() == 0);
                        if prev.len() > 0 {
                            assert(prev[prev.len() - 1] == prev.last());
                            assert(prev.last().timestamp_seconds <= t.last().0.timestamp_seconds);
                            assert(t.last().0.timestamp_seconds <= s.last().0.timestamp_seconds);
                        }
                    }
                }
            },
            None => {
                if prev.len() > 0 {
                    assert(t.last().0.timestamp_seconds <= s.last().0.timestamp_seconds);
                }
            },
        }
    }
}

/// Every city id a localized stream mentions names a known city.
pub proof fn lemma_localize_seq_cityids(
    locs: Seq<(crate::AnalysisLocation, Vec<Vec<crate::geometry::PointMicro>>)>,
    s: Seq<(Measurement, i64)>,
    bound: int,
)
    requires
        forall|i: int| 0 <= i < locs.len() ==> ((#[trigger] locs[i]).0.cityid as int) < bound,
    ensures
        forall|x: int|
            0 <= x < localize_seq(locs, s).len() ==> ((#[trigger] localize_seq(locs, s)[x]).cityid
                as int) < bound,
    decreases s.len(),
{
    if s.len() > 0 {
        lemma_localize_seq_cityids(locs, s.drop_last(), bound);
        let prev = localize_seq(locs, s.drop_last());
        let whole = localize_seq(locs, s);
        match localize_one(locs, s.last().0, s.last().1) {
            Some(lm) => {
                let q = crate::geometry::PointMicro {
                    x: s.last().0.longitude,
                    y: s.last().0.latitude,
                };
                lemma_matches_cityids(locs, q, bound);
                assert((crate::matches_of(locs, q)[0].1 as int) < bound);
                assert forall|x: int| 0 <= x < whole.len() implies ((#[trigger] whole[x]).cityid
                    as int) < bound by {
                    if x < prev.len() {
                        assert(whole[x] == prev[x]);
                    } else {
                        assert(whole[x] == lm);
                    }
                }
            },
            None => {},
        }
    }
}

/// Every match the locator yields carries a city id of the catalog.
pub proof fn lemma_matches_cityids(
    locs: Seq<(crate::AnalysisLocation, Vec<Vec<crate::geometry::PointMicro>>)>,
    q: crate::geometry::PointMicro,
    bound: int,
)
    requires
        forall|i: int| 0 <= i < locs.len() ==> ((#[trigger] locs[i]).0.cityid as int) < bound,
    ensures
        forall|x: int|
            0 <= x < crate::matches_of(locs, q).len() ==> ((#[trigger] crate::matches_of(
                locs,
                q,
            )[x]).1 as int) < bound,
    decreases locs.len(),
{
    if locs.len() > 0 {
        let t = locs.drop_last();
        assert(forall|i: int| 0 <= i < t.len() ==> t[i] == locs[i]);
        lemma_matches_cityids(t, q, bound);
        assert(locs[locs.len() - 1] == locs.last());
        let prev = crate::matches_of(t, q);
        let whole = crate::matches_of(locs, q);
        if crate::geometry::point_in_multipolygon(crate::rings_of(locs.last().1), q) {
            assert forall|x: int| 0 <= x < whole.len() implies ((#[trigger] whole[x]).1 as int)
                < bound by {
                if x < prev.len() {
                    assert(whole[x] == prev[x]);
                } else {
                    assert(whole[x] == (locs.last().0.zipcode@, locs.last().0.cityid));
                }
            }
        }
    }
}

} // verus!

verus! {

/// Size of both five-day windows, in five-minute buckets.
pub const WINDOW_SIZE: usize = 1440;

/// Size of the trailing one-day window, in five-minute buckets.
pub const LAST_DAY_SIZE: usize = 288;

/// How many cities each window reports.
pub const TOP_K: usize = 50;

/// Every city of a bucket aggregation is a city of one of its
/// measurements.
pub proof fn lemma_bucket_agg_keys(s: Seq<LocalizedMeasurement>, ncities: int)
    requires
        forall|i: int| 0 <= i < s.len() ==> ((#[trigger] s[i]).cityid as int) < ncities,
    ensures
        forall|k: CityId| #[trigger]
            crate::aggregate::bucket_agg(s).dom().contains(k) ==> (k as int) < ncities,
    decreases s.len(),
{
    if s.len() > 0 {
        let t = s.drop_last();
        assert(forall|i: int| 0 <= i < t.len() ==> t[i] == s[i]);
        lemma_bucket_agg_keys(t, ncities);
        assert(s[s.len() - 1] == s.last());
        let prev = crate::aggregate::bucket_agg(t);
        assert forall|k: CityId| #[trigger]
            crate::aggregate::bucket_agg(s).dom().contains(k) implies (k as int) < ncities by {
            if k != s.last().cityid {
                assert(prev.dom().contains(k));
            }
        }
    }
}

/// The per-city counts over a pre-aggregated stream never exceed the
/// number of measurements in the underlying buckets.
pub proof fn lemma_key_n_le_concat(
    datas: Seq<PreAggregateData>,
    bs: Seq<Seq<LocalizedMeasurement>>,
    k: CityId,
    m: int,
)
    requires
        datas.len() == bs.len(),
        forall|i: int|
            0 <= i < datas.len() ==> (#[trigger] datas[i]).values@
                == crate::aggregate::bucket_agg(bs[i]),
        forall|i: int| 0 <= i < bs.len() ==> crate::aggregate::bucket_wf(#[trigger] bs[i]),
        0 <= m <= datas.len(),
    ensures
        key_n_range(maps_of(datas), k, 0, m) <= crate::partition::concat_buckets(
            bs.take(m),
        ).len(),
    decreases m,
{
    if m > 0 {
        lemma_key_n_le_concat(datas, bs, k, m - 1);
        assert(bs.take(m).drop_last() =~= bs.take(m - 1));
        assert(bs.take(m).last() == bs[m - 1]);
        assert(maps_of(datas)[m - 1] == datas[m - 1].values@);
        crate::aggregate::lemma_bucket_agg_counts(bs[m - 1]);
        let bm = crate::aggregate::bucket_agg(bs[m - 1]);
        if bm.dom().contains(k) {
        } else {
            assert(key_n(bm, k) == 0);
        }
    } else {
        assert(bs.take(0) =~= Seq::<Seq<LocalizedMeasurement>>::empty());
    }
}

/// A pre-aggregated stream over well-formed buckets with known cities and
/// a bounded total measurement count is usable for the window engine.
pub proof fn lemma_stream_ok(
    datas: Seq<PreAggregateData>,
    bs: Seq<Seq<LocalizedMeasurement>>,
    ncities: int,
)
    requires
        datas.len() == bs.len(),
        forall|i: int|
            0 <= i < datas.len() ==> (#[trigger] datas[i]).values@
                == crate::aggregate::bucket_agg(bs[i]) && cmap_wf(datas[i].values),
        forall|i: int| 0 <= i < bs.len() ==> crate::aggregate::bucket_wf(#[trigger] bs[i]),
        forall|i: int, j: int|
            0 <= i < bs.len() && 0 <= j < bs[i].len() ==> ((#[trigger] bs[i][j]).cityid as int)
                < ncities,
        crate::partition::concat_buckets(bs).len() <= MAX_COUNT,
    ensures
        stream_ok(datas, ncities),
{
    assert forall|i: int| 0 <= i < datas.len() implies cmap_wf((#[trigger] datas[i]).values)
        && map_ok(datas[i].values@, ncities) by {
        crate::aggregate::lemma_bucket_agg_counts(bs[i]);
        lemma_bucket_agg_keys(bs[i], ncities);
        assert(crate::aggregate::bucket_wf(bs[i]));
        assert forall|k: CityId| #[trigger] datas[i].values@.dom().contains(k) implies 1
            <= datas[i].values@[k].n && model_wf(datas[i].values@[k]) && (k as int) < ncities by {
            let m = crate::aggregate::bucket_agg(bs[i]);
            assert(m.dom().contains(k));
            assert(1 <= m[k].n <= bs[i].len());
            assert(bs[i].len() <= MAX_COUNT);
        }
    }
    assert forall|k: CityId| #[trigger]
        key_n_range(maps_of(datas), k, 0, datas.len() as int) <= MAX_COUNT by {
        lemma_key_n_le_concat(datas, bs, k, datas.len() as int);
        assert(bs.take(bs.len() as int) =~= bs);
    }
}

/// How many windows two equally sized sliding windows yield over streams
/// of the given lengths.
pub open spec fn num_windows_eq(ncur: int, nlast: int, w: int) -> int {
    if ncur >= w && nlast >= w {
        (if ncur < nlast {
            ncur
        } else {
            nlast
        }) - w + 1
    } else {
        0
    }
}

/// Runs the query-1 operator over two pre-aggregated bucket streams: one
/// result per window position, each computed incrementally from the
/// previous window's cache.
pub fn run_query1(
    current: &Vec<PreAggregateData>,
    lastyear: &Vec<PreAggregateData>,
    w: usize,
    d: usize,
    k: usize,
    known_cities: &Vec<String>,
) -> (r: Vec<ResultQ1>)
    requires
        2 <= d <= w,
        k <= 0x7FFF_FFFF,
        known_cities@.len() <= 0x1_0000_0000,
        stream_ok(current@, known_cities@.len() as int),
        stream_ok(lastyear@, known_cities@.len() as int),
    ensures
        r@.len() == num_windows_eq(current@.len() as int, lastyear@.len() as int, w as int),
        forall|i: int|
            0 <= i < r@.len() ==> {
                let res = #[trigger] r@[i];
                &&& res.benchmark_id == 0
                &&& res.batch_seq_id == window_batch_label(batch_labels(current@), i, w as int)
                &&& res.topkimproved@ == topk_spec(
                    maps_of(current@),
                    maps_of(lastyear@),
                    known_cities@,
                    i,
                    w as int,
                    d as int,
                    k as int,
                )
                &&& res.topkimproved@.len() <= k
                &&& (forall|x: int|
                    0 <= x < res.topkimproved@.len() ==> (#[trigger] res.topkimproved@[x]).position
                        == x)
                &&& (forall|x: int, y: int|
                    0 <= x <= y < res.topkimproved@.len()
                        ==> (#[trigger] res.topkimproved@[x]).average_aqi_improvement
                        >= (#[trigger] res.topkimproved@[y]).average_aqi_improvement)
                &&& (forall|x: int|
                    0 <= x < res.topkimproved@.len() ==> row_names_active_city(
                        maps_of(current@),
                        known_cities@,
                        i,
                        w as int,
                        #[trigger] res.topkimproved@[x],
                    ))
            },
{
    let mut out: Vec<ResultQ1> = Vec::new();
    let ncur = current.len();
    let nlast = lastyear.len();
    if ncur < w || nlast < w {
        return out;
    }
    let maxstart = if ncur < nlast {
        ncur - w
    } else {
        nlast - w
    };
    let mut cache: Option<SlidingWindowCache> = None;
    let mut start: usize = 0;
    while start <= maxstart
        invariant
            start <= maxstart + 1,
            maxstart == (if ncur < nlast {
                ncur
            } else {
                nlast
            }) - w,
            ncur == current@.len(),
            nlast == lastyear@.len(),
            w <= ncur,
            w <= nlast,
            2 <= d <= w,
            k <= 0x7FFF_FFFF,
            known_cities@.len() <= 0x1_0000_0000,
            stream_ok(current@, known_cities@.len() as int),
            stream_ok(lastyear@, known_cities@.len() as int),
            cache is Some ==> cache_ok(
                cache->Some_0,
                maps_of(current@),
                maps_of(lastyear@),
                start as int,
                w as int,
                d as int,
            ),
            out@.len() == start,
            forall|i: int|
                0 <= i < out@.len() ==> {
                    let res = #[trigger] out@[i];
                    &&& res.benchmark_id == 0
                    &&& res.batch_seq_id == window_batch_label(batch_labels(current@), i, w as int)
                    &&& res.topkimproved@ == topk_spec(
                        maps_of(current@),
                        maps_of(lastyear@),
                        known_cities@,
                        i,
                        w as int,
                        d as int,
                        k as int,
                    )
                    &&& res.topkimproved@.len() <= k
                    &&& (forall|x: int|
                        0 <= x < res.topkimproved@.len()
                            ==> (#[trigger] res.topkimproved@[x]).position == x)
                    &&& (forall|x: int, y: int|
                        0 <= x <= y < res.topkimproved@.len()
                            ==> (#[trigger] res.topkimproved@[x]).average_aqi_improvement
                            >= (#[trigger] res.topkimproved@[y]).average_aqi_improvement)
                    &&& (forall|x: int|
                        0 <= x < res.topkimproved@.len() ==> row_names_active_city(
                            maps_of(current@),
                            known_cities@,
                            i,
                            w as int,
                            #[trigger] res.topkimproved@[x],
                        ))
                },
        decreases maxstart + 1 - start,
    {
        let c = cache.take();
        let (res, newcache) = analyze_window(current, lastyear, start, w, d, k, c, known_cities);
        proof {
            lemma_topk_only_active_cities(
                maps_of(current@),
                maps_of(lastyear@),
                known_cities@,
                start as int,
                w as int,
                d as int,
                k as int,
            );
        }
        out.push(res);
        cache = Some(newcache);
        start += 1;
    }
    out
}

} // verus!

verus! {

/// The per-bucket city maps of a bucket stream.
pub open spec fn bucket_maps(bs: Seq<Seq<LocalizedMeasurement>>) -> Seq<Map<CityId, AggModel>> {
    bs.map_values(|b: Seq<LocalizedMeasurement>| crate::aggregate::bucket_agg(b))
}

/// Runs the whole core over a sequence of decoded batches with the given
/// window configuration: localization with the Germany pre-filter,
/// five-minute partitioning of both streams, per-bucket pre-aggregation,
/// and the query-1 sliding windows of `w` buckets with a `d`-bucket
/// trailing day, the first `k` cities reported.  The emitted results are
/// exactly the per-window rankings over the buckets that partition the
/// localized streams.
pub fn run_pipeline_with(
    locations: &mut crate::AnalysisLocations,
    batches_iter: Vec<Batch>,
    w: usize,
    d: usize,
    k: usize,
) -> (r: Vec<ResultQ1>)
    requires
        2 <= d <= w,
        k <= 0x7FFF_FFFF,
        crate::locations_wf(*old(locations)),
        old(locations).known_cities@.len() <= 0x1_0000_0000,
        meas_input_wf(flat_current(batches_iter@)),
        meas_input_wf(flat_lastyear(batches_iter@)),
        flat_current(batches_iter@).len() <= MAX_COUNT,
        flat_lastyear(batches_iter@).len() <= MAX_COUNT,
    ensures
        crate::locations_wf(*final(locations)),
        final(locations).locations == old(locations).locations,
        final(locations).known_cities == old(locations).known_cities,
        exists|cbs: Seq<Seq<LocalizedMeasurement>>, lbs: Seq<Seq<LocalizedMeasurement>>|
            #![trigger crate::partition::partition_props(cbs, localize_seq(old(locations).locations@, flat_current(batches_iter@))), crate::partition::partition_props(lbs, localize_seq(old(locations).locations@, flat_lastyear(batches_iter@)))]
            {
                &&& crate::partition::partition_props(
                    cbs,
                    localize_seq(old(locations).locations@, flat_current(batches_iter@)),
                )
                &&& crate::partition::partition_props(
                    lbs,
                    localize_seq(old(locations).locations@, flat_lastyear(batches_iter@)),
                )
                &&& r@.len() == num_windows_eq(
                    cbs.len() as int,
                    lbs.len() as int,
                    w as int,
                )
                &&& forall|i: int|
                    0 <= i < r@.len() ==> {
                        let res = #[trigger] r@[i];
                        &&& res.benchmark_id == 0
                        &&& res.batch_seq_id == window_batch_label(
                            cbs.map_values(
                                |b: Seq<LocalizedMeasurement>| crate::aggregate::bucket_maxbatch(
                                    b,
                                ),
                            ),
                            i,
                            w as int,
                        )
                        &&& res.topkimproved@ == topk_spec(
                            bucket_maps(cbs),
                            bucket_maps(lbs),
                            old(locations).known_cities@,
                            i,
                            w as int,
                            d as int,
                            k as int,
                        )
                        &&& (forall|x: int|
                            0 <= x < res.topkimproved@.len() ==> row_names_active_city(
                                bucket_maps(cbs),
                                old(locations).known_cities@,
                                i,
                                w as int,
                                #[trigger] res.topkimproved@[x],
                            ))
                    }
            },
{
    let ghost locs = locations.locations@;
    let ghost names = locations.known_cities@;
    let ghost ncities = names.len() as int;
    let flat_cur = flatten_side(&batches_iter, false);
    let flat_last = flatten_side(&batches_iter, true);
    let loc_cur = localize_stream(locations, &flat_cur);
    let loc_last = localize_stream(locations, &flat_last);
    proof {
        lemma_localize_seq_wf(locs, flat_cur@);
        lemma_localize_seq_wf(locs, flat_last@);
        assert forall|i: int| 0 <= i < locs.len() implies ((#[trigger] locs[i]).0.cityid as int)
            < ncities by {
            assert(crate::locations_wf(*locations));
        }
        lemma_localize_seq_cityids(locs, flat_cur@, ncities);
        lemma_localize_seq_cityids(locs, flat_last@, ncities);
    }
    let ghost loc_cur_seq = loc_cur@;
    let ghost loc_last_seq = loc_last@;
    let cbs = crate::partition::partition_all(loc_cur);
    let lbs = crate::partition::partition_all(loc_last);
    let ghost cbsv = cbs@.map_values(|b: Vec<LocalizedMeasurement>| b@);
    let ghost lbsv = lbs@.map_values(|b: Vec<LocalizedMeasurement>| b@);
    proof {
        assert(forall|i: int| 0 <= i < cbsv.len() ==> cbsv[i] == (#[trigger] cbs@[i])@);
        assert(forall|i: int| 0 <= i < lbsv.len() ==> lbsv[i] == (#[trigger] lbs@[i])@);
        crate::partition::lemma_concat_mem(cbsv);
        crate::partition::lemma_concat_mem(lbsv);
        crate::partition::lemma_concat_len(cbsv);
        crate::partition::lemma_concat_len(lbsv);
        assert forall|i: int| 0 <= i < cbs@.len() implies crate::aggregate::bucket_wf(
            (#[trigger] cbs@[i])@,
        ) by {
            lemma_bucket_wf_from_concat(cbsv, loc_cur_seq, i);
            assert(cbsv[i] == cbs@[i]@);
        }
        assert forall|i: int| 0 <= i < lbs@.len() implies crate::aggregate::bucket_wf(
            (#[trigger] lbs@[i])@,
        ) by {
            lemma_bucket_wf_from_concat(lbsv, loc_last_seq, i);
            assert(lbsv[i] == lbs@[i]@);
        }
    }
    let cur_pre = crate::aggregate::preaggregate_all(&cbs);
    let last_pre = crate::aggregate::preaggregate_all(&lbs);
    proof {
        assert forall|i: int, j: int|
            0 <= i < cbsv.len() && 0 <= j < cbsv[i].len() implies ((#[trigger] cbsv[i][j]).cityid
            as int) < ncities by {
            assert(crate::partition::bucket_elem_in_concat(cbsv, i, j));
            let x = choose|x: int|
                0 <= x < crate::partition::concat_buckets(cbsv).len()
                    && #[trigger] crate::partition::concat_buckets(cbsv)[x] == cbsv[i][j];
            assert(loc_cur_seq[x] == cbsv[i][j]);
        }
        assert forall|i: int, j: int|
            0 <= i < lbsv.len() && 0 <= j < lbsv[i].len() implies ((#[trigger] lbsv[i][j]).cityid
            as int) < ncities by {
            assert(crate::partition::bucket_elem_in_concat(lbsv, i, j));
            let x = choose|x: int|
                0 <= x < crate::partition::concat_buckets(lbsv).len()
                    && #[trigger] crate::partition::concat_buckets(lbsv)[x] == lbsv[i][j];
            assert(loc_last_seq[x] == lbsv[i][j]);
        }
        assert(forall|i: int|
            0 <= i < cur_pre@.len() ==> (#[trigger] cur_pre@[i]).values@
                == crate::aggregate::bucket_agg(cbsv[i]));
        assert(forall|i: int|
            0 <= i < last_pre@.len() ==> (#[trigger] last_pre@[i]).values@
                == crate::aggregate::bucket_agg(lbsv[i]));
        lemma_stream_ok(cur_pre@, cbsv, ncities);
        lemma_stream_ok(last_pre@, lbsv, ncities);
    }
    let out = run_query1(&cur_pre, &last_pre, w, d, k, &locations.known_cities);
    proof {
        assert(maps_of(cur_pre@) =~= bucket_maps(cbsv));
        assert(maps_of(last_pre@) =~= bucket_maps(lbsv));
        assert(batch_labels(cur_pre@) =~= cbsv.map_values(
            |b: Seq<LocalizedMeasurement>| crate::aggregate::bucket_maxbatch(b),
        ));
        assert(crate::partition::partition_props(cbsv, localize_seq(locs, flat_current(batches_iter@))));
        assert(crate::partition::partition_props(lbsv, localize_seq(locs, flat_lastyear(batches_iter@))));
    }
    out
}

/// Runs the whole core with the default configuration: five-day windows
/// of 1440 five-minute buckets, a 288-bucket trailing day, the top fifty
/// cities reported.
pub fn run_pipeline(locations: &mut crate::AnalysisLocations, batches_iter: Vec<Batch>) -> (r:
    Vec<ResultQ1>)
    requires
        crate::locations_wf(*old(locations)),
        old(locations).known_cities@.len() <= 0x1_0000_0000,
        meas_input_wf(flat_current(batches_iter@)),
        meas_input_wf(flat_lastyear(batches_iter@)),
        flat_current(batches_iter@).len() <= MAX_COUNT,
        flat_lastyear(batches_iter@).len() <= MAX_COUNT,
    ensures
        crate::locations_wf(*final(locations)),
        final(locations).locations == old(locations).locations,
        final(locations).known_cities == old(locations).known_cities,
        exists|cbs: Seq<Seq<LocalizedMeasurement>>, lbs: Seq<Seq<LocalizedMeasurement>>|
            #![trigger crate::partition::partition_props(cbs, localize_seq(old(locations).locations@, flat_current(batches_iter@))), crate::partition::partition_props(lbs, localize_seq(old(locations).locations@, flat_lastyear(batches_iter@)))]
            {
                &&& crate::partition::partition_props(
                    cbs,
                    localize_seq(old(locations).locations@, flat_current(batches_iter@)),
                )
                &&& crate::partition::partition_props(
                    lbs,
                    localize_seq(old(locations).locations@, flat_lastyear(batches_iter@)),
                )
                &&& r@.len() == num_windows_eq(
                    cbs.len() as int,
                    lbs.len() as int,
                    WINDOW_SIZE as int,
                )
                &&& forall|i: int|
                    0 <= i < r@.len() ==> {
                        let res = #[trigger] r@[i];
                        &&& res.benchmark_id == 0
                        &&& res.batch_seq_id == window_batch_label(
                            cbs.map_values(
                                |b: Seq<LocalizedMeasurement>| crate::aggregate::bucket_maxbatch(
                                    b,
                                ),
                            ),
                            i,
                            WINDOW_SIZE as int,
                        )
                        &&& res.topkimproved@ == topk_spec(
                            bucket_maps(cbs),
                            bucket_maps(lbs),
                            old(locations).known_cities@,
                            i,
                            WINDOW_SIZE as int,
                            LAST_DAY_SIZE as int,
                            TOP_K as int,
                        )
                        &&& (forall|x: int|
                            0 <= x < res.topkimproved@.len() ==> row_names_active_city(
                                bucket_maps(cbs),
                                old(locations).known_cities@,
                                i,
                                WINDOW_SIZE as int,
                                #[trigger] res.topkimproved@[x],
                            ))
                    }
            },
{
    run_pipeline_with(locations, batches_iter, WINDOW_SIZE, LAST_DAY_SIZE, TOP_K)
}

/// Every measurement of a partitioned bucket is a measurement of the
/// stream, so the buckets inherit its bounds.
pub proof fn lemma_bucket_wf_from_concat(
    bs: Seq<Seq<LocalizedMeasurement>>,
    s: Seq<LocalizedMeasurement>,
    i: int,
)
    requires
        crate::partition::concat_buckets(bs) == s,
        forall|x: int| 0 <= x < s.len() ==> crate::aggregate::lm_wf(#[trigger] s[x]),
        s.len() <= MAX_COUNT,
        0 <= i < bs.len(),
    ensures
        crate::aggregate::bucket_wf(bs[i]),
{
    crate::partition::lemma_concat_mem(bs);
    crate::partition::lemma_concat_len(bs);
    assert forall|j: int| 0 <= j < bs[i].len() implies crate::aggregate::lm_wf(
        #[trigger] bs[i][j],
    ) by {
        assert(crate::partition::bucket_elem_in_concat(bs, i, j));
        let x = choose|x: int|
            0 <= x < crate::partition::concat_buckets(bs).len()
                && #[trigger] crate::partition::concat_buckets(bs)[x] == bs[i][j];
        assert(s[x] == bs[i][j]);
    }
}

} // verus!

verus! {

/// A window map with its zero residue dropped: only cities that hold
/// measurements.
pub open spec fn drop_zero_entries(m: Map<CityId, AggModel>) -> Map<CityId, AggModel> {
    Map::new(|k: CityId| m.dom().contains(k) && m[k].n >= 1, |k: CityId| m[k])
}

/// The cached incremental path equals the cold-start recompute path:
/// a window map carried through add-newest / subtract-oldest steps, once
/// its zero residue is dropped, is exactly the fold of the window's
/// buckets.  This holds at every window, because the window maps always
/// zero-extend the folds and fold entries always count a measurement.
pub proof fn lemma_incremental_matches_recompute(
    m: Map<CityId, AggModel>,
    f: Map<CityId, AggModel>,
)
    requires
        zext(m, f),
        forall|k: CityId| #[trigger] f.dom().contains(k) ==> f[k].n >= 1,
    ensures
        drop_zero_entries(m) == f,
{
    assert forall|k: CityId| #[trigger] drop_zero_entries(m).dom().contains(k) implies f.dom()
        .contains(k) by {
        if !f.dom().contains(k) {
            assert(m[k] == model_zero());
        }
    }
    assert(drop_zero_entries(m) =~= f);
}

} // verus!

verus! {

/// Whether a ranking row names a city of the window's active set.
pub open spec fn row_names_active_city(
    cur: Seq<Map<CityId, AggModel>>,
    names: Seq<String>,
    start: int,
    w: int,
    row: TopKCities,
) -> bool {
    exists|c: CityId|
        #[trigger] active_set(cur, start, w).contains(c) && (c as int) < names.len() && row.city
            == names[c as int]
}

/// Only active cities are ever reported: every row of a window's ranking
/// names a city of the trailing-ten-minutes active set, whatever its
/// improvement.  Together with [`run_query1`]'s ensures, which pin each
/// result's rows to [`topk_spec`], no inactive city can appear in any
/// emitted window.
pub proof fn lemma_topk_only_active_cities(
    cur: Seq<Map<CityId, AggModel>>,
    last: Seq<Map<CityId, AggModel>>,
    names: Seq<String>,
    start: int,
    w: int,
    d: int,
    k: int,
)
    requires
        k >= 0,
        names.len() <= 0x1_0000_0000,
    ensures
        forall|i: int|
            0 <= i < topk_spec(cur, last, names, start, w, d, k).len() ==> row_names_active_city(
                cur,
                names,
                start,
                w,
                #[trigger] topk_spec(cur, last, names, start, w, d, k)[i],
            ),
{
    let f5c = fold_range(cur, start, start + w);
    let f5l = fold_range(last, start, start + w);
    let active = active_set(cur, start, w);
    let cands = candidates_spec(f5c, f5l, active, names.len() as int);
    let sorted = sort_by_improvement(cands);
    lemma_candidates_props(f5c, f5l, active, names.len() as int);
    lemma_sort_mem(cands);
    assert forall|i: int|
        0 <= i < topk_spec(cur, last, names, start, w, d, k).len() implies row_names_active_city(
        cur,
        names,
        start,
        w,
        #[trigger] topk_spec(cur, last, names, start, w, d, k)[i],
    ) by {
        assert(topk_spec(cur, last, names, start, w, d, k)[i] == topk_entry(
            sorted[i],
            fold_range(cur, start + w - d, start + w),
            names,
            i,
        ));
        let f1 = fold_range(cur, start + w - d, start + w);
        assert(topk_spec(cur, last, names, start, w, d, k) == Seq::new(
            (if k < sorted.len() {
                k
            } else {
                sorted.len() as int
            }) as nat,
            |x: int| topk_entry(sorted[x], f1, names, x),
        ));
        assert(i < sorted.len());
        assert(sorted[i] == sort_by_improvement(cands)[i]);
        let x = choose|j: int| 0 <= j < cands.len() && cands[j] == #[trigger] sorted[i];
        assert(0 <= x < cands.len() && cands[x] == sorted[i]);
        assert(cands[x] == candidates_spec(f5c, f5l, active, names.len() as int)[x]);
        let c = sorted[i].1;
        assert(cand_ok(f5c, f5l, active, c));
        assert(active_set(cur, start, w).contains(c));
        assert(topk_spec(cur, last, names, start, w, d, k)[i].city == names[c as int]);
    }
}

} // verus!

verus! {

/// The rounded mean of `n` copies of one value is that value.
pub proof fn lemma_rounded_div_scaled(a: int, n: int)
    requires
        a >= 0,
        n >= 1,
    ensures
        crate::aqi::rounded_div(a * n, n) == a,
        crate::aqi::rounded_div(a, 1) == a,
{
    assert(2 * (a * n) + n == (2 * n) * a + n) by (nonlinear_arith);
    vstd::arithmetic::div_mod::lemma_div_multiples_vanish_fancy(a, n, 2 * n);
    assert(2 * a + 1 == 2 * a + 1);
    vstd::arithmetic::div_mod::lemma_div_multiples_vanish_fancy(a, 1, 2);
}

/// The fold of a run of identical single-city buckets: the city's sums
/// scale with the number of buckets folded.
pub proof fn lemma_fold_const_single(
    ms: Seq<Map<CityId, AggModel>>,
    c: CityId,
    s1: int,
    s2: int,
    from: int,
    to: int,
)
    requires
        0 <= from < to <= ms.len(),
        forall|i: int|
            from <= i < to ==> #[trigger] ms[i] == map![c => (AggModel { s1: s1, s2: s2, n: 1 })],
    ensures
        fold_range(ms, from, to) == map![
            c => (AggModel { s1: s1 * (to - from), s2: s2 * (to - from), n: to - from }),
        ],
    decreases to - from,
{
    if from == to - 1 {
        assert(fold_range(ms, from, to - 1) =~= Map::<CityId, AggModel>::empty());
        assert(s1 * 1 == s1) by (nonlinear_arith);
        assert(s2 * 1 == s2) by (nonlinear_arith);
        assert(fold_range(ms, from, to) =~= map![
            c => (AggModel { s1: s1 * (to - from), s2: s2 * (to - from), n: to - from }),
        ]);
    } else {
        lemma_fold_const_single(ms, c, s1, s2, from, to - 1);
        assert(s1 * (to - 1 - from) + s1 == s1 * (to - from)) by (nonlinear_arith);
        assert(s2 * (to - 1 - from) + s2 == s2 * (to - from)) by (nonlinear_arith);
        assert(fold_range(ms, from, to) =~= map![
            c => (AggModel { s1: s1 * (to - from), s2: s2 * (to - from), n: to - from }),
        ]);
    }
}

/// One city with steady air: when every bucket of the window holds one
/// measurement of the same concentrations — this year `(p1c, p2c)`, the
/// year before `(p1l, p2l)` — and all four means are on the AQI scale,
/// the window reports exactly that city, at position zero, and the
/// emitted improvement is the year-before AQI minus this year's, so
/// cleaner air than a year ago comes out positive.
pub proof fn lemma_steady_single_city_window(
    cur: Seq<Map<CityId, AggModel>>,
    last: Seq<Map<CityId, AggModel>>,
    names: Seq<String>,
    start: int,
    w: int,
    d: int,
    k: int,
    p1c: u32,
    p2c: u32,
    p1l: u32,
    p2l: u32,
)
    requires
        2 <= d <= w,
        1 <= k,
        names.len() == 1,
        0 <= start,
        start + w <= cur.len(),
        start + w <= last.len(),
        forall|i: int|
            start <= i < start + w ==> #[trigger] cur[i] == map![
                0u32 => (AggModel { s1: p1c as int, s2: p2c as int, n: 1 }),
            ],
        forall|i: int|
            start <= i < start + w ==> #[trigger] last[i] == map![
                0u32 => (AggModel { s1: p1l as int, s2: p2l as int, n: 1 }),
            ],
        crate::aqi::pm10_whole(p1c as int) <= 604,
        crate::aqi::pm25_tenths(p2c as int) <= 5004,
        crate::aqi::pm10_whole(p1l as int) <= 604,
        crate::aqi::pm25_tenths(p2l as int) <= 5004,
    ensures
        topk_spec(cur, last, names, start, w, d, k).len() == 1,
        topk_spec(cur, last, names, start, w, d, k)[0].position == 0,
        topk_spec(cur, last, names, start, w, d, k)[0].city == names[0],
        topk_spec(cur, last, names, start, w, d, k)[0].average_aqi_improvement == agg_aqi_debs(
            (AggModel { s1: p1l as int, s2: p2l as int, n: 1 }),
        ) - agg_aqi_debs((AggModel { s1: p1c as int, s2: p2c as int, n: 1 })),
        agg_aqi_debs((AggModel { s1: p1c as int, s2: p2c as int, n: 1 })) < agg_aqi_debs(
            (AggModel { s1: p1l as int, s2: p2l as int, n: 1 }),
        ) ==> topk_spec(cur, last, names, start, w, d, k)[0].average_aqi_improvement > 0,
{
    let unit_c = AggModel { s1: p1c as int, s2: p2c as int, n: 1 };
    let unit_l = AggModel { s1: p1l as int, s2: p2l as int, n: 1 };
    let f5c = fold_range(cur, start, start + w);
    let f5l = fold_range(last, start, start + w);
    let f1 = fold_range(cur, start + w - d, start + w);
    lemma_fold_const_single(cur, 0u32, p1c as int, p2c as int, start, start + w);
    lemma_fold_const_single(last, 0u32, p1l as int, p2l as int, start, start + w);
    lemma_fold_const_single(cur, 0u32, p1c as int, p2c as int, start + w - d, start + w);
    // the mean of identical measurements is the measurement, so every
    // window aggregate carries the same AQI as one measurement
    lemma_rounded_div_scaled(p1c as int, w);
    lemma_rounded_div_scaled(p2c as int, w);
    lemma_rounded_div_scaled(p1l as int, w);
    lemma_rounded_div_scaled(p2l as int, w);
    lemma_rounded_div_scaled(p1c as int, d);
    lemma_rounded_div_scaled(p2c as int, d);
    assert(agg_avg1(f5c[0u32]) == p1c as int);
    assert(agg_avg2(f5c[0u32]) == p2c as int);
    assert(agg_avg1(f5l[0u32]) == p1l as int);
    assert(agg_avg2(f5l[0u32]) == p2l as int);
    assert(agg_avg1(f1[0u32]) == p1c as int);
    assert(agg_avg2(f1[0u32]) == p2c as int);
    assert(agg_avg1(unit_c) == p1c as int);
    assert(agg_avg2(unit_c) == p2c as int);
    assert(agg_avg1(unit_l) == p1l as int);
    assert(agg_avg2(unit_l) == p2l as int);
    let debs_c = agg_aqi_debs(unit_c);
    let debs_l = agg_aqi_debs(unit_l);
    assert(agg_aqi_debs(f5c[0u32]) == debs_c);
    assert(agg_aqi_debs(f5l[0u32]) == debs_l);
    // the city is active: it has data in the last two buckets
    let active = active_set(cur, start, w);
    assert(cur[start + w - 2].dom().contains(0u32));
    assert(active.contains(0u32));
    assert(cand_ok(f5c, f5l, active, 0u32));
    // the improvement fits the wire type exactly
    crate::aqi::lemma_pm10_in_scale(p1c as int);
    crate::aqi::lemma_pm25_in_scale(p2c as int);
    crate::aqi::lemma_pm10_in_scale(p1l as int);
    crate::aqi::lemma_pm25_in_scale(p2l as int);
    crate::aqi::lemma_asdebs_bounds(crate::aqi::pm10_value(p1c as int));
    crate::aqi::lemma_asdebs_bounds(crate::aqi::pm25_value(p2c as int));
    crate::aqi::lemma_asdebs_bounds(crate::aqi::pm10_value(p1l as int));
    crate::aqi::lemma_asdebs_bounds(crate::aqi::pm25_value(p2l as int));
    assert(-500_000 <= improvement_of(f5c, f5l, 0u32) <= 500_000);
    // the one candidate, already in order
    let cands = candidates_spec(f5c, f5l, active, 1);
    assert(candidates_spec(f5c, f5l, active, 0) =~= Seq::<(i32, CityId)>::empty());
    assert(cands =~= seq![(improvement_of(f5c, f5l, 0u32) as i32, 0u32)]);
    let sorted = sort_by_improvement(cands);
    assert(cands.drop_last() =~= Seq::<(i32, CityId)>::empty());
    assert(sort_by_improvement(cands.drop_last()) =~= Seq::<(i32, CityId)>::empty());
    assert(sorted =~= seq![(improvement_of(f5c, f5l, 0u32) as i32, 0u32)]);
    let rows = topk_spec(cur, last, names, start, w, d, k);
    assert(rows.len() == 1);
    assert(rows[0] == topk_entry(sorted[0], f1, names, 0));
}

} // verus!
