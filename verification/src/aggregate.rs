//! Particle aggregates and per-bucket pre-aggregation.
//!
//! A [`ParticleAggregate`] carries running sums of the two particle
//! concentrations (in milli units, thousandths of a microgram per cubic
//! metre) together with the number of measurements added, so the mean of
//! each particle class can be recovered exactly.  Aggregates form a
//! commutative monoid under [`ParticleAggregate::plus`]; subtracting an
//! aggregate that was previously added gives the original back, which is
//! what the sliding windows rely on.
//!
//! The city map is a vector of unique-key entries rather than a hash
//! map, and the active-city set a vector viewed as a set: their contents
//! are what the contracts speak of, and hashed containers offer no
//! specification to prove those contents against.
use crate::CityId;
use crate::aqi::rounded_div;
use vstd::prelude::*;

verus! {

/// Largest concentration, in milli units, that the core carries
/// (two million micrograms per cubic metre; far above every breakpoint).
pub const MAX_MILLI: u32 = 2_000_000_000;

/// Largest number of measurements a single aggregate may hold.  Together
/// with [`MAX_MILLI`] this keeps every 64-bit sum below overflow.
pub const MAX_COUNT: u64 = 0x1_0000_0000;

/// Contains the information of a measurement, but with city id and batch
/// sequence id instead of coordinates, and concentrations in milli units.
#[derive(Debug, Copy, Clone)]
pub struct LocalizedMeasurement {
    /// The sequence number of the source batch.
    pub batch_seq_id: i64,
    /// The city the measurement fell in; an index into the interned city
    /// table of the catalog that localized it.
    pub cityid: CityId,
    /// The timestamp of the measurement, in whole seconds.
    pub timestamp_seconds: i64,
    /// Particles < 10 µm (PM10), in milli units.
    pub p1: u32,
    /// Particles < 2.5 µm (PM2.5), in milli units.
    pub p2: u32,
}

/// A measurement the core accepts: concentrations within range.
pub open spec fn lm_wf(m: LocalizedMeasurement) -> bool {
    &&& m.p1 <= MAX_MILLI
    &&& m.p2 <= MAX_MILLI
}

/// The mathematical value of an aggregate: two exact sums and a count.
pub ghost struct AggModel {
    /// Sum of all PM10 values added, in milli units.
    pub s1: int,
    /// Sum of all PM2.5 values added, in milli units.
    pub s2: int,
    /// Number of measurements added.
    pub n: int,
}

/// The all-zero aggregate value.
pub open spec fn model_zero() -> AggModel {
    AggModel { s1: 0, s2: 0, n: 0 }
}

/// A model within the bounds the executable representation can hold.
pub open spec fn model_wf(x: AggModel) -> bool {
    &&& 0 <= x.n <= MAX_COUNT
    &&& 0 <= x.s1 <= x.n * MAX_MILLI
    &&& 0 <= x.s2 <= x.n * MAX_MILLI
}

/// Sum of two aggregate values.
pub open spec fn model_plus(x: AggModel, y: AggModel) -> AggModel {
    AggModel { s1: x.s1 + y.s1, s2: x.s2 + y.s2, n: x.n + y.n }
}

/// Difference of two aggregate values.  When the counts cancel the result
/// is the zero aggregate: the sums are reset rather than subtracted, so
/// no residue is carried around.
pub open spec fn model_minus(x: AggModel, y: AggModel) -> AggModel {
    if x.n == y.n {
        model_zero()
    } else {
        AggModel { s1: x.s1 - y.s1, s2: x.s2 - y.s2, n: x.n - y.n }
    }
}

/// One measurement pair folded into an aggregate value.
pub open spec fn model_add_pair(x: AggModel, val: (u32, u32)) -> AggModel {
    AggModel { s1: x.s1 + val.0, s2: x.s2 + val.1, n: x.n + 1 }
}

/// The aggregate value of a sequence of measurement pairs.
pub open spec fn fold_pairs(s: Seq<(u32, u32)>) -> AggModel
    decreases s.len(),
{
    if s.len() == 0 {
        model_zero()
    } else {
        model_add_pair(fold_pairs(s.drop_last()), s.last())
    }
}

/// The sum of a sequence of aggregate values.
pub open spec fn fold_aggs(s: Seq<AggModel>) -> AggModel
    decreases s.len(),
{
    if s.len() == 0 {
        model_zero()
    } else {
        model_plus(fold_aggs(s.drop_last()), s.last())
    }
}

/// ParticleAggregate is used to aggregate multiple measurements and
/// calculate the mean p1/p2.  Sums are stored exactly in milli units.
#[derive(Debug, Copy, Clone, PartialEq, Eq, Structural)]
pub struct ParticleAggregate {
    /// The sum of all p1 values added to this aggregate, in milli units.
    pub sum_p1: u64,
    /// The sum of all p2 values added to this aggregate, in milli units.
    pub sum_p2: u64,
    /// The count of all p1 and p2 values added to this aggregate.
    pub denom: u64,
}

impl View for ParticleAggregate {
    type V = AggModel;

    open spec fn view(&self) -> AggModel {
        AggModel { s1: self.sum_p1 as int, s2: self.sum_p2 as int, n: self.denom as int }
    }
}

/// A well-formed aggregate: its value is within the model bounds.
pub open spec fn agg_wf(a: ParticleAggregate) -> bool {
    model_wf(a@)
}

impl ParticleAggregate {
    /// The all-zero aggregate.
    pub fn zero() -> (r: Self)
        ensures
            r@ == model_zero(),
            agg_wf(r),
    {
        ParticleAggregate { sum_p1: 0, sum_p2: 0, denom: 0 }
    }

    /// Creates a new aggregate based on a single measurement.
    pub fn new(init: (u32, u32)) -> (r: Self)
        requires
            init.0 <= MAX_MILLI,
            init.1 <= MAX_MILLI,
        ensures
            r@ == model_add_pair(model_zero(), init),
            agg_wf(r),
    {
        ParticleAggregate { sum_p1: init.0 as u64, sum_p2: init.1 as u64, denom: 1 }
    }

    /// Adds a single measurement to the aggregate.
    pub fn add(&mut self, val: (u32, u32))
        requires
            agg_wf(*old(self)),
            val.0 <= MAX_MILLI,
            val.1 <= MAX_MILLI,
            old(self).denom < MAX_COUNT,
        ensures
            final(self)@ == model_add_pair(old(self)@, val),
            agg_wf(*final(self)),
    {
        proof {
            lemma_sum_step(self.denom as int, self.sum_p1 as int, val.0 as int);
            lemma_sum_step(self.denom as int, self.sum_p2 as int, val.1 as int);
        }
        self.sum_p1 = self.sum_p1 + (val.0 as u64);
        self.sum_p2 = self.sum_p2 + (val.1 as u64);
        self.denom = self.denom + 1;
    }

    /// The sum of this aggregate and another, as the `+` of the stream
    /// algebra.
    pub fn plus(self, rhs: Self) -> (r: Self)
        requires
            agg_wf(self),
            agg_wf(rhs),
            self.denom + rhs.denom <= MAX_COUNT,
        ensures
            r@ == model_plus(self@, rhs@),
            agg_wf(r),
    {
        proof {
            lemma_sum_merge(self.denom as int, self.sum_p1 as int, rhs.denom as int,
                rhs.sum_p1 as int);
            lemma_sum_merge(self.denom as int, self.sum_p2 as int, rhs.denom as int,
                rhs.sum_p2 as int);
        }
        ParticleAggregate {
            sum_p1: self.sum_p1 + rhs.sum_p1,
            sum_p2: self.sum_p2 + rhs.sum_p2,
            denom: self.denom + rhs.denom,
        }
    }

    /// Adds another aggregate in place.
    pub fn add_assign(&mut self, rhs: Self)
        requires
            agg_wf(*old(self)),
            agg_wf(rhs),
            old(self).denom + rhs.denom <= MAX_COUNT,
        ensures
            final(self)@ == model_plus(old(self)@, rhs@),
            agg_wf(*final(self)),
    {
        let r = self.plus(rhs);
        *self = r;
    }

    /// The difference of this aggregate and one previously added into it.
    /// When every measurement is removed the result is the zero aggregate.
    pub fn sub(self, rhs: Self) -> (r: Self)
        requires
            rhs.denom <= self.denom,
            rhs.sum_p1 <= self.sum_p1,
            rhs.sum_p2 <= self.sum_p2,
        ensures
            r@ == model_minus(self@, rhs@),
    {
        let new_denom = self.denom - rhs.denom;
        if new_denom == 0 {
            // when no values are left, use all-zeroes instead of
            // subtracting, to drop any residue at once
            ParticleAggregate { sum_p1: 0, sum_p2: 0, denom: 0 }
        } else {
            ParticleAggregate {
                sum_p1: self.sum_p1 - rhs.sum_p1,
                sum_p2: self.sum_p2 - rhs.sum_p2,
                denom: new_denom,
            }
        }
    }

    /// Subtracts a previously added aggregate in place.
    pub fn sub_assign(&mut self, rhs: Self)
        requires
            rhs.denom <= old(self).denom,
            rhs.sum_p1 <= old(self).sum_p1,
            rhs.sum_p2 <= old(self).sum_p2,
        ensures
            final(self)@ == model_minus(old(self)@, rhs@),
    {
        let r = self.sub(rhs);
        *self = r;
    }

    /// Calculates the final (mean) p1 value of the aggregate, in milli
    /// units, rounded to the nearest (halves up).
    pub fn p1(&self) -> (r: u32)
        requires
            agg_wf(*self),
            self.denom >= 1,
        ensures
            r == rounded_div(self@.s1, self@.n),
    {
        proof {
            crate::aqi::lemma_rounded_div_le(self.sum_p1 as int, self.denom as int,
                MAX_MILLI as int);
        }
        let q: u64 = (2 * self.sum_p1 + self.denom) / (2 * self.denom);
        q as u32
    }

    /// Calculates the final (mean) p2 value of the aggregate, in milli
    /// units, rounded to the nearest (halves up).
    pub fn p2(&self) -> (r: u32)
        requires
            agg_wf(*self),
            self.denom >= 1,
        ensures
            r == rounded_div(self@.s2, self@.n),
    {
        proof {
            crate::aqi::lemma_rounded_div_le(self.sum_p2 as int, self.denom as int,
                MAX_MILLI as int);
        }
        let q: u64 = (2 * self.sum_p2 + self.denom) / (2 * self.denom);
        q as u32
    }

    /// Folds a sequence of measurement pairs into one aggregate.
    pub fn from_pairs(v: &Vec<(u32, u32)>) -> (r: Self)
        requires
            forall|i: int| 0 <= i < v@.len() ==> (#[trigger] v@[i]).0 <= MAX_MILLI && v@[i].1
                <= MAX_MILLI,
            v@.len() <= MAX_COUNT,
        ensures
            r@ == fold_pairs(v@),
            agg_wf(r),
    {
        let mut acc = Self::zero();
        let mut i: usize = 0;
        while i < v.len()
            invariant
                i <= v@.len(),
                v@.len() <= MAX_COUNT,
                forall|j: int| 0 <= j < v@.len() ==> (#[trigger] v@[j]).0 <= MAX_MILLI
                    && v@[j].1 <= MAX_MILLI,
                acc@ == fold_pairs(v@.take(i as int)),
                acc@.n == i,
                agg_wf(acc),
            decreases v@.len() - i,
        {
            proof {
                assert(v@.take(i + 1).drop_last() =~= v@.take(i as int));
            }
            acc.add(v[i]);
            i += 1;
        }
        proof {
            assert(v@.take(v@.len() as int) =~= v@);
        }
        acc
    }

    /// Folds a sequence of aggregates into their sum.
    pub fn from_aggregates(v: &Vec<ParticleAggregate>) -> (r: Self)
        requires
            forall|i: int| 0 <= i < v@.len() ==> agg_wf(#[trigger] v@[i]),
            fold_aggs(v@.map_values(|a: ParticleAggregate| a@)).n <= MAX_COUNT,
        ensures
            r@ == fold_aggs(v@.map_values(|a: ParticleAggregate| a@)),
            agg_wf(r),
    {
        let ghost models = v@.map_values(|a: ParticleAggregate| a@);
        let mut acc = Self::zero();
        let mut i: usize = 0;
        while i < v.len()
            invariant
                i <= v@.len(),
                models == v@.map_values(|a: ParticleAggregate| a@),
                forall|j: int| 0 <= j < v@.len() ==> agg_wf(#[trigger] v@[j]),
                fold_aggs(models).n <= MAX_COUNT,
                acc@ == fold_aggs(models.take(i as int)),
                agg_wf(acc),
            decreases v@.len() - i,
        {
            proof {
                assert(models.take(i + 1).drop_last() =~= models.take(i as int));
                assert(models.take(i + 1).last() == v@[i as int]@);
                lemma_fold_aggs_prefix_le(models, i + 1);
                lemma_fold_aggs_nonneg(models.take(i as int));
            }
            acc.add_assign(v[i]);
            i += 1;
        }
        proof {
            assert(models.take(models.len() as int) =~= models);
        }
        acc
    }
}

/// Adding one in-range value to a well-formed sum keeps it within bounds.
proof fn lemma_sum_step(n: int, s: int, v: int)
    requires
        0 <= n < MAX_COUNT,
        0 <= s <= n * MAX_MILLI,
        0 <= v <= MAX_MILLI,
    ensures
        s + v <= (n + 1) * MAX_MILLI,
        (n + 1) * MAX_MILLI <= MAX_COUNT * MAX_MILLI,
    decreases 0int,
{
    assert((n + 1) * MAX_MILLI == n * MAX_MILLI + MAX_MILLI) by (nonlinear_arith);
    assert((n + 1) * MAX_MILLI <= MAX_COUNT * MAX_MILLI) by (nonlinear_arith)
        requires
            n + 1 <= MAX_COUNT,
    ;
}

/// Merging two well-formed sums keeps the total within bounds.
proof fn lemma_sum_merge(n1: int, s1: int, n2: int, s2: int)
    requires
        0 <= n1,
        0 <= n2,
        n1 + n2 <= MAX_COUNT,
        0 <= s1 <= n1 * MAX_MILLI,
        0 <= s2 <= n2 * MAX_MILLI,
    ensures
        s1 + s2 <= (n1 + n2) * MAX_MILLI,
        (n1 + n2) * MAX_MILLI <= MAX_COUNT * MAX_MILLI,
{
    assert((n1 + n2) * MAX_MILLI == n1 * MAX_MILLI + n2 * MAX_MILLI) by (nonlinear_arith);
    assert((n1 + n2) * MAX_MILLI <= MAX_COUNT * MAX_MILLI) by (nonlinear_arith)
        requires
            n1 + n2 <= MAX_COUNT,
    ;
}

/// Counts and sums of a fold of aggregate values are sums of the parts,
/// so they are never negative.
pub proof fn lemma_fold_aggs_nonneg(s: Seq<AggModel>)
    requires
        forall|i: int| 0 <= i < s.len() ==> model_wf(#[trigger] s[i]),
    ensures
        fold_aggs(s).n >= 0,
        fold_aggs(s).s1 >= 0,
        fold_aggs(s).s2 >= 0,
        fold_aggs(s).s1 <= fold_aggs(s).n * MAX_MILLI,
        fold_aggs(s).s2 <= fold_aggs(s).n * MAX_MILLI,
    decreases s.len(),
{
    if s.len() > 0 {
        lemma_fold_aggs_nonneg(s.drop_last());
        let x = fold_aggs(s.drop_last());
        let y = s.last();
        assert((x.n + y.n) * MAX_MILLI == x.n * MAX_MILLI + y.n * MAX_MILLI)
            by (nonlinear_arith);
    }
}

/// The count of a fold over a prefix never exceeds the count of the fold
/// over the whole sequence.
pub proof fn lemma_fold_aggs_prefix_le(s: Seq<AggModel>, i: int)
    requires
        forall|j: int| 0 <= j < s.len() ==> model_wf(#[trigger] s[j]),
        0 <= i <= s.len(),
    ensures
        fold_aggs(s.take(i)).n <= fold_aggs(s).n,
    decreases s.len() - i,
{
    if i < s.len() {
        lemma_fold_aggs_prefix_le(s, i + 1);
        assert(s.take(i + 1).drop_last() =~= s.take(i));
        assert(s.take(i + 1).last() == s[i]);
    } else {
        assert(s.take(i) =~= s);
    }
}

/// Folding a concatenation is the sum of folding the parts: for any split
/// `S = A ++ B` of a sequence of measurement pairs,
/// `fold(A) + fold(B) == fold(S)`, exactly.
pub proof fn lemma_fold_pairs_split(a: Seq<(u32, u32)>, b: Seq<(u32, u32)>)
    ensures
        fold_pairs(a + b) == model_plus(fold_pairs(a), fold_pairs(b)),
    decreases b.len(),
{
    if b.len() == 0 {
        assert(a + b =~= a);
    } else {
        assert((a + b).drop_last() =~= a + b.drop_last());
        lemma_fold_pairs_split(a, b.drop_last());
    }
}

/// Adding an aggregate and then subtracting it gives the original back:
/// `(X + Y) - Y == X` whenever `X` is a possible aggregate value (in
/// particular, a count of zero means the zero aggregate).
pub proof fn lemma_plus_minus(x: AggModel, y: AggModel)
    requires
        x.n >= 0,
        y.n >= 0,
        x.n == 0 ==> x == model_zero(),
    ensures
        model_minus(model_plus(x, y), y) == x,
{
}

/// The same law over the executable aggregates: subtracting `y` from
/// `x + y` restores `x` exactly — count and both sums — and when `x`
/// held nothing, the result is exactly the zero aggregate `x` already
/// was.  The sums come back exactly, not merely up to rounding, because
/// they are integers.
pub proof fn lemma_plus_minus_aggregates(x: ParticleAggregate, y: ParticleAggregate)
    requires
        agg_wf(x),
        agg_wf(y),
    ensures
        model_minus(model_plus(x@, y@), y@) == x@,
        x.denom == 0 ==> x@ == model_zero(),
{
    lemma_plus_minus(x@, y@);
}

} // verus!

verus! {

/// No city id occurs twice among the entries.
pub open spec fn keys_unique(s: Seq<(CityId, ParticleAggregate)>) -> bool {
    forall|i: int, j: int| 0 <= i < j < s.len() ==> (#[trigger] s[i]).0 != (#[trigger] s[j]).0
}

/// The mathematical map an entry sequence stands for.
pub open spec fn map_of(s: Seq<(CityId, ParticleAggregate)>) -> Map<CityId, AggModel>
    decreases s.len(),
{
    if s.len() == 0 {
        Map::empty()
    } else {
        map_of(s.drop_last()).insert(s.last().0, s.last().1@)
    }
}

/// With unique keys, the map of an entry sequence has exactly the entry
/// keys as domain and the entry values as values.
pub proof fn lemma_map_of_props(s: Seq<(CityId, ParticleAggregate)>)
    requires
        keys_unique(s),
    ensures
        forall|k: CityId| #[trigger]
            map_of(s).dom().contains(k) ==> exists|i: int|
                0 <= i < s.len() && (#[trigger] s[i]).0 == k,
        forall|i: int|
            0 <= i < s.len() ==> map_of(s).dom().contains((#[trigger] s[i]).0) && map_of(s)[s[i].0]
                == s[i].1@,
    decreases s.len(),
{
    if s.len() > 0 {
        let t = s.drop_last();
        assert(forall|i: int| 0 <= i < t.len() ==> t[i] == s[i]);
        lemma_map_of_props(t);
        assert forall|i: int| 0 <= i < s.len() implies map_of(s).dom().contains(
            (#[trigger] s[i]).0,
        ) && map_of(s)[s[i].0] == s[i].1@ by {
            if i < s.len() - 1 {
                assert(t[i] == s[i]);
                assert(s[i].0 != s.last().0);
            }
        }
        assert forall|k: CityId| #[trigger] map_of(s).dom().contains(k) implies exists|i: int|
            0 <= i < s.len() && (#[trigger] s[i]).0 == k by {
            if k == s.last().0 {
                assert(s[s.len() - 1].0 == k);
            } else {
                assert(map_of(t).dom().contains(k));
                let i = choose|i: int| 0 <= i < t.len() && (#[trigger] t[i]).0 == k;
                assert(s[i].0 == k);
            }
        }
    }
}

/// Replacing the aggregate of one entry updates the map at that key.
pub proof fn lemma_map_of_update(
    s: Seq<(CityId, ParticleAggregate)>,
    i: int,
    v2: ParticleAggregate,
)
    requires
        keys_unique(s),
        0 <= i < s.len(),
    ensures
        map_of(s.update(i, (s[i].0, v2))) == map_of(s).insert(s[i].0, v2@),
    decreases s.len(),
{
    let k = s[i].0;
    let s2 = s.update(i, (k, v2));
    if i == s.len() - 1 {
        assert(s2.drop_last() =~= s.drop_last());
        assert(map_of(s2) =~= map_of(s).insert(k, v2@));
    } else {
        assert(s2.drop_last() =~= s.drop_last().update(i, (k, v2)));
        assert(forall|j: int| 0 <= j < s.len() - 1 ==> s.drop_last()[j] == s[j]);
        lemma_map_of_update(s.drop_last(), i, v2);
        assert(k != s.last().0);
        assert(map_of(s2) =~= map_of(s).insert(k, v2@));
    }
}

/// Appending an entry inserts its key into the map.
pub proof fn lemma_map_of_push(s: Seq<(CityId, ParticleAggregate)>, e: (CityId, ParticleAggregate))
    ensures
        map_of(s.push(e)) == map_of(s).insert(e.0, e.1@),
{
    assert(s.push(e).drop_last() =~= s);
    assert(s.push(e).last() == e);
}

/// A map, mapping each city id to the corresponding particle aggregate.
/// Entries are held in insertion order; keys are unique.
#[derive(Debug, Clone)]
pub struct CityParticleMap {
    /// The entries, in insertion order, with pairwise distinct keys.
    pub entries: Vec<(CityId, ParticleAggregate)>,
}

impl View for CityParticleMap {
    type V = Map<CityId, AggModel>;

    open spec fn view(&self) -> Map<CityId, AggModel> {
        map_of(self.entries@)
    }
}

/// A well-formed map: unique keys and aggregates within bounds.
pub open spec fn cmap_wf(m: CityParticleMap) -> bool {
    &&& keys_unique(m.entries@)
    &&& forall|i: int| 0 <= i < m.entries@.len() ==> model_wf((#[trigger] m.entries@[i]).1@)
}

impl CityParticleMap {
    /// The empty map.
    pub fn new() -> (r: Self)
        ensures
            r@ == Map::<CityId, AggModel>::empty(),
            r.entries@.len() == 0,
            cmap_wf(r),
    {
        CityParticleMap { entries: Vec::new() }
    }

    /// An exact copy, entry for entry.
    pub fn copy_map(&self) -> (r: Self)
        ensures
            r.entries@ == self.entries@,
            r@ == self@,
    {
        let mut entries: Vec<(CityId, ParticleAggregate)> = Vec::new();
        let mut i: usize = 0;
        while i < self.entries.len()
            invariant
                i <= self.entries@.len(),
                entries@ == self.entries@.take(i as int),
            decreases self.entries@.len() - i,
        {
            entries.push(self.entries[i]);
            proof {
                assert(entries@ =~= self.entries@.take(i + 1));
            }
            i += 1;
        }
        proof {
            assert(self.entries@.take(self.entries@.len() as int) =~= self.entries@);
        }
        CityParticleMap { entries }
    }

    /// Index of the entry that holds `k`, which must be present.
    fn index_of(&self, k: CityId) -> (r: usize)
        requires
            keys_unique(self.entries@),
            self@.dom().contains(k),
        ensures
            r < self.entries@.len(),
            self.entries@[r as int].0 == k,
    {
        proof {
            lemma_map_of_props(self.entries@);
        }
        let mut i: usize = 0;
        while i < self.entries.len()
            invariant
                i <= self.entries@.len(),
                forall|j: int| 0 <= j < i ==> (#[trigger] self.entries@[j]).0 != k,
            decreases self.entries@.len() - i,
        {
            if self.entries[i].0 == k {
                return i;
            }
            i += 1;
        }
        proof {
            assert(false);
        }
        0
    }

    /// Looks a city up; `Some` exactly when the city has an entry.
    pub fn get(&self, k: CityId) -> (r: Option<ParticleAggregate>)
        requires
            keys_unique(self.entries@),
        ensures
            (r is Some) <==> self@.dom().contains(k),
            r is Some ==> (r->Some_0)@ == self@[k],
    {
        proof {
            lemma_map_of_props(self.entries@);
        }
        let mut i: usize = 0;
        while i < self.entries.len()
            invariant
                i <= self.entries@.len(),
                keys_unique(self.entries@),
                forall|j: int| 0 <= j < i ==> (#[trigger] self.entries@[j]).0 != k,
            decreases self.entries@.len() - i,
        {
            if self.entries[i].0 == k {
                proof {
                    lemma_map_of_props(self.entries@);
                }
                return Some(self.entries[i].1);
            }
            i += 1;
        }
        proof {
            lemma_map_of_props(self.entries@);
            if self@.dom().contains(k) {
                assert(false);
            }
        }
        None
    }

    /// Number of entries.
    pub fn len(&self) -> (r: usize)
        ensures
            r == self.entries@.len(),
    {
        self.entries.len()
    }

    /// Folds one measurement into the city's aggregate, creating the entry
    /// when the city is new.
    pub fn add_measurement(&mut self, k: CityId, val: (u32, u32))
        requires
            cmap_wf(*old(self)),
            val.0 <= MAX_MILLI,
            val.1 <= MAX_MILLI,
            old(self)@.dom().contains(k) ==> old(self)@[k].n < MAX_COUNT,
        ensures
            final(self)@ == map_step(old(self)@, k, val),
            cmap_wf(*final(self)),
    {
        proof {
            lemma_map_of_props(self.entries@);
        }
        let ghost s0 = self.entries@;
        let mut i: usize = 0;
        while i < self.entries.len()
            invariant
                i <= self.entries@.len(),
                self.entries@ == s0,
                old(self).entries@ == s0,
                cmap_wf(*self),
                val.0 <= MAX_MILLI,
                val.1 <= MAX_MILLI,
                map_of(s0).dom().contains(k) ==> map_of(s0)[k].n < MAX_COUNT,
                forall|j: int| 0 <= j < i ==> (#[trigger] self.entries@[j]).0 != k,
            decreases self.entries@.len() - i,
        {
            if self.entries[i].0 == k {
                proof {
                    lemma_map_of_props(s0);
                    assert(map_of(s0)[k] == s0[i as int].1@);
                }
                let mut pair = self.entries[i];
                pair.1.add(val);
                self.entries.set(i, pair);
                proof {
                    lemma_map_of_update(s0, i as int, pair.1);
                    assert(pair == (s0[i as int].0, pair.1));
                    assert(self.entries@ =~= s0.update(i as int, (s0[i as int].0, pair.1)));
                }
                return ;
            }
            i += 1;
        }
        proof {
            lemma_map_of_props(s0);
            if self@.dom().contains(k) {
                assert(false);
            }
        }
        let agg = ParticleAggregate::new(val);
        self.entries.push((k, agg));
        proof {
            lemma_map_of_push(s0, (k, agg));
        }
    }
}

/// The map after folding one measurement of city `k` into `m`.
pub open spec fn map_step(m: Map<CityId, AggModel>, k: CityId, val: (u32, u32)) -> Map<
    CityId,
    AggModel,
> {
    if m.dom().contains(k) {
        m.insert(k, model_add_pair(m[k], val))
    } else {
        m.insert(k, model_add_pair(model_zero(), val))
    }
}

} // verus!

verus! {

/// Pointwise sum of two city maps: keys of either, overlapping entries
/// added.
pub open spec fn map_merge(m1: Map<CityId, AggModel>, m2: Map<CityId, AggModel>) -> Map<
    CityId,
    AggModel,
> {
    Map::new(
        |k: CityId| m1.dom().contains(k) || m2.dom().contains(k),
        |k: CityId|
            if m1.dom().contains(k) && m2.dom().contains(k) {
                model_plus(m1[k], m2[k])
            } else if m2.dom().contains(k) {
                m2[k]
            } else {
                m1[k]
            },
    )
}

/// Pointwise difference of two city maps: keys of the first are kept; a
/// key whose count cancels keeps a zero entry.
pub open spec fn map_minus(m1: Map<CityId, AggModel>, m2: Map<CityId, AggModel>) -> Map<
    CityId,
    AggModel,
> {
    Map::new(
        |k: CityId| m1.dom().contains(k),
        |k: CityId|
            if m2.dom().contains(k) {
                model_minus(m1[k], m2[k])
            } else {
                m1[k]
            },
    )
}

impl CityParticleMap {
    /// Index of the entry holding `k`, when there is one.
    fn find(&self, k: CityId) -> (r: Option<usize>)
        requires
            keys_unique(self.entries@),
        ensures
            (r is Some) <==> self@.dom().contains(k),
            r is Some ==> (r->Some_0) < self.entries@.len() && self.entries@[r->Some_0 as int].0
                == k,
    {
        proof {
            lemma_map_of_props(self.entries@);
        }
        let mut i: usize = 0;
        while i < self.entries.len()
            invariant
                i <= self.entries@.len(),
                keys_unique(self.entries@),
                forall|j: int| 0 <= j < i ==> (#[trigger] self.entries@[j]).0 != k,
            decreases self.entries@.len() - i,
        {
            if self.entries[i].0 == k {
                proof {
                    lemma_map_of_props(self.entries@);
                }
                return Some(i);
            }
            i += 1;
        }
        proof {
            lemma_map_of_props(self.entries@);
            if self@.dom().contains(k) {
                assert(false);
            }
        }
        None
    }
}

/// Calculates `a[k] += b[k]` for every key `k` of `b`, creating entries
/// for keys new to `a`.
pub fn map_add(a: &mut CityParticleMap, b: &CityParticleMap)
    requires
        cmap_wf(*old(a)),
        cmap_wf(*b),
        forall|k: CityId|
            old(a)@.dom().contains(k) && #[trigger] b@.dom().contains(k) ==> old(a)@[k].n
                + b@[k].n <= MAX_COUNT,
    ensures
        final(a)@ == map_merge(old(a)@, b@),
        cmap_wf(*final(a)),
{
    let ghost m0 = a@;
    proof {
        lemma_map_of_props(b.entries@);
    }
    let mut i: usize = 0;
    while i < b.entries.len()
        invariant
            i <= b.entries@.len(),
            cmap_wf(*a),
            cmap_wf(*b),
            old(a)@ == m0,
            forall|k: CityId|
                m0.dom().contains(k) && #[trigger] b@.dom().contains(k) ==> m0[k].n + b@[k].n
                    <= MAX_COUNT,
            a@ == map_merge(m0, map_of(b.entries@.take(i as int))),
        decreases b.entries@.len() - i,
    {
        let ghost pref = b.entries@.take(i as int);
        let ghost mcur = a@;
        let pair_b = b.entries[i];
        let k = pair_b.0;
        let v = pair_b.1;
        proof {
            lemma_map_of_props(b.entries@);
            assert(b@[k] == v@);
            assert(forall|j: int| 0 <= j < i ==> pref[j] == b.entries@[j]);
            lemma_map_of_props(pref);
            if map_of(pref).dom().contains(k) {
                assert(false);
            }
            assert(b.entries@.take(i + 1).drop_last() =~= pref);
            lemma_map_of_push(pref, pair_b);
            assert(b.entries@.take(i + 1) =~= pref.push(pair_b));
        }
        match a.find(k) {
            Some(idx) => {
                proof {
                    lemma_map_of_props(a.entries@);
                    assert(a@[k] == a.entries@[idx as int].1@);
                    assert(a@[k] == m0[k]);
                }
                let mut pair = a.entries[idx];
                pair.1.add_assign(v);
                let ghost s_before = a.entries@;
                a.entries.set(idx, pair);
                proof {
                    lemma_map_of_update(s_before, idx as int, pair.1);
                    assert(pair == (s_before[idx as int].0, pair.1));
                    assert(a.entries@ =~= s_before.update(idx as int, (s_before[idx as int].0, pair.1)));
                    assert(a@ =~= map_merge(m0, map_of(b.entries@.take(i + 1))));
                }
            },
            None => {
                proof {
                    lemma_map_of_props(a.entries@);
                }
                let ghost s_before = a.entries@;
                a.entries.push((k, v));
                proof {
                    assert(forall|j: int| 0 <= j < s_before.len() ==> (#[trigger] s_before[j]).0 != k);
                    lemma_map_of_push(s_before, (k, v));
                    assert(a@ =~= map_merge(m0, map_of(b.entries@.take(i + 1))));
                }
            },
        }
        i += 1;
    }
    proof {
        assert(b.entries@.take(b.entries@.len() as int) =~= b.entries@);
    }
}

/// Calculates `a[k] -= b[k]` for every key `k` of `b`; every such key must
/// have been added to `a` before, with at least as much as is removed.
pub fn map_sub(a: &mut CityParticleMap, b: &CityParticleMap)
    requires
        keys_unique(old(a).entries@),
        keys_unique(b.entries@),
        forall|k: CityId| #[trigger]
            b@.dom().contains(k) ==> old(a)@.dom().contains(k) && b@[k].n <= old(a)@[k].n
                && b@[k].s1 <= old(a)@[k].s1 && b@[k].s2 <= old(a)@[k].s2,
    ensures
        final(a)@ == map_minus(old(a)@, b@),
        keys_unique(final(a).entries@),
{
    let ghost m0 = a@;
    proof {
        lemma_map_of_props(b.entries@);
    }
    let mut i: usize = 0;
    while i < b.entries.len()
        invariant
            i <= b.entries@.len(),
            keys_unique(a.entries@),
            keys_unique(b.entries@),
            old(a)@ == m0,
            forall|k: CityId| #[trigger]
                b@.dom().contains(k) ==> m0.dom().contains(k) && b@[k].n <= m0[k].n && b@[k].s1
                    <= m0[k].s1 && b@[k].s2 <= m0[k].s2,
            a@ == map_minus(m0, map_of(b.entries@.take(i as int))),
        decreases b.entries@.len() - i,
    {
        let ghost pref = b.entries@.take(i as int);
        let pair_b = b.entries[i];
        let k = pair_b.0;
        let v = pair_b.1;
        proof {
            lemma_map_of_props(b.entries@);
            assert(b@[k] == v@);
            assert(b@.dom().contains(k));
            assert(forall|j: int| 0 <= j < i ==> pref[j] == b.entries@[j]);
            lemma_map_of_props(pref);
            if map_of(pref).dom().contains(k) {
                assert(false);
            }
            assert(b.entries@.take(i + 1).drop_last() =~= pref);
            lemma_map_of_push(pref, pair_b);
            assert(b.entries@.take(i + 1) =~= pref.push(pair_b));
        }
        match a.find(k) {
            Some(idx) => {
                proof {
                    lemma_map_of_props(a.entries@);
                    assert(a@[k] == a.entries@[idx as int].1@);
                    assert(a@[k] == m0[k]);
                }
                let mut pair = a.entries[idx];
                pair.1.sub_assign(v);
                let ghost s_before = a.entries@;
                a.entries.set(idx, pair);
                proof {
                    lemma_map_of_update(s_before, idx as int, pair.1);
                    assert(pair == (s_before[idx as int].0, pair.1));
                    assert(a.entries@ =~= s_before.update(idx as int, (s_before[idx as int].0, pair.1)));
                    assert(a@ =~= map_minus(m0, map_of(b.entries@.take(i + 1))));
                }
            },
            None => {
                proof {
                    assert(a@.dom().contains(k));
                    assert(false);
                }
            },
        }
        i += 1;
    }
    proof {
        assert(b.entries@.take(b.entries@.len() as int) =~= b.entries@);
    }
}

/// A map whose every value is within bounds, with unique keys, is
/// well-formed as a whole.
pub proof fn lemma_cmap_wf_from_view(m: CityParticleMap)
    requires
        keys_unique(m.entries@),
        forall|k: CityId| #[trigger] m@.dom().contains(k) ==> model_wf(m@[k]),
    ensures
        cmap_wf(m),
{
    lemma_map_of_props(m.entries@);
    assert forall|i: int| 0 <= i < m.entries@.len() implies model_wf(
        (#[trigger] m.entries@[i]).1@,
    ) by {
        assert(m@.dom().contains(m.entries@[i].0));
        assert(m@[m.entries@[i].0] == m.entries@[i].1@);
    }
}

} // verus!

verus! {

/// ActiveCities keeps track of which cities have been active in the last
/// ten minutes (the last two five-minute buckets of a window).
#[derive(Debug, Clone)]
pub struct ActiveCities {
    /// The ids of the active cities; repetitions carry no meaning.
    pub inner: Vec<CityId>,
}

impl View for ActiveCities {
    type V = Set<CityId>;

    open spec fn view(&self) -> Set<CityId> {
        self.inner@.to_set()
    }
}

impl ActiveCities {
    /// The empty set of active cities.
    pub fn new() -> (r: Self)
        ensures
            r@ == Set::<CityId>::empty(),
    {
        let r = ActiveCities { inner: Vec::new() };
        proof {
            assert(r.inner@.to_set() =~= Set::<CityId>::empty());
        }
        r
    }

    /// Returns true if the city identified by the id is known to have
    /// been active in the last ten minutes.
    pub fn is_active(&self, city: CityId) -> (r: bool)
        ensures
            r == self@.contains(city),
    {
        let mut i: usize = 0;
        while i < self.inner.len()
            invariant
                i <= self.inner@.len(),
                forall|j: int| 0 <= j < i ==> self.inner@[j] != city,
            decreases self.inner@.len() - i,
        {
            if self.inner[i] == city {
                proof {
                    assert(self.inner@.contains(city));
                }
                return true;
            }
            i += 1;
        }
        proof {
            if self.inner@.contains(city) {
                let j = choose|j: int| 0 <= j < self.inner@.len() && self.inner@[j] == city;
                assert(false);
            }
        }
        false
    }

    /// The cities that have an entry in the given bucket map.
    pub fn from_map_keys(m: &CityParticleMap) -> (r: Self)
        requires
            keys_unique(m.entries@),
        ensures
            r@ == m@.dom(),
    {
        proof {
            lemma_map_of_props(m.entries@);
        }
        let mut inner: Vec<CityId> = Vec::new();
        let mut i: usize = 0;
        while i < m.entries.len()
            invariant
                i <= m.entries@.len(),
                inner@ == m.entries@.take(i as int).map_values(
                    |e: (CityId, ParticleAggregate)| e.0,
                ),
            decreases m.entries@.len() - i,
        {
            inner.push(m.entries[i].0);
            proof {
                assert(inner@ =~= m.entries@.take(i + 1).map_values(
                    |e: (CityId, ParticleAggregate)| e.0,
                ));
            }
            i += 1;
        }
        let r = ActiveCities { inner };
        proof {
            assert(m.entries@.take(m.entries@.len() as int) =~= m.entries@);
            assert forall|k: CityId| r@.contains(k) implies m@.dom().contains(k) by {
                let keys = m.entries@.map_values(|e: (CityId, ParticleAggregate)| e.0);
                let j = choose|j: int| 0 <= j < keys.len() && keys[j] == k;
                assert(m.entries@[j].0 == k);
            }
            assert forall|k: CityId| m@.dom().contains(k) implies r@.contains(k) by {
                let i = choose|i: int| 0 <= i < m.entries@.len() && (#[trigger] m.entries@[i]).0
                    == k;
                let keys = m.entries@.map_values(|e: (CityId, ParticleAggregate)| e.0);
                assert(keys[i] == k);
                assert(keys.contains(k));
            }
            assert(r@ =~= m@.dom());
        }
        r
    }

    /// The union of two sets of active cities.
    pub fn bitor(self, rhs: Self) -> (r: Self)
        ensures
            r@ == self@ + rhs@,
    {
        let mut inner = self.inner;
        let ghost left = inner@;
        let mut i: usize = 0;
        while i < rhs.inner.len()
            invariant
                i <= rhs.inner@.len(),
                inner@ == left + rhs.inner@.take(i as int),
            decreases rhs.inner@.len() - i,
        {
            inner.push(rhs.inner[i]);
            proof {
                assert(inner@ =~= left + rhs.inner@.take(i + 1));
            }
            i += 1;
        }
        let r = ActiveCities { inner };
        proof {
            assert(rhs.inner@.take(rhs.inner@.len() as int) =~= rhs.inner@);
            assert forall|k: CityId| r@.contains(k) implies (left.to_set() + rhs.inner@.to_set()).contains(k) by {
                let j = choose|j: int| 0 <= j < r.inner@.len() && r.inner@[j] == k;
                if j < left.len() {
                    assert(left[j] == k);
                } else {
                    assert(rhs.inner@[j - left.len()] == k);
                }
            }
            assert forall|k: CityId| (left.to_set() + rhs.inner@.to_set()).contains(k) implies r@.contains(k) by {
                if left.to_set().contains(k) {
                    let j = choose|j: int| 0 <= j < left.len() && left[j] == k;
                    assert(r.inner@[j] == k);
                } else {
                    let j = choose|j: int| 0 <= j < rhs.inner@.len() && rhs.inner@[j] == k;
                    assert(r.inner@[left.len() + j] == k);
                }
            }
            assert(r@ =~= left.to_set() + rhs.inner@.to_set());
        }
        r
    }
}

/// The per-city aggregation of one bucket of measurements, folded in
/// order of arrival.
pub open spec fn bucket_agg(s: Seq<LocalizedMeasurement>) -> Map<CityId, AggModel>
    decreases s.len(),
{
    if s.len() == 0 {
        Map::empty()
    } else {
        map_step(bucket_agg(s.drop_last()), s.last().cityid, (s.last().p1, s.last().p2))
    }
}

/// Every city of a bucket aggregation holds between one measurement and
/// the bucket's length, within model bounds.
pub proof fn lemma_bucket_agg_counts(s: Seq<LocalizedMeasurement>)
    requires
        forall|i: int| 0 <= i < s.len() ==> lm_wf(#[trigger] s[i]),
        s.len() <= MAX_COUNT,
    ensures
        forall|k: CityId| #[trigger] bucket_agg(s).dom().contains(k) ==> 1 <= bucket_agg(s)[k].n
            <= s.len() && 0 <= bucket_agg(s)[k].s1 <= bucket_agg(s)[k].n * MAX_MILLI && 0
            <= bucket_agg(s)[k].s2 <= bucket_agg(s)[k].n * MAX_MILLI,
    decreases s.len(),
{
    if s.len() > 0 {
        let t = s.drop_last();
        assert(forall|i: int| 0 <= i < t.len() ==> t[i] == s[i]);
        lemma_bucket_agg_counts(t);
        let m = bucket_agg(t);
        let last = s.last();
        assert(lm_wf(last));
        let prev = if m.dom().contains(last.cityid) {
            m[last.cityid]
        } else {
            model_zero()
        };
        assert((prev.n + 1) * MAX_MILLI == prev.n * MAX_MILLI + MAX_MILLI) by (nonlinear_arith);
    }
}

/// A struct which holds data describing one pre-aggregated five-minute
/// bucket.
#[derive(Debug, Clone)]
pub struct PreAggregateData {
    /// The aggregate of each city seen in the bucket.
    pub values: CityParticleMap,
    /// The largest batch id of the data used; `None` when the bucket is
    /// empty.
    pub maxbatch: Option<i64>,
}

/// A bucket the pre-aggregator accepts: measurements within range, not
/// more of them than one aggregate can count.
pub open spec fn bucket_wf(b: Seq<LocalizedMeasurement>) -> bool {
    &&& forall|i: int| 0 <= i < b.len() ==> lm_wf(#[trigger] b[i])
    &&& b.len() <= MAX_COUNT
}

/// Folds one bucket of measurements into a city map.
pub fn preaggregate_bucket(bucket: &Vec<LocalizedMeasurement>) -> (r: CityParticleMap)
    requires
        bucket_wf(bucket@),
    ensures
        r@ == bucket_agg(bucket@),
        cmap_wf(r),
{
    let mut map = CityParticleMap::new();
    let mut i: usize = 0;
    while i < bucket.len()
        invariant
            i <= bucket@.len(),
            bucket_wf(bucket@),
            map@ == bucket_agg(bucket@.take(i as int)),
            cmap_wf(map),
        decreases bucket@.len() - i,
    {
        let m = bucket[i];
        proof {
            assert(forall|j: int|
                0 <= j < i ==> bucket@.take(i as int)[j] == bucket@[j]);
            lemma_bucket_agg_counts(bucket@.take(i as int));
            assert(bucket@.take(i + 1).drop_last() =~= bucket@.take(i as int));
        }
        map.add_measurement(m.cityid, (m.p1, m.p2));
        i += 1;
    }
    proof {
        assert(bucket@.take(bucket@.len() as int) =~= bucket@);
    }
    map
}

/// The batch label of a bucket: the batch id of its last measurement.
pub open spec fn bucket_maxbatch(b: Seq<LocalizedMeasurement>) -> Option<i64> {
    if b.len() == 0 {
        None
    } else {
        Some(b.last().batch_seq_id)
    }
}

/// An iterator which pre-aggregates each bucket of localized measurements
/// into a city map.
pub struct PreAggregate {
    /// The buckets still to be aggregated, oldest first.
    pub inner: Vec<Vec<LocalizedMeasurement>>,
    /// How many buckets have been handed out already.
    pub pos: usize,
}

/// The pre-aggregator accepts only well-formed buckets.
pub open spec fn preagg_wf(p: PreAggregate) -> bool {
    &&& p.pos <= p.inner@.len()
    &&& forall|i: int| 0 <= i < p.inner@.len() ==> bucket_wf((#[trigger] p.inner@[i])@)
}

impl PreAggregate {
    /// Starts pre-aggregating the given buckets.
    pub fn new(inner: Vec<Vec<LocalizedMeasurement>>) -> (r: Self)
        requires
            forall|i: int| 0 <= i < inner@.len() ==> bucket_wf((#[trigger] inner@[i])@),
        ensures
            preagg_wf(r),
            r.inner == inner,
            r.pos == 0,
    {
        PreAggregate { inner, pos: 0 }
    }

    /// Pre-aggregates the next bucket, if one is left.
    pub fn next(&mut self) -> (r: Option<PreAggregateData>)
        requires
            preagg_wf(*old(self)),
        ensures
            preagg_wf(*final(self)),
            final(self).inner == old(self).inner,
            (r is Some) <==> old(self).pos < old(self).inner@.len(),
            r is Some ==> ({
                let b = old(self).inner@[old(self).pos as int]@;
                &&& final(self).pos == old(self).pos + 1
                &&& (r->Some_0).values@ == bucket_agg(b)
                &&& cmap_wf((r->Some_0).values)
                &&& (r->Some_0).maxbatch == bucket_maxbatch(b)
            }),
            r is None ==> final(self).pos == old(self).pos,
    {
        if self.pos >= self.inner.len() {
            return None;
        }
        let bucket = &self.inner[self.pos];
        let values = preaggregate_bucket(bucket);
        let maxbatch = if bucket.len() > 0 {
            Some(bucket[bucket.len() - 1].batch_seq_id)
        } else {
            None
        };
        self.pos = self.pos + 1;
        Some(PreAggregateData { values, maxbatch })
    }
}

/// Convenience trait which allows generating a pre-aggregator from every
/// vector of measurement buckets.
pub trait WithPreAggregate: Sized + View<V = Seq<Vec<LocalizedMeasurement>>> {
    /// Pre-aggregates buckets of localized measurements into city maps.
    fn preaggregate(self) -> (r: PreAggregate)
        ensures
            r.inner@ == self@,
            r.pos == 0,
            (forall|i: int| 0 <= i < self@.len() ==> bucket_wf((#[trigger] self@[i])@))
                ==> preagg_wf(r),
    ;
}

impl WithPreAggregate for Vec<Vec<LocalizedMeasurement>> {
    fn preaggregate(self) -> (r: PreAggregate) {
        PreAggregate { inner: self, pos: 0 }
    }
}

/// Pre-aggregates every bucket in order.
pub fn preaggregate_all(buckets: &Vec<Vec<LocalizedMeasurement>>) -> (r: Vec<PreAggregateData>)
    requires
        forall|i: int| 0 <= i < buckets@.len() ==> bucket_wf((#[trigger] buckets@[i])@),
    ensures
        r@.len() == buckets@.len(),
        forall|i: int| 0 <= i < r@.len() ==> {
            &&& (#[trigger] r@[i]).values@ == bucket_agg(buckets@[i]@)
            &&& cmap_wf(r@[i].values)
            &&& r@[i].maxbatch == bucket_maxbatch(buckets@[i]@)
        },
{
    let mut out: Vec<PreAggregateData> = Vec::new();
    let mut i: usize = 0;
    while i < buckets.len()
        invariant
            i <= buckets@.len(),
            out@.len() == i,
            forall|j: int| 0 <= j < buckets@.len() ==> bucket_wf((#[trigger] buckets@[j])@),
            forall|j: int| 0 <= j < i ==> {
                &&& (#[trigger] out@[j]).values@ == bucket_agg(buckets@[j]@)
                &&& cmap_wf(out@[j].values)
                &&& out@[j].maxbatch == bucket_maxbatch(buckets@[j]@)
            },
        decreases buckets@.len() - i,
    {
        let bucket = &buckets[i];
        let values = preaggregate_bucket(bucket);
        let maxbatch = if bucket.len() > 0 {
            Some(bucket[bucket.len() - 1].batch_seq_id)
        } else {
            None
        };
        out.push(PreAggregateData { values, maxbatch });
        i += 1;
    }
    out
}

} // verus!
