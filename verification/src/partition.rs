//! Partitioning a monotone measurement stream into five-minute buckets.
//!
//! The first window ends 300 seconds after the first measurement; every
//! further window ends 300 seconds after the one before, whether or not any
//! measurement falls in it, so the cadence stays aligned across gaps in the
//! data.  Each measurement of the stream belongs to exactly one bucket, the
//! one whose index [`bucket_of`] computes, and the emitted buckets
//! concatenate back to the input.
use crate::aggregate::LocalizedMeasurement;
use vstd::prelude::*;

verus! {

/// Length of one partition window, in seconds.
pub const BUCKET_SECONDS: i64 = 300;

/// The index of the bucket a timestamp falls in, when the first window
/// ends at `end0`.
pub open spec fn bucket_of(ts: int, end0: int) -> int {
    if ts < end0 {
        0
    } else {
        1 + (ts - end0) / (BUCKET_SECONDS as int)
    }
}

/// End of the first window: 300 seconds after the first measurement.
pub open spec fn end0_of(s: Seq<LocalizedMeasurement>) -> int {
    s[0].timestamp_seconds + BUCKET_SECONDS
}

/// How many buckets a stream partitions into: up to the bucket of the
/// last measurement, trailing empty windows never being emitted.
pub open spec fn total_buckets(s: Seq<LocalizedMeasurement>) -> int {
    if s.len() == 0 {
        0
    } else {
        bucket_of(s.last().timestamp_seconds as int, end0_of(s)) + 1
    }
}

/// A stream the partitioner accepts: timestamps monotonically
/// non-decreasing and small enough that window ends cannot overflow.
pub open spec fn input_wf(s: Seq<LocalizedMeasurement>) -> bool {
    &&& forall|i: int, j: int|
        0 <= i <= j < s.len() ==> (#[trigger] s[i]).timestamp_seconds
            <= (#[trigger] s[j]).timestamp_seconds
    &&& forall|i: int|
        0 <= i < s.len() ==> (#[trigger] s[i]).timestamp_seconds <= i64::MAX - BUCKET_SECONDS
}

/// Bucket indices are never negative.
pub proof fn lemma_bucket_nonneg(ts: int, end0: int)
    ensures
        bucket_of(ts, end0) >= 0,
{
    if ts >= end0 {
        vstd::arithmetic::div_mod::lemma_div_pos_is_pos(ts - end0, BUCKET_SECONDS as int);
    }
}

/// A timestamp falls in one of the first `k + 1` buckets exactly when it
/// lies before the end of window `k`.
pub proof fn lemma_bucket_le(ts: int, end0: int, k: int)
    requires
        k >= 0,
    ensures
        bucket_of(ts, end0) <= k <==> ts < end0 + BUCKET_SECONDS * k,
{
    let b = BUCKET_SECONDS as int;
    if ts < end0 {
        assert(b * k >= 0) by (nonlinear_arith)
            requires
                k >= 0,
                b > 0,
        ;
    } else {
        let x = ts - end0;
        lemma_bucket_nonneg(ts, end0);
        if x < b * k {
            vstd::arithmetic::div_mod::lemma_multiply_divide_lt(x, b, k);
        }
        if x / b <= k - 1 {
            vstd::arithmetic::div_mod::lemma_fundamental_div_mod(x, b);
            vstd::arithmetic::div_mod::lemma_remainder_upper(x, b);
            assert(x == b * (x / b) + x % b);
            assert(b * (x / b) <= b * (k - 1)) by (nonlinear_arith)
                requires
                    x / b <= k - 1,
                    b > 0,
            ;
            assert(b * (k - 1) + b == b * k) by (nonlinear_arith);
        }
    }
}

/// Bucket indices grow with the timestamp.
pub proof fn lemma_bucket_mono(ts1: int, ts2: int, end0: int)
    requires
        ts1 <= ts2,
    ensures
        bucket_of(ts1, end0) <= bucket_of(ts2, end0),
{
    lemma_bucket_nonneg(ts1, end0);
    lemma_bucket_nonneg(ts2, end0);
    if ts1 >= end0 {
        vstd::arithmetic::div_mod::lemma_div_is_ordered(ts1 - end0, ts2 - end0,
            BUCKET_SECONDS as int);
    }
}

/// Measurements of an earlier bucket lie strictly before that bucket's
/// window end, and all of a later bucket lie at or after it: the window
/// ends separate the buckets in timestamp order.
pub proof fn lemma_partition_boundaries(x: int, y: int, end0: int, i: int, j: int)
    requires
        0 <= i < j,
        bucket_of(x, end0) == i,
        bucket_of(y, end0) == j,
    ensures
        x < end0 + BUCKET_SECONDS * i,
        end0 + BUCKET_SECONDS * i <= y,
    {
    lemma_bucket_le(x, end0, i);
    lemma_bucket_le(y, end0, i);
}

/// An iterator which partitions localized measurements into buckets by
/// their timestamp.  The order of the measurements is preserved; windows
/// advance by a fixed 300 seconds, so a gap in the data yields empty
/// buckets.
pub struct TimePartitionIterator {
    /// The measurement stream, in arrival order.
    pub input: Vec<LocalizedMeasurement>,
    /// How many measurements have been consumed from `input`.
    pub pos: usize,
    /// The measurements of the bucket currently being filled.
    pub values: Vec<LocalizedMeasurement>,
    /// The timestamp at which the current partition ends.
    pub current_end_seconds: i64,
    /// How many buckets have been emitted.
    pub emitted: Ghost<int>,
}

impl TimePartitionIterator {
    /// Index of the first measurement of the bucket being filled.
    pub open spec fn start(self) -> int {
        self.pos - self.values@.len()
    }

    /// The internal state the partitioner maintains: the pending bucket
    /// holds exactly the consumed measurements of bucket `emitted`, and
    /// everything consumed before belongs to earlier buckets.
    pub open spec fn wf(self) -> bool {
        &&& input_wf(self.input@)
        &&& self.values@.len() <= self.pos <= self.input@.len()
        &&& self.values@ == self.input@.subrange(self.start(), self.pos as int)
        &&& self.emitted@ >= 0
        &&& self.emitted@ <= total_buckets(self.input@)
        &&& (self.input@.len() > 0 && (self.pos < self.input@.len() || self.values@.len() > 0))
            ==> self.current_end_seconds == end0_of(self.input@) + BUCKET_SECONDS * self.emitted@
        &&& forall|j: int|
            0 <= j < self.start() ==> bucket_of(
                (#[trigger] self.input@[j]).timestamp_seconds as int,
                end0_of(self.input@),
            ) < self.emitted@
        &&& forall|j: int|
            self.start() <= j < self.pos ==> bucket_of(
                (#[trigger] self.input@[j]).timestamp_seconds as int,
                end0_of(self.input@),
            ) == self.emitted@
        &&& forall|j: int|
            self.pos <= j < self.input@.len() ==> bucket_of(
                (#[trigger] self.input@[j]).timestamp_seconds as int,
                end0_of(self.input@),
            ) >= self.emitted@
        &&& (self.pos == self.input@.len() && self.values@.len() == 0 && self.input@.len() > 0)
            ==> self.emitted@ == total_buckets(self.input@)
    }

    /// Creates a new partitioner over the given stream.  The contract
    /// below speaks only of streams the partitioner accepts; see
    /// [`input_wf`].
    pub fn new(input: Vec<LocalizedMeasurement>) -> (r: Self)
        ensures
            input_wf(input@) ==> r.wf(),
            r.input == input,
            r.emitted@ == 0,
            r.pos == 0,
            r.values@.len() == 0,
    {
        let current_end_seconds: i64 = if input.len() > 0 {
            let first_ts = input[0].timestamp_seconds;
            if first_ts <= i64::MAX - BUCKET_SECONDS {
                first_ts + BUCKET_SECONDS
            } else {
                // out of the accepted range; the contract says nothing here
                i64::MAX
            }
        } else {
            // no measurements at all; the value is never read
            0
        };
        let r = TimePartitionIterator {
            input,
            pos: 0,
            values: Vec::new(),
            current_end_seconds,
            emitted: Ghost(0),
        };
        proof {
            if input_wf(r.input@) && r.input@.len() > 0 {
                assert(r.values@ =~= r.input@.subrange(0, 0));
                lemma_bucket_nonneg(r.input@.last().timestamp_seconds as int, end0_of(r.input@));
            } else {
                assert(r.values@ =~= r.input@.subrange(0, 0));
            }
        }
        r
    }

    /// Emits the next bucket: all measurements of bucket `emitted`, which
    /// may be empty when a window passed without data.  `None` once every
    /// measurement has been emitted.
    pub fn next(&mut self) -> (r: Option<Vec<LocalizedMeasurement>>)
        requires
            old(self).wf(),
        ensures
            final(self).wf(),
            final(self).input == old(self).input,
            (r is Some) <==> old(self).emitted@ < total_buckets(old(self).input@),
            r is Some ==> ({
                let b = r->Some_0;
                &&& final(self).emitted@ == old(self).emitted@ + 1
                &&& old(self).start() <= final(self).start() <= final(self).input@.len()
                &&& b@ == old(self).input@.subrange(old(self).start(), final(self).start())
                &&& forall|j: int|
                    0 <= j < b@.len() ==> bucket_of(
                        (#[trigger] b@[j]).timestamp_seconds as int,
                        end0_of(old(self).input@),
                    ) == old(self).emitted@
            }),
            r is None ==> *final(self) == *old(self) && final(self).start()
                == final(self).input@.len(),
    {
        let ghost e0 = end0_of(self.input@);
        let ghost em = self.emitted@;
        let ghost start0 = self.start();
        if self.pos >= self.input.len() && self.values.len() == 0 {
            return None;
        }
        // consume while the next measurement fits the current window
        while self.pos < self.input.len() && self.input[self.pos].timestamp_seconds
            < self.current_end_seconds
            invariant
                self.wf(),
                self.input == old(self).input,
                self.emitted@ == em,
                self.current_end_seconds == old(self).current_end_seconds,
                self.start() == start0,
                self.pos > 0 || self.values@.len() > 0 || self.pos < self.input@.len(),
            decreases self.input@.len() - self.pos,
        {
            let m = self.input[self.pos];
            proof {
                lemma_bucket_le(m.timestamp_seconds as int, e0, em);
                assert(self.input@.subrange(self.start(), self.pos + 1) =~= self.values@.push(
                    m,
                ));
            }
            self.values.push(m);
            self.pos = self.pos + 1;
        }
        if self.pos >= self.input.len() {
            // end of input: emit the remainder, which holds the last
            // measurement, so it is the final bucket
            let mut out: Vec<LocalizedMeasurement> = Vec::new();
            core::mem::swap(&mut out, &mut self.values);
            proof {
                self.emitted@ = em + 1;
                assert(out@.len() > 0);
                assert(self.input@.last() == out@.last());
                assert(self.values@ =~= self.input@.subrange(self.pos as int, self.pos as int));
            }
            return Some(out);
        }
        // the measurement at `pos` does not fit the current window
        let m = self.input[self.pos];
        let mut out: Vec<LocalizedMeasurement> = Vec::new();
            core::mem::swap(&mut out, &mut self.values);
        let next_end = self.current_end_seconds + BUCKET_SECONDS;
        self.current_end_seconds = next_end;
        proof {
            self.emitted@ = em + 1;
            lemma_bucket_le(m.timestamp_seconds as int, e0, em);
            lemma_bucket_le(self.input@.last().timestamp_seconds as int, e0, em);
            lemma_bucket_mono(m.timestamp_seconds as int,
                self.input@.last().timestamp_seconds as int, e0);
            lemma_bucket_nonneg(m.timestamp_seconds as int, e0);
        }
        if m.timestamp_seconds < next_end {
            // fits into the new window: it opens the next bucket
            proof {
                lemma_bucket_le(m.timestamp_seconds as int, e0, em + 1);
            }
            self.values.push(m);
            self.pos = self.pos + 1;
            proof {
                assert(self.values@ =~= self.input@.subrange(self.pos - 1, self.pos as int));
                assert forall|j: int|
                    self.pos <= j < self.input@.len() implies bucket_of(
                    (#[trigger] self.input@[j]).timestamp_seconds as int,
                    e0,
                ) >= em + 1 by {
                    lemma_bucket_mono(m.timestamp_seconds as int,
                        self.input@[j].timestamp_seconds as int, e0);
                }
            }
            Some(out)
        } else {
            // fits neither window: the next window stays empty and the
            // measurement is looked at again on the following call
            proof {
                lemma_bucket_le(m.timestamp_seconds as int, e0, em + 1);
                assert(self.values@ =~= self.input@.subrange(self.pos as int, self.pos as int));
                assert forall|j: int|
                    self.pos <= j < self.input@.len() implies bucket_of(
                    (#[trigger] self.input@[j]).timestamp_seconds as int,
                    e0,
                ) >= em + 1 by {
                    lemma_bucket_mono(m.timestamp_seconds as int,
                        self.input@[j].timestamp_seconds as int, e0);
                }
            }
            Some(out)
        }
    }
}

/// A convenience trait which makes it possible to partition a vector of
/// localized measurements into batches of five minutes.
pub trait Partition5Min: Sized + View<V = Seq<LocalizedMeasurement>> {
    /// Partitions the measurements into buckets of five minutes.
    fn partition_5min(self) -> (r: TimePartitionIterator)
        ensures
            input_wf(self@) ==> r.wf(),
            r.input@ == self@,
            r.emitted@ == 0,
            r.pos == 0,
            r.values@.len() == 0,
    ;
}

impl Partition5Min for Vec<LocalizedMeasurement> {
    fn partition_5min(self) -> (r: TimePartitionIterator) {
        TimePartitionIterator::new(self)
    }
}

/// The concatenation of a sequence of buckets, in order.
pub open spec fn concat_buckets(bs: Seq<Seq<LocalizedMeasurement>>) -> Seq<LocalizedMeasurement>
    decreases bs.len(),
{
    if bs.len() == 0 {
        Seq::empty()
    } else {
        concat_buckets(bs.drop_last()) + bs.last()
    }
}

/// Partitions a whole stream at once.  Concatenating the emitted buckets
/// in order reproduces the input exactly, every measurement stands in the
/// bucket its timestamp selects, and no bucket follows the one holding
/// the last measurement.
pub fn partition_all(input: Vec<LocalizedMeasurement>) -> (r: Vec<Vec<LocalizedMeasurement>>)
    requires
        input_wf(input@),
    ensures
        r@.len() == total_buckets(input@),
        concat_buckets(r@.map_values(|b: Vec<LocalizedMeasurement>| b@)) == input@,
        forall|i: int, j: int|
            0 <= i < r@.len() && 0 <= j < r@[i]@.len() ==> bucket_of(
                (#[trigger] r@[i]@[j]).timestamp_seconds as int,
                end0_of(input@),
            ) == i,
        partition_props(r@.map_values(|b: Vec<LocalizedMeasurement>| b@), input@),
{
    let ghost inp = input@;
    let mut part = TimePartitionIterator::new(input);
    let mut out: Vec<Vec<LocalizedMeasurement>> = Vec::new();
    loop
        invariant
            part.wf(),
            part.input@ == inp,
            out@.len() == part.emitted@,
            concat_buckets(out@.map_values(|b: Vec<LocalizedMeasurement>| b@)) == inp.take(
                part.start(),
            ),
            forall|i: int, j: int|
                0 <= i < out@.len() && 0 <= j < out@[i]@.len() ==> bucket_of(
                    (#[trigger] out@[i]@[j]).timestamp_seconds as int,
                    end0_of(inp),
                ) == i,
        ensures
            out@.len() == total_buckets(inp),
            concat_buckets(out@.map_values(|b: Vec<LocalizedMeasurement>| b@)) == inp,
            forall|i: int, j: int|
                0 <= i < out@.len() && 0 <= j < out@[i]@.len() ==> bucket_of(
                    (#[trigger] out@[i]@[j]).timestamp_seconds as int,
                    end0_of(inp),
                ) == i,
        decreases total_buckets(inp) - part.emitted@ + 1,
    {
        let ghost start_before = part.start();
        match part.next() {
            Some(bucket) => {
                proof {
                    let f = |b: Vec<LocalizedMeasurement>| b@;
                    assert(out@.push(bucket).map_values(f).drop_last() =~= out@.map_values(f));
                    assert(out@.push(bucket).map_values(f).last() == bucket@);
                    assert(inp.take(part.start()) =~= inp.take(start_before) + inp.subrange(
                        start_before,
                        part.start(),
                    ));
                }
                out.push(bucket);
            },
            None => {
                proof {
                    assert(inp.take(part.start()) =~= inp);
                }
                break ;
            },
        }
    }
    proof {
        let bs = out@.map_values(|b: Vec<LocalizedMeasurement>| b@);
        assert(forall|i: int| 0 <= i < bs.len() ==> bs[i] == (#[trigger] out@[i])@);
    }
    out
}

} // verus!

verus! {

/// What [`partition_all`] guarantees of its buckets: together they are
/// exactly the input, each measurement stands in the bucket its
/// timestamp selects, and no bucket follows the one holding the last
/// measurement.
pub open spec fn partition_props(
    bs: Seq<Seq<LocalizedMeasurement>>,
    s: Seq<LocalizedMeasurement>,
) -> bool {
    &&& bs.len() == total_buckets(s)
    &&& concat_buckets(bs) == s
    &&& forall|i: int, j: int|
        0 <= i < bs.len() && 0 <= j < bs[i].len() ==> bucket_of(
            (#[trigger] bs[i][j]).timestamp_seconds as int,
            end0_of(s),
        ) == i
}

/// Whether an element of a bucket occurs in the concatenation.
pub open spec fn bucket_elem_in_concat(bs: Seq<Seq<LocalizedMeasurement>>, i: int, j: int) -> bool {
    exists|x: int|
        0 <= x < concat_buckets(bs).len() && #[trigger] concat_buckets(bs)[x] == bs[i][j]
}

/// Every element of a bucket is an element of the concatenation.
pub proof fn lemma_concat_mem(bs: Seq<Seq<LocalizedMeasurement>>)
    ensures
        forall|i: int, j: int|
            0 <= i < bs.len() && 0 <= j < bs[i].len() ==> #[trigger] bucket_elem_in_concat(
                bs,
                i,
                j,
            ),
    decreases bs.len(),
{
    if bs.len() > 0 {
        let t = bs.drop_last();
        assert(forall|i: int| 0 <= i < t.len() ==> t[i] == bs[i]);
        lemma_concat_mem(t);
        let prev = concat_buckets(t);
        assert forall|i: int, j: int|
            0 <= i < bs.len() && 0 <= j < bs[i].len() implies #[trigger] bucket_elem_in_concat(
            bs,
            i,
            j,
        ) by {
            if i < bs.len() - 1 {
                assert(bs[i][j] == t[i][j]);
                assert(bucket_elem_in_concat(t, i, j));
                let x = choose|x: int|
                    0 <= x < concat_buckets(t).len() && #[trigger] concat_buckets(t)[x] == t[i][j];
                assert(concat_buckets(bs)[x] == bs[i][j]);
            } else {
                assert(bs[i] == bs.last());
                assert(concat_buckets(bs)[prev.len() + j] == bs[i][j]);
            }
        }
    }
}

/// No bucket is longer than the concatenation.
pub proof fn lemma_concat_len(bs: Seq<Seq<LocalizedMeasurement>>)
    ensures
        forall|i: int|
            0 <= i < bs.len() ==> (#[trigger] bs[i]).len() <= concat_buckets(bs).len(),
    decreases bs.len(),
{
    if bs.len() > 0 {
        let t = bs.drop_last();
        assert(forall|i: int| 0 <= i < t.len() ==> t[i] == bs[i]);
        lemma_concat_len(t);
    }
}

} // verus!
