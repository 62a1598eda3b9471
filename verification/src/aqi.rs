//! Air Quality Index lookup.
//!
//! A pair of breakpoint tables (PM10 and PM2.5, 24-hour averages) maps a
//! particle concentration to an AQI value by linear interpolation inside the
//! matching row.  Concentrations enter in "milli" units (thousandths of a
//! microgram per cubic metre); the PM2.5 table works on tenths of a
//! microgram, the PM10 table on whole micrograms, as the published tables do.
//! The interpolated AQI is held exactly as a base plus a rational part, so
//! the rounded accessors are exact.
use vstd::prelude::*;

verus! {

/// One row of an AQI breakpoint table: concentrations in `bp_lo..=bp_hi`
/// (in the table's unit) map linearly onto the AQI range `i_lo..=i_hi`.
#[derive(Debug, Copy, Clone)]
pub struct AQITableRow {
    /// Lower end of the AQI range of this row.
    pub i_lo: u16,
    /// Upper end of the AQI range of this row.
    pub i_hi: u16,
    /// Lower breakpoint (inclusive), in table units.
    pub bp_lo: u32,
    /// Upper breakpoint (inclusive), in table units.
    pub bp_hi: u32,
}

/// An AQI value, kept exactly: its value is `base + num / den`.
#[derive(Debug, Copy, Clone)]
pub struct AQIValue {
    /// The lower AQI bound of the matched row.
    pub base: u16,
    /// Numerator of the interpolated fraction above `base`.
    pub num: u32,
    /// Denominator of the interpolated fraction (the breakpoint span).
    pub den: u32,
}

/// `n / d` rounded to the nearest integer, halves rounded up.
pub open spec fn rounded_div(n: int, d: int) -> int {
    (2 * n + d) / (2 * d)
}

/// A well-formed row: non-empty breakpoint span and an AQI range inside
/// `0..=500` that does not decrease.
pub open spec fn row_wf(r: AQITableRow) -> bool {
    &&& r.bp_lo < r.bp_hi
    &&& r.bp_hi <= 10_000
    &&& r.i_lo <= r.i_hi
    &&& r.i_hi <= 500
}

/// A well-formed AQI value: its exact value lies in `0..=500` and its
/// denominator is a breakpoint span, so the arithmetic below cannot
/// overflow.
pub open spec fn aqi_wf(v: AQIValue) -> bool {
    &&& 1 <= v.den <= 10_000
    &&& v.base <= 500
    &&& v.num <= (500 - v.base) * v.den
}

/// Whether concentration `c` (in table units) falls in row `r`.
pub open spec fn row_contains(r: AQITableRow, c: int) -> bool {
    r.bp_lo <= c <= r.bp_hi
}

/// The AQI value that row `r` assigns to concentration `c`:
/// `i_lo + (i_hi - i_lo) * (c - bp_lo) / (bp_hi - bp_lo)`.
pub open spec fn aqi_of_row(r: AQITableRow, c: int) -> AQIValue {
    AQIValue {
        base: r.i_lo,
        num: ((r.i_hi - r.i_lo) * (c - r.bp_lo)) as u32,
        den: (r.bp_hi - r.bp_lo) as u32,
    }
}

/// Index of the first row of `rows` whose breakpoint range contains `c`,
/// or `-1` if none does.
pub open spec fn first_matching(rows: Seq<AQITableRow>, c: int) -> int
    decreases rows.len(),
{
    if rows.len() == 0 {
        -1
    } else if row_contains(rows[0], c) {
        0
    } else {
        let k = first_matching(rows.subrange(1, rows.len() as int), c);
        if k == -1 {
            -1
        } else {
            k + 1
        }
    }
}

/// `first_matching` returns `-1` exactly when no row contains `c`, and
/// otherwise the smallest index of a containing row.
pub proof fn lemma_first_matching(rows: Seq<AQITableRow>, c: int)
    ensures
        first_matching(rows, c) == -1 ==> forall|i: int|
            0 <= i < rows.len() ==> !row_contains(#[trigger] rows[i], c),
        first_matching(rows, c) != -1 ==> {
            let k = first_matching(rows, c);
            &&& 0 <= k < rows.len()
            &&& row_contains(rows[k], c)
            &&& forall|i: int| 0 <= i < k ==> !row_contains(#[trigger] rows[i], c)
        },
    decreases rows.len(),
{
    if rows.len() == 0 {
    } else if row_contains(rows[0], c) {
    } else {
        let tail = rows.subrange(1, rows.len() as int);
        lemma_first_matching(tail, c);
        assert(forall|i: int| 0 <= i < tail.len() ==> tail[i] == rows[i + 1]);
        if first_matching(tail, c) == -1 {
            assert forall|i: int| 0 <= i < rows.len() implies !row_contains(
                #[trigger] rows[i],
                c,
            ) by {
                if i >= 1 {
                    assert(rows[i] == tail[i - 1]);
                }
            }
        } else {
            let k = first_matching(tail, c);
            assert(rows[k + 1] == tail[k]);
            assert forall|i: int| 0 <= i < k + 1 implies !row_contains(#[trigger] rows[i], c) by {
                if i >= 1 {
                    assert(rows[i] == tail[i - 1]);
                }
            }
        }
    }
}

/// Finds the first row containing `c_p` and interpolates the AQI value,
/// as the published procedure does; `None` when `c_p` is out of scale.
pub fn aqi_from_table(table: &[AQITableRow; 7], c_p: u32) -> (r: Option<AQIValue>)
    requires
        forall|i: int| 0 <= i < 7 ==> row_wf(#[trigger] table@[i]),
    ensures
        (r is Some) <==> first_matching(table@, c_p as int) != -1,
        r is Some ==> ({
            let row = table@[first_matching(table@, c_p as int)];
            &&& r == Some(aqi_of_row(row, c_p as int))
            &&& aqi_wf(r->Some_0)
        }),
{
    proof {
        lemma_first_matching(table@, c_p as int);
    }
    let mut i: usize = 0;
    while i < 7
        invariant
            i <= 7,
            forall|j: int| 0 <= j < 7 ==> row_wf(#[trigger] table@[j]),
            forall|j: int| 0 <= j < i ==> !row_contains(#[trigger] table@[j], c_p as int),
        decreases 7 - i,
    {
        let row = table[i];
        if row.bp_lo <= c_p && c_p <= row.bp_hi {
            let di: u32 = (row.i_hi - row.i_lo) as u32;
            let den: u32 = row.bp_hi - row.bp_lo;
            proof {
                assert(di * (c_p - row.bp_lo) <= 5_000_000) by (nonlinear_arith)
                    requires
                        di <= 500,
                        row.bp_lo <= c_p <= row.bp_hi,
                        row.bp_hi <= 10_000,
                ;
            }
            let num: u32 = di * (c_p - row.bp_lo);
            proof {
                lemma_first_matching(table@, c_p as int);
                assert(first_matching(table@, c_p as int) == i);
                assert(num <= (500 - row.i_lo) * den) by (nonlinear_arith)
                    requires
                        num == di * (c_p - row.bp_lo),
                        di <= 500 - row.i_lo,
                        c_p - row.bp_lo <= den,
                        di >= 0,
                        den >= 1,
                        c_p >= row.bp_lo,
                ;
            }
            return Some(AQIValue { base: row.i_lo, num, den });
        }
        i += 1;
    }
    None
}

/// The PM2.5 concentration in tenths of a microgram, rounded half up,
/// from a concentration in milli units.
pub open spec fn pm25_tenths(milli: int) -> int {
    (milli + 50) / 100
}

/// The PM10 concentration in whole micrograms, rounded half up,
/// from a concentration in milli units.
pub open spec fn pm10_whole(milli: int) -> int {
    (milli + 500) / 1000
}

/// The PM2.5 breakpoint table (24-hour), in tenths of a microgram.
pub open spec fn pm25_rows() -> Seq<AQITableRow> {
    seq![
        AQITableRow { i_lo: 0, i_hi: 50, bp_lo: 0, bp_hi: 120 },
        AQITableRow { i_lo: 51, i_hi: 100, bp_lo: 121, bp_hi: 354 },
        AQITableRow { i_lo: 101, i_hi: 150, bp_lo: 355, bp_hi: 554 },
        AQITableRow { i_lo: 151, i_hi: 200, bp_lo: 555, bp_hi: 1504 },
        AQITableRow { i_lo: 201, i_hi: 300, bp_lo: 1505, bp_hi: 2504 },
        AQITableRow { i_lo: 301, i_hi: 400, bp_lo: 2505, bp_hi: 3504 },
        AQITableRow { i_lo: 401, i_hi: 500, bp_lo: 3505, bp_hi: 5004 },
    ]
}

/// The PM10 breakpoint table (24-hour), in whole micrograms.
pub open spec fn pm10_rows() -> Seq<AQITableRow> {
    seq![
        AQITableRow { i_lo: 0, i_hi: 50, bp_lo: 0, bp_hi: 54 },
        AQITableRow { i_lo: 51, i_hi: 100, bp_lo: 55, bp_hi: 154 },
        AQITableRow { i_lo: 101, i_hi: 150, bp_lo: 155, bp_hi: 254 },
        AQITableRow { i_lo: 151, i_hi: 200, bp_lo: 255, bp_hi: 354 },
        AQITableRow { i_lo: 201, i_hi: 300, bp_lo: 355, bp_hi: 424 },
        AQITableRow { i_lo: 301, i_hi: 400, bp_lo: 425, bp_hi: 504 },
        AQITableRow { i_lo: 401, i_hi: 500, bp_lo: 505, bp_hi: 604 },
    ]
}

/// The AQI value a PM2.5 concentration of `milli` milli units maps to,
/// assuming it is in scale.
pub open spec fn pm25_value(milli: int) -> AQIValue {
    let t = pm25_tenths(milli);
    aqi_of_row(pm25_rows()[first_matching(pm25_rows(), t)], t)
}

/// The AQI value a PM10 concentration of `milli` milli units maps to,
/// assuming it is in scale.
pub open spec fn pm10_value(milli: int) -> AQIValue {
    let w = pm10_whole(milli);
    aqi_of_row(pm10_rows()[first_matching(pm10_rows(), w)], w)
}

impl AQIValue {
    /// The exact AQI this value stands for, scaled by its denominator:
    /// `spec_scaled(self) / den == base + num / den`.
    pub open spec fn spec_scaled(self) -> int {
        self.base * self.den + self.num
    }

    /// The rounded AQI, `0..=500`.
    pub open spec fn spec_get(self) -> int {
        self.base + rounded_div(self.num as int, self.den as int)
    }

    /// The AQI scaled by 1000 and rounded, as the challenge wire format
    /// carries it.
    pub open spec fn spec_get_asdebs(self) -> int {
        1000 * self.base + rounded_div(1000 * self.num, self.den as int)
    }

    /// Returns the rounded AQI value.
    pub fn get(self) -> (r: u16)
        requires
            aqi_wf(self),
        ensures
            r == self.spec_get(),
            r <= 500,
    {
        proof {
            assert(self.num <= 5_000_000) by (nonlinear_arith)
                requires
                    self.num <= (500 - self.base) * self.den,
                    self.base <= 500,
                    1 <= self.den <= 10_000,
            ;
            lemma_rounded_div_le(self.num as int, self.den as int, (500 - self.base) as int);
        }
        let q: u32 = (2 * self.num + self.den) / (2 * self.den);
        self.base + (q as u16)
    }

    /// Returns the AQI value multiplied by 1000 and rounded.
    pub fn get_asdebs(self) -> (r: i32)
        requires
            aqi_wf(self),
        ensures
            r == self.spec_get_asdebs(),
            0 <= r <= 500_000,
    {
        proof {
            assert(1000 * self.num <= 1000 * ((500 - self.base) * self.den)) by (nonlinear_arith)
                requires
                    self.num <= (500 - self.base) * self.den,
            ;
            assert(1000 * ((500 - self.base) * self.den) == (1000 * (500 - self.base))
                * self.den) by (nonlinear_arith);
            lemma_rounded_div_le(1000 * self.num, self.den as int, 1000 * (500 - self.base));
        }
        let n: u64 = 1000 * (self.num as u64);
        let q: u64 = (2 * n + (self.den as u64)) / (2 * (self.den as u64));
        1000 * (self.base as i32) + (q as i32)
    }

    /// Calculates the AQI from a PM2.5 concentration (p2) given in
    /// thousandths of a microgram per cubic metre.  The concentration is
    /// first rounded to tenths of a microgram, as the PM2.5 table demands.
    /// Out-of-scale concentrations (above 500.4) yield `None`.
    pub fn from_pm25(pm25_milli: u32) -> (r: Option<AQIValue>)
        ensures
            (r is Some) <==> pm25_tenths(pm25_milli as int) <= 5004,
            r is Some ==> r == Some(pm25_value(pm25_milli as int)) && aqi_wf(r->Some_0),
    {
        let t64: u64 = ((pm25_milli as u64) + 50) / 100;
        assert(t64 == pm25_tenths(pm25_milli as int));
        let table = pm25_table();
        let r = aqi_from_table(&table, t64 as u32);
        proof {
            lemma_first_matching(pm25_rows(), t64 as int);
            assert(first_matching(pm25_rows(), t64 as int) != -1 <==> t64 <= 5004) by {
                if t64 <= 5004 {
                    assert(exists|i: int|
                        0 <= i < 7 && row_contains(#[trigger] pm25_rows()[i], t64 as int)) by {
                        if t64 <= 120 {
                            assert(row_contains(pm25_rows()[0], t64 as int));
                        } else if t64 <= 354 {
                            assert(row_contains(pm25_rows()[1], t64 as int));
                        } else if t64 <= 554 {
                            assert(row_contains(pm25_rows()[2], t64 as int));
                        } else if t64 <= 1504 {
                            assert(row_contains(pm25_rows()[3], t64 as int));
                        } else if t64 <= 2504 {
                            assert(row_contains(pm25_rows()[4], t64 as int));
                        } else if t64 <= 3504 {
                            assert(row_contains(pm25_rows()[5], t64 as int));
                        } else {
                            assert(row_contains(pm25_rows()[6], t64 as int));
                        }
                    }
                }
            }
        }
        r
    }

    /// Calculates the AQI from a PM10 concentration (p1) given in
    /// thousandths of a microgram per cubic metre.  The concentration is
    /// first rounded to whole micrograms, as the PM10 table demands.
    /// Out-of-scale concentrations (above 604) yield `None`.
    pub fn from_pm10(pm10_milli: u32) -> (r: Option<AQIValue>)
        ensures
            (r is Some) <==> pm10_whole(pm10_milli as int) <= 604,
            r is Some ==> r == Some(pm10_value(pm10_milli as int)) && aqi_wf(r->Some_0),
    {
        let w64: u64 = ((pm10_milli as u64) + 500) / 1000;
        assert(w64 == pm10_whole(pm10_milli as int));
        let table = pm10_table();
        let r = aqi_from_table(&table, w64 as u32);
        proof {
            lemma_first_matching(pm10_rows(), w64 as int);
            assert(first_matching(pm10_rows(), w64 as int) != -1 <==> w64 <= 604) by {
                if w64 <= 604 {
                    assert(exists|i: int|
                        0 <= i < 7 && row_contains(#[trigger] pm10_rows()[i], w64 as int)) by {
                        if w64 <= 54 {
                            assert(row_contains(pm10_rows()[0], w64 as int));
                        } else if w64 <= 154 {
                            assert(row_contains(pm10_rows()[1], w64 as int));
                        } else if w64 <= 254 {
                            assert(row_contains(pm10_rows()[2], w64 as int));
                        } else if w64 <= 354 {
                            assert(row_contains(pm10_rows()[3], w64 as int));
                        } else if w64 <= 424 {
                            assert(row_contains(pm10_rows()[4], w64 as int));
                        } else if w64 <= 504 {
                            assert(row_contains(pm10_rows()[5], w64 as int));
                        } else {
                            assert(row_contains(pm10_rows()[6], w64 as int));
                        }
                    }
                }
            }
        }
        r
    }
}

/// Builds the PM2.5 table as a runtime array equal to `pm25_rows`.
fn pm25_table() -> (r: [AQITableRow; 7])
    ensures
        r@ == pm25_rows(),
{
    let r = [
        AQITableRow { i_lo: 0, i_hi: 50, bp_lo: 0, bp_hi: 120 },
        AQITableRow { i_lo: 51, i_hi: 100, bp_lo: 121, bp_hi: 354 },
        AQITableRow { i_lo: 101, i_hi: 150, bp_lo: 355, bp_hi: 554 },
        AQITableRow { i_lo: 151, i_hi: 200, bp_lo: 555, bp_hi: 1504 },
        AQITableRow { i_lo: 201, i_hi: 300, bp_lo: 1505, bp_hi: 2504 },
        AQITableRow { i_lo: 301, i_hi: 400, bp_lo: 2505, bp_hi: 3504 },
        AQITableRow { i_lo: 401, i_hi: 500, bp_lo: 3505, bp_hi: 5004 },
    ];
    assert(r@ =~= pm25_rows());
    r
}

/// Builds the PM10 table as a runtime array equal to `pm10_rows`.
fn pm10_table() -> (r: [AQITableRow; 7])
    ensures
        r@ == pm10_rows(),
{
    let r = [
        AQITableRow { i_lo: 0, i_hi: 50, bp_lo: 0, bp_hi: 54 },
        AQITableRow { i_lo: 51, i_hi: 100, bp_lo: 55, bp_hi: 154 },
        AQITableRow { i_lo: 101, i_hi: 150, bp_lo: 155, bp_hi: 254 },
        AQITableRow { i_lo: 151, i_hi: 200, bp_lo: 255, bp_hi: 354 },
        AQITableRow { i_lo: 201, i_hi: 300, bp_lo: 355, bp_hi: 424 },
        AQITableRow { i_lo: 301, i_hi: 400, bp_lo: 425, bp_hi: 504 },
        AQITableRow { i_lo: 401, i_hi: 500, bp_lo: 505, bp_hi: 604 },
    ];
    assert(r@ =~= pm10_rows());
    r
}

/// Every PM2.5 concentration whose rounded value is on the scale (at most
/// 500.4 micrograms) has a defined AQI, and its rounded value lies in
/// `0..=500`.
pub proof fn lemma_pm25_in_scale(milli: int)
    requires
        0 <= milli,
        pm25_tenths(milli) <= 5004,
    ensures
        first_matching(pm25_rows(), pm25_tenths(milli)) != -1,
        aqi_wf(pm25_value(milli)),
        0 <= pm25_value(milli).spec_get() <= 500,
{
    let t = pm25_tenths(milli);
    assert(t >= 0) by {
        vstd::arithmetic::div_mod::lemma_div_pos_is_pos(milli + 50, 100);
    }
    lemma_first_matching(pm25_rows(), t);
    assert(exists|i: int| 0 <= i < 7 && row_contains(#[trigger] pm25_rows()[i], t)) by {
        if t <= 120 {
            assert(row_contains(pm25_rows()[0], t));
        } else if t <= 354 {
            assert(row_contains(pm25_rows()[1], t));
        } else if t <= 554 {
            assert(row_contains(pm25_rows()[2], t));
        } else if t <= 1504 {
            assert(row_contains(pm25_rows()[3], t));
        } else if t <= 2504 {
            assert(row_contains(pm25_rows()[4], t));
        } else if t <= 3504 {
            assert(row_contains(pm25_rows()[5], t));
        } else {
            assert(row_contains(pm25_rows()[6], t));
        }
    }
    let k = first_matching(pm25_rows(), t);
    let row = pm25_rows()[k];
    lemma_aqi_of_row_wf(row, t);
    let v = pm25_value(milli);
    lemma_rounded_div_le(v.num as int, v.den as int, (500 - v.base) as int);
}

/// Every PM10 concentration whose rounded value is on the scale (at most
/// 604 micrograms) has a defined AQI, and its rounded value lies in
/// `0..=500`.
pub proof fn lemma_pm10_in_scale(milli: int)
    requires
        0 <= milli,
        pm10_whole(milli) <= 604,
    ensures
        first_matching(pm10_rows(), pm10_whole(milli)) != -1,
        aqi_wf(pm10_value(milli)),
        0 <= pm10_value(milli).spec_get() <= 500,
{
    let w = pm10_whole(milli);
    assert(w >= 0) by {
        vstd::arithmetic::div_mod::lemma_div_pos_is_pos(milli + 500, 1000);
    }
    lemma_first_matching(pm10_rows(), w);
    assert(exists|i: int| 0 <= i < 7 && row_contains(#[trigger] pm10_rows()[i], w)) by {
        if w <= 54 {
            assert(row_contains(pm10_rows()[0], w));
        } else if w <= 154 {
            assert(row_contains(pm10_rows()[1], w));
        } else if w <= 254 {
            assert(row_contains(pm10_rows()[2], w));
        } else if w <= 354 {
            assert(row_contains(pm10_rows()[3], w));
        } else if w <= 424 {
            assert(row_contains(pm10_rows()[4], w));
        } else if w <= 504 {
            assert(row_contains(pm10_rows()[5], w));
        } else {
            assert(row_contains(pm10_rows()[6], w));
        }
    }
    let k = first_matching(pm10_rows(), w);
    let row = pm10_rows()[k];
    lemma_aqi_of_row_wf(row, w);
    let v = pm10_value(milli);
    lemma_rounded_div_le(v.num as int, v.den as int, (500 - v.base) as int);
}

/// A well-formed row containing `c` interpolates to a well-formed AQI value.
pub proof fn lemma_aqi_of_row_wf(row: AQITableRow, c: int)
    requires
        row_wf(row),
        row_contains(row, c),
    ensures
        aqi_wf(aqi_of_row(row, c)),
{
    assert((row.i_hi - row.i_lo) * (c - row.bp_lo) <= (500 - row.i_lo) * (row.bp_hi
        - row.bp_lo)) by (nonlinear_arith)
        requires
            row.i_lo <= row.i_hi <= 500,
            row.bp_lo <= c <= row.bp_hi,
    ;
}

/// A well-formed AQI value's scaled, rounded form stays within the
/// scaled scale.
pub proof fn lemma_asdebs_bounds(v: AQIValue)
    requires
        aqi_wf(v),
    ensures
        0 <= v.spec_get_asdebs() <= 500_000,
{
    assert(1000 * v.num <= 1000 * ((500 - v.base) * v.den)) by (nonlinear_arith)
        requires
            v.num <= (500 - v.base) * v.den,
    ;
    assert(1000 * ((500 - v.base) * v.den) == (1000 * (500 - v.base)) * v.den)
        by (nonlinear_arith);
    lemma_rounded_div_le(1000 * v.num, v.den as int, 1000 * (500 - v.base));
}

/// For `0 <= n <= k * d`, the rounded quotient of `n / d` stays in `0..=k`.
pub proof fn lemma_rounded_div_le(n: int, d: int, k: int)
    requires
        d >= 1,
        0 <= n,
        n <= k * d,
    ensures
        0 <= rounded_div(n, d) <= k,
{
    assert(2 * n + d < (2 * d) * (k + 1)) by (nonlinear_arith)
        requires
            n <= k * d,
            d >= 1,
    ;
    vstd::arithmetic::div_mod::lemma_multiply_divide_lt(2 * n + d, 2 * d, k + 1);
    vstd::arithmetic::div_mod::lemma_div_pos_is_pos(2 * n + d, 2 * d);
}

} // verus!


verus! {

/// The AQI a row assigns stays between the row's two scaled bounds.
pub proof fn lemma_row_value_bounds(r: AQITableRow, c: int)
    requires
        row_wf(r),
        row_contains(r, c),
    ensures
        1000 * r.i_lo <= aqi_of_row(r, c).spec_get_asdebs() <= 1000 * r.i_hi,
{
    let v = aqi_of_row(r, c);
    let di = r.i_hi - r.i_lo;
    assert(0 <= di * (c - r.bp_lo) <= 5_000_000) by (nonlinear_arith)
        requires
            0 <= di <= 500,
            r.bp_lo <= c <= r.bp_hi,
            r.bp_hi <= 10_000,
    ;
    assert(v.num == di * (c - r.bp_lo));
    assert(1000 * v.num <= (1000 * di) * v.den) by (nonlinear_arith)
        requires
            v.num == di * (c - r.bp_lo),
            c - r.bp_lo <= v.den,
            di >= 0,
            v.den >= 1,
            c >= r.bp_lo,
    ;
    lemma_rounded_div_le(1000 * v.num, v.den as int, 1000 * di);
}

/// Within one row, the assigned AQI grows with the concentration.
pub proof fn lemma_row_value_mono(r: AQITableRow, c1: int, c2: int)
    requires
        row_wf(r),
        row_contains(r, c1),
        row_contains(r, c2),
        c1 <= c2,
    ensures
        aqi_of_row(r, c1).spec_get_asdebs() <= aqi_of_row(r, c2).spec_get_asdebs(),
{
    let v1 = aqi_of_row(r, c1);
    let v2 = aqi_of_row(r, c2);
    let di = r.i_hi - r.i_lo;
    assert(0 <= di * (c1 - r.bp_lo) <= 5_000_000 && 0 <= di * (c2 - r.bp_lo) <= 5_000_000
        && di * (c1 - r.bp_lo) <= di * (c2 - r.bp_lo)) by (nonlinear_arith)
        requires
            0 <= di <= 500,
            r.bp_lo <= c1 <= r.bp_hi,
            r.bp_lo <= c2 <= r.bp_hi,
            r.bp_hi <= 10_000,
            c1 <= c2,
    ;
    assert(v1.num == di * (c1 - r.bp_lo));
    assert(v2.num == di * (c2 - r.bp_lo));
    vstd::arithmetic::div_mod::lemma_div_is_ordered(
        2 * (1000 * v1.num) + v1.den,
        2 * (1000 * v2.num) + v2.den,
        2 * (v1.den as int),
    );
}

/// The rows of both tables are ordered: later rows cover strictly larger
/// concentrations and at least as large AQI ranges.
proof fn lemma_rows_ordered(rows: Seq<AQITableRow>)
    requires
        rows == pm25_rows() || rows == pm10_rows(),
    ensures
        forall|i: int, j: int|
            0 <= i < j < rows.len() ==> (#[trigger] rows[i]).bp_hi < (#[trigger] rows[j]).bp_lo
                && rows[i].i_hi <= rows[j].i_lo,
        forall|i: int| 0 <= i < rows.len() ==> row_wf(#[trigger] rows[i]),
{
}

/// The AQI map is monotone in the PM2.5 concentration: more particles
/// never yield a smaller scaled AQI.
pub proof fn lemma_pm25_monotone(m1: int, m2: int)
    requires
        0 <= m1 <= m2,
        pm25_tenths(m2) <= 5004,
    ensures
        pm25_value(m1).spec_get_asdebs() <= pm25_value(m2).spec_get_asdebs(),
{
    let t1 = pm25_tenths(m1);
    let t2 = pm25_tenths(m2);
    vstd::arithmetic::div_mod::lemma_div_is_ordered(m1 + 50, m2 + 50, 100);
    vstd::arithmetic::div_mod::lemma_div_pos_is_pos(m1 + 50, 100);
    lemma_pm25_in_scale(m1);
    lemma_pm25_in_scale(m2);
    lemma_first_matching(pm25_rows(), t1);
    lemma_first_matching(pm25_rows(), t2);
    lemma_rows_ordered(pm25_rows());
    let r1 = first_matching(pm25_rows(), t1);
    let r2 = first_matching(pm25_rows(), t2);
    if r1 > r2 {
        assert(pm25_rows()[r2].bp_hi < pm25_rows()[r1].bp_lo);
        assert(false);
    }
    if r1 == r2 {
        lemma_row_value_mono(pm25_rows()[r1], t1, t2);
    } else {
        lemma_row_value_bounds(pm25_rows()[r1], t1);
        lemma_row_value_bounds(pm25_rows()[r2], t2);
        assert(pm25_rows()[r1].i_hi <= pm25_rows()[r2].i_lo);
    }
}

/// The AQI map is monotone in the PM10 concentration.
pub proof fn lemma_pm10_monotone(m1: int, m2: int)
    requires
        0 <= m1 <= m2,
        pm10_whole(m2) <= 604,
    ensures
        pm10_value(m1).spec_get_asdebs() <= pm10_value(m2).spec_get_asdebs(),
{
    let w1 = pm10_whole(m1);
    let w2 = pm10_whole(m2);
    vstd::arithmetic::div_mod::lemma_div_is_ordered(m1 + 500, m2 + 500, 1000);
    vstd::arithmetic::div_mod::lemma_div_pos_is_pos(m1 + 500, 1000);
    lemma_pm10_in_scale(m1);
    lemma_pm10_in_scale(m2);
    lemma_first_matching(pm10_rows(), w1);
    lemma_first_matching(pm10_rows(), w2);
    lemma_rows_ordered(pm10_rows());
    let r1 = first_matching(pm10_rows(), w1);
    let r2 = first_matching(pm10_rows(), w2);
    if r1 > r2 {
        assert(pm10_rows()[r2].bp_hi < pm10_rows()[r1].bp_lo);
        assert(false);
    }
    if r1 == r2 {
        lemma_row_value_mono(pm10_rows()[r1], w1, w2);
    } else {
        lemma_row_value_bounds(pm10_rows()[r1], w1);
        lemma_row_value_bounds(pm10_rows()[r2], w2);
        assert(pm10_rows()[r1].i_hi <= pm10_rows()[r2].i_lo);
    }
}

} // verus!
