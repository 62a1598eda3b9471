//! Co-moving analysis windows over two streams.
//!
//! [`AnalysisWindowsMap`] joins a current-year stream and a last-year
//! stream and hands a mapping function one window of each per step: the
//! current window `i` holds elements `i..i+w` of its stream (after the
//! shorter window's side skipped some initial elements, so both windows
//! end in step).  The mapping function threads an explicit cache value
//! from one window to the next, which is how the sliding-window engine
//! turns recomputation into incremental updates.
//!
//! The engine keeps both streams whole and slides an index over them,
//! instead of rotating double-ended queues: the windows it hands out are
//! plain subranges, which is what its contract states.
use crate::spliter::First;
use crate::spliter::IterPair;
use crate::spliter::Second;
use vstd::prelude::*;

verus! {

/// A window providing the values of the same period in the current and
/// the last year.
pub struct AnalysisWindow<TCur, TLast> {
    /// The values of the current year, oldest first.
    pub current: Vec<TCur>,
    /// The values of the last year, oldest first.
    pub lastyear: Vec<TLast>,
}

/// Copies `v[from .. from + len]` into a fresh vector.
fn copy_range<T: Copy>(v: &Vec<T>, from: usize, len: usize) -> (r: Vec<T>)
    requires
        from + len <= v@.len(),
    ensures
        r@ == v@.subrange(from as int, from + len),
{
    let n = v.len();
    let mut r: Vec<T> = Vec::new();
    let mut j: usize = 0;
    while j < len
        invariant
            j <= len,
            from + len <= v@.len(),
            v@.len() == n,
            r@ == v@.subrange(from as int, from + j),
        decreases len - j,
    {
        r.push(v[from + j]);
        proof {
            assert(r@ =~= v@.subrange(from as int, from + j + 1));
        }
        j += 1;
    }
    r
}

/// A struct which joins two streams (one for the current, one for the
/// last year) and maps each pair of equally advancing windows, together
/// with a threaded cache, to an output value.
#[verifier::reject_recursive_types(TOut)]
#[verifier::reject_recursive_types(TCache)]
pub struct AnalysisWindowsMap<TCur, TLast, F, TOut, TCache> where
    TCur: Copy,
    TLast: Copy,
    F: Fn(AnalysisWindow<TCur, TLast>, Option<TCache>) -> (TOut, TCache),
 {
    /// The values of the current year, oldest first.
    pub current: Vec<TCur>,
    /// The values of the last year, oldest first.
    pub lastyear: Vec<TLast>,
    /// Size of the window over the current year.
    pub current_window_size: usize,
    /// Size of the window over the last year.
    pub lastyear_window_size: usize,
    /// How many windows have been emitted.
    pub idx: usize,
    /// Whether either stream is exhausted.
    pub completed: bool,
    /// The cache value the mapping function threads along.
    pub cache: Option<TCache>,
    /// The mapping function applied to every window.
    pub map_func: F,
}

impl<TCur, TLast, F, TOut, TCache> AnalysisWindowsMap<TCur, TLast, F, TOut, TCache> where
    TCur: Copy,
    TLast: Copy,
    F: Fn(AnalysisWindow<TCur, TLast>, Option<TCache>) -> (TOut, TCache),
 {
    /// How many initial elements of the current stream fall before its
    /// first window: when the last-year window is larger, the current
    /// side skips the difference.
    pub open spec fn skip_cur(self) -> int {
        if self.lastyear_window_size > self.current_window_size {
            self.lastyear_window_size - self.current_window_size
        } else {
            0
        }
    }

    /// How many initial elements of the last-year stream fall before its
    /// first window.
    pub open spec fn skip_last(self) -> int {
        if self.current_window_size > self.lastyear_window_size {
            self.current_window_size - self.lastyear_window_size
        } else {
            0
        }
    }

    /// The number of window pairs the two streams yield.
    pub open spec fn num_windows(self) -> int {
        let avail_cur = self.current@.len() - self.skip_cur() - self.current_window_size;
        let avail_last = self.lastyear@.len() - self.skip_last() - self.lastyear_window_size;
        if avail_cur >= 0 && avail_last >= 0 {
            1 + if avail_cur < avail_last {
                avail_cur
            } else {
                avail_last
            }
        } else {
            0
        }
    }

    /// The current-year part of window `i`.
    pub open spec fn window_cur(self, i: int) -> Seq<TCur> {
        self.current@.subrange(self.skip_cur() + i, self.skip_cur() + i
            + self.current_window_size)
    }

    /// The last-year part of window `i`.
    pub open spec fn window_last(self, i: int) -> Seq<TLast> {
        self.lastyear@.subrange(self.skip_last() + i, self.skip_last() + i
            + self.lastyear_window_size)
    }

    /// The engine's invariant: the mapping function accepts every window,
    /// and `completed` says whether all windows are out.
    pub open spec fn wf(self) -> bool {
        &&& forall|w: AnalysisWindow<TCur, TLast>, c: Option<TCache>|
            call_requires(self.map_func, (w, c))
        &&& self.current_window_size >= 1
        &&& self.lastyear_window_size >= 1
        &&& 0 <= self.idx
        &&& self.completed <==> self.idx >= self.num_windows()
        &&& self.idx <= self.num_windows() || self.num_windows() == 0
    }

    /// Creates a new AnalysisWindowsMap over the two streams.  Each
    /// window pair will be mapped to an output by `map_func`.  If the
    /// window sizes differ, the stream with the smaller window skips the
    /// difference before its first window, so both windows end together.
    pub fn new(
        current_iter: Vec<TCur>,
        lastyear_iter: Vec<TLast>,
        current_window_size: usize,
        lastyear_window_size: usize,
        map_func: F,
    ) -> (r: Self)
        requires
            current_window_size >= 1,
            lastyear_window_size >= 1,
            forall|w: AnalysisWindow<TCur, TLast>, c: Option<TCache>| call_requires(map_func, (w, c)),
        ensures
            r.wf(),
            r.current == current_iter,
            r.lastyear == lastyear_iter,
            r.current_window_size == current_window_size,
            r.lastyear_window_size == lastyear_window_size,
            r.idx == 0,
            r.cache is None,
            r.map_func == map_func,
    {
        let max_size = if current_window_size > lastyear_window_size {
            current_window_size
        } else {
            lastyear_window_size
        };
        let skip_cur = max_size - current_window_size;
        let skip_last = max_size - lastyear_window_size;
        let enough_cur = current_iter.len() >= skip_cur && current_iter.len() - skip_cur
            >= current_window_size;
        let enough_last = lastyear_iter.len() >= skip_last && lastyear_iter.len() - skip_last
            >= lastyear_window_size;
        let completed = !(enough_cur && enough_last);
        AnalysisWindowsMap {
            current: current_iter,
            lastyear: lastyear_iter,
            current_window_size,
            lastyear_window_size,
            idx: 0,
            completed,
            cache: None,
            map_func,
        }
    }

    /// Maps the next window pair, advancing both windows by one element;
    /// `None` once either stream is exhausted.
    pub fn next(&mut self) -> (r: Option<TOut>)
        requires
            old(self).wf(),
        ensures
            final(self).wf(),
            final(self).current == old(self).current,
            final(self).lastyear == old(self).lastyear,
            final(self).current_window_size == old(self).current_window_size,
            final(self).lastyear_window_size == old(self).lastyear_window_size,
            final(self).map_func == old(self).map_func,
            (r is Some) <==> !old(self).completed,
            r is None ==> *final(self) == *old(self),
            r is Some ==> ({
                &&& final(self).idx == old(self).idx + 1
                &&& final(self).cache is Some
                &&& exists|w: AnalysisWindow<TCur, TLast>|
                    w.current@ == old(self).window_cur(old(self).idx as int) && w.lastyear@
                        == old(self).window_last(old(self).idx as int) && #[trigger] call_ensures(
                        old(self).map_func,
                        (w, old(self).cache),
                        (r->Some_0, final(self).cache->Some_0),
                    )
            }),
    {
        if self.completed {
            return None;
        }
        let max_size = if self.current_window_size > self.lastyear_window_size {
            self.current_window_size
        } else {
            self.lastyear_window_size
        };
        let skip_cur = max_size - self.current_window_size;
        let skip_last = max_size - self.lastyear_window_size;
        let n_cur = self.current.len();
        let n_last = self.lastyear.len();
        let cur_used = skip_cur + self.idx + self.current_window_size;
        let last_used = skip_last + self.idx + self.lastyear_window_size;
        let wcur = copy_range(&self.current, skip_cur + self.idx, self.current_window_size);
        let wlast = copy_range(&self.lastyear, skip_last + self.idx, self.lastyear_window_size);
        let window = AnalysisWindow { current: wcur, lastyear: wlast };
        let ghost gw = window;
        let cache_in = self.cache.take();
        let (res, cache2) = (self.map_func)(window, cache_in);
        proof {
            assert(gw.current@ == old(self).window_cur(old(self).idx as int));
            assert(gw.lastyear@ == old(self).window_last(old(self).idx as int));
            assert(call_ensures(old(self).map_func, (gw, old(self).cache), (res, cache2)));
        }
        self.cache = Some(cache2);
        self.idx = self.idx + 1;
        // pull one more from each side: when either stream has no further
        // element, the engine is complete
        if cur_used >= n_cur || last_used >= n_last {
            self.completed = true;
        }
        proof {
            let c2 = self.cache->Some_0;
            assert(call_ensures(old(self).map_func, (gw, old(self).cache), (res, c2)));
            assert(exists|w: AnalysisWindow<TCur, TLast>|
                w.current@ == old(self).window_cur(old(self).idx as int) && w.lastyear@
                    == old(self).window_last(old(self).idx as int) && #[trigger] call_ensures(
                    old(self).map_func,
                    (w, old(self).cache),
                    (res, c2),
                ));
        }
        Some(res)
    }
}

impl<TCur: Copy, TLast: Copy> IterPair<Vec<TCur>, Vec<TLast>> {
    /// Convenience function to build an [`AnalysisWindowsMap`] from a
    /// pair of streams.
    pub fn with_analysis_windows<F, TOut, TCache>(
        self,
        current_window_size: usize,
        lastyear_window_size: usize,
        map_func: F,
    ) -> (r: AnalysisWindowsMap<TCur, TLast, F, TOut, TCache>) where
        F: Fn(AnalysisWindow<TCur, TLast>, Option<TCache>) -> (TOut, TCache),

        requires
            current_window_size >= 1,
            lastyear_window_size >= 1,
            forall|w: AnalysisWindow<TCur, TLast>, c: Option<TCache>| call_requires(map_func, (w, c)),
        ensures
            r.wf(),
            r.current == self.0,
            r.lastyear == self.1,
            r.current_window_size == current_window_size,
            r.lastyear_window_size == lastyear_window_size,
            r.idx == 0,
            r.cache is None,
            r.map_func == map_func,
    {
        let IterPair(current, lastyear) = self;
        AnalysisWindowsMap::new(
            current,
            lastyear,
            current_window_size,
            lastyear_window_size,
            map_func,
        )
    }
}

impl<TCur: Copy, TLast: Copy> IterPair<First<TCur>, Second<TLast>> {
    /// Convenience function to build an [`AnalysisWindowsMap`] from a
    /// freshly split pair of streams.
    pub fn with_analysis_windows<F, TOut, TCache>(
        self,
        current_window_size: usize,
        lastyear_window_size: usize,
        map_func: F,
    ) -> (r: AnalysisWindowsMap<TCur, TLast, F, TOut, TCache>) where
        F: Fn(AnalysisWindow<TCur, TLast>, Option<TCache>) -> (TOut, TCache),

        requires
            current_window_size >= 1,
            lastyear_window_size >= 1,
            self.0.pos <= self.0.items@.len(),
            self.1.pos <= self.1.items@.len(),
            forall|w: AnalysisWindow<TCur, TLast>, c: Option<TCache>| call_requires(map_func, (w, c)),
        ensures
            r.wf(),
            r.current@ == self.0.items@.subrange(self.0.pos as int, self.0.items@.len() as int),
            r.lastyear@ == self.1.items@.subrange(self.1.pos as int, self.1.items@.len() as int),
            r.current_window_size == current_window_size,
            r.lastyear_window_size == lastyear_window_size,
            r.idx == 0,
            r.cache is None,
            r.map_func == map_func,
    {
        let IterPair(first, second) = self;
        let current = copy_range(&first.items, first.pos, first.items.len() - first.pos);
        let lastyear = copy_range(&second.items, second.pos, second.items.len() - second.pos);
        AnalysisWindowsMap::new(
            current,
            lastyear,
            current_window_size,
            lastyear_window_size,
            map_func,
        )
    }
}

} // verus!
