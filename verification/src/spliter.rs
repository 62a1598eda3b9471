//! Splitting a stream of pairs into two co-advancing streams.
//!
//! A single source of `(A, B)` pairs feeds two consumers: one sees the first
//! components, the other the second ones, and together they consume the
//! source exactly once.  [`SharedInner`] carries the shared source with one
//! cursor per side; the span between the cursors is the buffer of items one
//! side has pulled ahead of the other.
use vstd::prelude::*;

verus! {

/// The shared source of the two split iterators, with one read position
/// for each side.
pub struct SharedInner<A, B> {
    /// The pairs still to be handed out, in order.
    pub src: Vec<(A, B)>,
    /// How many first components have been handed out.
    pub first_pos: usize,
    /// How many second components have been handed out.
    pub second_pos: usize,
}

impl<A: Copy, B: Copy> SharedInner<A, B> {
    /// Wraps a source of pairs, with both sides at the start.
    pub fn new(src: Vec<(A, B)>) -> (r: Self)
        ensures
            r.src == src,
            r.first_pos == 0,
            r.second_pos == 0,
    {
        SharedInner { src, first_pos: 0, second_pos: 0 }
    }

    /// Returns the next first component of the shared source.
    pub fn next_first(&mut self) -> (r: Option<A>)
        ensures
            final(self).src == old(self).src,
            final(self).second_pos == old(self).second_pos,
            (r is Some) <==> old(self).first_pos < old(self).src@.len(),
            r is Some ==> r == Some(old(self).src@[old(self).first_pos as int].0)
                && final(self).first_pos == old(self).first_pos + 1,
            r is None ==> final(self).first_pos == old(self).first_pos,
    {
        if self.first_pos < self.src.len() {
            let item = self.src[self.first_pos].0;
            self.first_pos = self.first_pos + 1;
            Some(item)
        } else {
            None
        }
    }

    /// Returns the next second component of the shared source.
    pub fn next_second(&mut self) -> (r: Option<B>)
        ensures
            final(self).src == old(self).src,
            final(self).first_pos == old(self).first_pos,
            (r is Some) <==> old(self).second_pos < old(self).src@.len(),
            r is Some ==> r == Some(old(self).src@[old(self).second_pos as int].1)
                && final(self).second_pos == old(self).second_pos + 1,
            r is None ==> final(self).second_pos == old(self).second_pos,
    {
        if self.second_pos < self.src.len() {
            let item = self.src[self.second_pos].1;
            self.second_pos = self.second_pos + 1;
            Some(item)
        } else {
            None
        }
    }
}

/// An iterator yielding all the items in the first position of the pairs
/// of the source.
pub struct First<A> {
    /// The first components, in source order.
    pub items: Vec<A>,
    /// How many have been handed out.
    pub pos: usize,
}

impl<A: Copy> First<A> {
    /// The next first component, if one is left.
    pub fn next(&mut self) -> (r: Option<A>)
        ensures
            final(self).items == old(self).items,
            (r is Some) <==> old(self).pos < old(self).items@.len(),
            r is Some ==> r == Some(old(self).items@[old(self).pos as int]) && final(self).pos
                == old(self).pos + 1,
            r is None ==> final(self).pos == old(self).pos,
    {
        if self.pos < self.items.len() {
            let item = self.items[self.pos];
            self.pos = self.pos + 1;
            Some(item)
        } else {
            None
        }
    }
}

/// An iterator yielding all the items in the second position of the pairs
/// of the source.
pub struct Second<B> {
    /// The second components, in source order.
    pub items: Vec<B>,
    /// How many have been handed out.
    pub pos: usize,
}

impl<B: Copy> Second<B> {
    /// The next second component, if one is left.
    pub fn next(&mut self) -> (r: Option<B>)
        ensures
            final(self).items == old(self).items,
            (r is Some) <==> old(self).pos < old(self).items@.len(),
            r is Some ==> r == Some(old(self).items@[old(self).pos as int]) && final(self).pos
                == old(self).pos + 1,
            r is None ==> final(self).pos == old(self).pos,
    {
        if self.pos < self.items.len() {
            let item = self.items[self.pos];
            self.pos = self.pos + 1;
            Some(item)
        } else {
            None
        }
    }
}

/// A pair of iterators.  This is used to be able to implement methods on a
/// tuple of iterators.
pub struct IterPair<A, B>(pub A, pub B);

/// Splits a source of pairs into a pair of two iterators, each returning
/// the corresponding component of every pair, in order.
pub fn split<A: Copy, B: Copy>(it: Vec<(A, B)>) -> (r: IterPair<First<A>, Second<B>>)
    ensures
        r.0.items@ == it@.map_values(|p: (A, B)| p.0),
        r.1.items@ == it@.map_values(|p: (A, B)| p.1),
        r.0.pos == 0,
        r.1.pos == 0,
{
    let ghost src0 = it@;
    let mut inner = SharedInner::new(it);
    let mut firsts: Vec<A> = Vec::new();
    let mut seconds: Vec<B> = Vec::new();
    loop
        invariant
            inner.src@ == src0,
            inner.second_pos == 0,
            inner.first_pos == firsts@.len(),
            inner.first_pos <= src0.len(),
            firsts@ == src0.map_values(|p: (A, B)| p.0).take(inner.first_pos as int),
        ensures
            inner.src@ == src0,
            inner.second_pos == 0,
            firsts@ == src0.map_values(|p: (A, B)| p.0),
        decreases src0.len() - inner.first_pos + 1,
    {
        match inner.next_first() {
            Some(a) => {
                firsts.push(a);
                proof {
                    assert(firsts@ =~= src0.map_values(|p: (A, B)| p.0).take(
                        inner.first_pos as int,
                    ));
                }
            },
            None => {
                proof {
                    assert(src0.map_values(|p: (A, B)| p.0).take(inner.first_pos as int)
                        =~= src0.map_values(|p: (A, B)| p.0));
                }
                break ;
            },
        }
    }
    loop
        invariant
            inner.src@ == src0,
            inner.second_pos == seconds@.len(),
            inner.second_pos <= src0.len(),
            seconds@ == src0.map_values(|p: (A, B)| p.1).take(inner.second_pos as int),
        ensures
            seconds@ == src0.map_values(|p: (A, B)| p.1),
        decreases src0.len() - inner.second_pos + 1,
    {
        match inner.next_second() {
            Some(b) => {
                seconds.push(b);
                proof {
                    assert(seconds@ =~= src0.map_values(|p: (A, B)| p.1).take(
                        inner.second_pos as int,
                    ));
                }
            },
            None => {
                proof {
                    assert(src0.map_values(|p: (A, B)| p.1).take(inner.second_pos as int)
                        =~= src0.map_values(|p: (A, B)| p.1));
                }
                break ;
            },
        }
    }
    IterPair(First { items: firsts, pos: 0 }, Second { items: seconds, pos: 0 })
}

/// Convenience trait to be able to split a vector of pairs.
pub trait Spliter<A, B>: Sized + View<V = Seq<(A, B)>> {
    /// Splits a source of pairs; see [`split`].
    fn spliter(self) -> (r: IterPair<First<A>, Second<B>>)
        ensures
            r.0.items@ == self@.map_values(|p: (A, B)| p.0),
            r.1.items@ == self@.map_values(|p: (A, B)| p.1),
            r.0.pos == 0,
            r.1.pos == 0,
    ;
}

impl<A: Copy, B: Copy> Spliter<A, B> for Vec<(A, B)> {
    fn spliter(self) -> (r: IterPair<First<A>, Second<B>>) {
        split(self)
    }
}

} // verus!
