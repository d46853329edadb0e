//! `Choose`: a forward-only generator of the `k`-element combinations of a
//! borrowed slice, in lexicographic order of their index vectors.
use vstd::prelude::*;

use crate::combination::{
    bump_at, initial, is_selection, lemma_successor_is_selection, pivot, pivot_upto, successor,
};

verus! {

/// Produces, one call of `next` at a time, every `k`-element combination of
/// `list` in lexicographic order of positions.
///
/// The slice is borrowed for the generator's lifetime, so it cannot change
/// while combinations are being produced.
pub struct Choose<'t, T: 't> {
    list: &'t [T],
    k: usize,
    indices: Vec<usize>,
    first: bool,
}

impl<'t, T> Choose<'t, T> {
    /// The elements that combinations are drawn from.
    pub closed spec fn source(&self) -> Seq<T> {
        self.list@
    }

    /// The number of elements in each combination.
    pub closed spec fn size(&self) -> nat {
        self.k as nat
    }

    /// The current index vector.
    pub closed spec fn positions(&self) -> Seq<int> {
        self.indices@.map_values(|i: usize| i as int)
    }

    /// Nothing has been produced yet: the next call hands out the current
    /// index vector without advancing it.
    pub closed spec fn fresh(&self) -> bool {
        self.first
    }

    /// The number of source elements.
    pub open spec fn count(&self) -> int {
        self.source().len() as int
    }

    /// The index vector has `k` entries and, when any combination exists at
    /// all, names a valid selection.
    pub open spec fn wf(&self) -> bool {
        &&& self.positions().len() == self.size()
        &&& self.size() <= self.count() ==> is_selection(self.positions(), self.count())
    }

    /// Every further call of `next` returns `None`.
    pub open spec fn exhausted(&self) -> bool {
        ||| self.count() < self.size()
        ||| !self.fresh() && successor(self.positions(), self.count()) is None
    }

    /// A generator over `list` that starts at the first combination,
    /// `[0, 1, ..., k - 1]`.
    pub fn new(list: &'t [T], k: usize) -> (r: Choose<'t, T>)
        ensures
            r.wf(),
            r.source() == list@,
            r.size() == k,
            r.fresh(),
            r.positions() == initial(k as nat),
    {
        let mut indices: Vec<usize> = Vec::with_capacity(k);
        let mut i: usize = 0;
        while i < k
            invariant
                i <= k,
                indices@.len() == i,
                forall|j: int| 0 <= j < i ==> indices@[j] == j,
            decreases k - i,
        {
            indices.push(i);
            i = i + 1;
        }
        let r = Choose { list: list, k: k, indices: indices, first: true };
        assert(r.positions() =~= initial(k as nat));
        r
    }

    /// The number of source elements.
    pub fn n(&self) -> (r: usize)
        ensures
            r == self.count(),
    {
        self.list.len()
    }

    /// The source elements at the current positions, in index order.
    pub fn from_indices(&self) -> (r: Vec<&'t T>)
        requires
            self.wf(),
            self.size() <= self.count(),
        ensures
            r@.len() == self.size(),
            forall|j: int| 0 <= j < r@.len() ==> *r@[j] == self.source()[self.positions()[j]],
    {
        let mut r: Vec<&'t T> = Vec::with_capacity(self.k);
        let mut j: usize = 0;
        while j < self.k
            invariant
                self.wf(),
                self.size() <= self.count(),
                j <= self.k,
                r@.len() == j,
                forall|x: int| 0 <= x < j ==> *r@[x] == self.source()[self.positions()[x]],
            decreases self.k - j,
        {
            let i = self.indices[j];
            assert(self.positions()[j as int] == i);
            r.push(&self.list[i]);
            j = j + 1;
        }
        r
    }

    /// Moves the index vector on to its lexicographic successor: the
    /// rightmost position that may still grow goes up by one, and every
    /// position after it follows consecutively. Returns `None`, and changes
    /// nothing, when the current vector is the last one.
    pub fn increment_indices(&mut self) -> (r: Option<()>)
        requires
            old(self).wf(),
            old(self).size() <= old(self).count(),
        ensures
            final(self).wf(),
            final(self).source() == old(self).source(),
            final(self).size() == old(self).size(),
            final(self).fresh() == old(self).fresh(),
            match successor(old(self).positions(), old(self).count()) {
                None => r is None && final(self).positions() == old(self).positions(),
                Some(w) => r is Some && final(self).positions() == w,
            },
    {
        let ghost v = self.positions();
        let ghost nn = self.count();
        let n = self.n();
        let k = self.k;
        let mut p: usize = k;
        while p > 0 && !(self.indices[p - 1] < n - k + (p - 1))
            invariant
                p <= k,
                n == nn,
                k == v.len(),
                v == self.positions(),
                self.indices@.len() == k,
                k <= n,
                pivot(v, nn) == pivot_upto(v, nn, p - 1),
            decreases p,
        {
            assert(v[p - 1] == self.indices@[p - 1]);
            p = p - 1;
        }
        if p == 0 {
            assert(pivot_upto(v, nn, -1) == -1);
            return None;
        }
        let t: usize = p - 1;
        assert(v[t as int] == self.indices@[t as int]);
        assert(pivot(v, nn) == t);
        let ghost w = bump_at(v, t as int);
        proof {
            lemma_successor_is_selection(v, nn);
        }
        let bumped = self.indices[t] + 1;
        self.indices.set(t, bumped);
        let mut j: usize = t + 1;
        while j < k
            invariant
                t < j <= k,
                k == v.len(),
                k <= n,
                n == nn,
                w.len() == k,
                is_selection(w, nn),
                self.indices@.len() == k,
                forall|x: int| 0 <= x < j ==> self.indices@[x] == w[x],
                forall|x: int| j <= x < k ==> self.indices@[x] == v[x],
                w == bump_at(v, t as int),
                self.list == old(self).list,
                self.k == k,
                self.first == old(self).first,
            decreases k - j,
        {
            let previous_index = self.indices[j - 1];
            assert(w[j as int] == w[j - 1] + 1);
            self.indices.set(j, previous_index + 1);
            j = j + 1;
        }
        assert(self.positions() =~= w);
        Some(())
    }

    /// The next combination, or `None` once all have been produced.
    ///
    /// The first call hands out `[0, 1, ..., k - 1]` (none at all when
    /// `k > n`); each later call first advances the index vector. Once `None`
    /// has come, every further call returns `None` as well.
    pub fn next(&mut self) -> (r: Option<Vec<&'t T>>)
        requires
            old(self).wf(),
        ensures
            final(self).wf(),
            final(self).source() == old(self).source(),
            final(self).size() == old(self).size(),
            r is None <==> old(self).exhausted(),
            old(self).exhausted() ==> final(self).positions() == old(self).positions()
                && final(self).fresh() == old(self).fresh(),
            r is None ==> final(self).exhausted(),
            !old(self).exhausted() ==> !final(self).fresh() && final(self).positions() == (if old(
                self,
            ).fresh() {
                old(self).positions()
            } else {
                successor(old(self).positions(), old(self).count()).unwrap()
            }),
            r is Some ==> final(self).positions().len() == final(self).size() && is_selection(
                final(self).positions(),
                final(self).count(),
            ),
            r matches Some(v) ==> v@.len() == final(self).size() && forall|j: int|
                0 <= j < v@.len() ==> *v@[j] == final(self).source()[final(self).positions()[j]],
    {
        if self.n() < self.k {
            return None;
        }
        if !self.first {
            match self.increment_indices() {
                None => return None,
                Some(()) => {},
            };
        }
        self.first = false;
        Some(self.from_indices())
    }
}

/// A "choose k" operation for an ordered collection: `choose_k(k)` starts a
/// generator of its `k`-element combinations.
pub trait Chooseable<'t, T> {
    /// The elements of the collection, in order.
    spec fn elements(&self) -> Seq<T>;

    /// A generator over this collection's `k`-element combinations, about to
    /// produce the first one.
    fn choose_k(&'t self, k: usize) -> (r: Choose<'t, T>)
        ensures
            r.wf(),
            r.source() == self.elements(),
            r.size() == k,
            r.fresh(),
            r.positions() == initial(k as nat),
    ;
}

impl<'t, T> Chooseable<'t, T> for [T] {
    open spec fn elements(&self) -> Seq<T> {
        self@
    }

    fn choose_k(&'t self, k: usize) -> (r: Choose<'t, T>) {
        Choose::new(self, k)
    }
}

} // verus!
