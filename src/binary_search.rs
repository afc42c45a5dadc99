use vstd::prelude::*;
use crate::treap::{count_less, lemma_count_less_boundary, sorted};

verus! {

/// How many elements of `s` are at most `t`.
pub open spec fn count_at_most(s: Seq<i64>, t: i64) -> nat
    decreases s.len(),
{
    if s.len() == 0 {
        0
    } else {
        count_at_most(s.drop_last(), t) + if s.last() <= t { 1nat } else { 0nat }
    }
}

/// Where every element before index `r` is at most `t` and every one from `r`
/// on is greater, `r` counts the elements at most `t`.
pub proof fn lemma_count_at_most_boundary(s: Seq<i64>, t: i64, r: int)
    requires
        0 <= r <= s.len(),
        forall|i: int| 0 <= i < r ==> s[i] <= t,
        forall|i: int| r <= i < s.len() ==> s[i] > t,
    ensures
        count_at_most(s, t) == r,
    decreases s.len(),
{
    if s.len() > 0 {
        let d = s.drop_last();
        if r == s.len() {
            lemma_count_at_most_boundary(d, t, r - 1);
        } else {
            lemma_count_at_most_boundary(d, t, r);
        }
    }
}

/// Binary search over a sorted slice.
pub trait BinarySearchExt<T> {
    /// The elements are in ascending order.
    spec fn ascending(&self) -> bool;

    /// Number of elements less than `x`.
    spec fn count_below(&self, x: T) -> nat;

    /// Number of elements not greater than `x`.
    spec fn count_up_to(&self, x: T) -> nat;

    /// Index of the first element that is not less than `x`.
    fn lower_bound(&self, x: &T) -> (r: usize)
        requires
            self.ascending(),
        ensures
            r == self.count_below(*x),
    ;

    /// Index of the first element that is greater than `x`.
    fn upper_bound(&self, x: &T) -> (r: usize)
        requires
            self.ascending(),
        ensures
            r == self.count_up_to(*x),
    ;
}

impl BinarySearchExt<i64> for [i64] {
    open spec fn ascending(&self) -> bool {
        sorted(self@)
    }

    open spec fn count_below(&self, x: i64) -> nat {
        count_less(self@, x)
    }

    open spec fn count_up_to(&self, x: i64) -> nat {
        count_at_most(self@, x)
    }

    fn lower_bound(&self, x: &i64) -> (r: usize) {
        let mut ng: usize = 0;
        let mut ok: usize = self.len();
        while ng < ok
            invariant
                0 <= ng <= ok <= self@.len(),
                sorted(self@),
                forall|i: int| 0 <= i < ng ==> self@[i] < *x,
                forall|i: int| ok <= i < self@.len() ==> self@[i] >= *x,
            decreases ok - ng,
        {
            let mid = ng + (ok - ng) / 2;
            if self[mid] >= *x {
                ok = mid;
            } else {
                ng = mid + 1;
            }
        }
        proof { lemma_count_less_boundary(self@, *x, ok as int); }
        ok
    }

    fn upper_bound(&self, x: &i64) -> (r: usize) {
        let mut ng: usize = 0;
        let mut ok: usize = self.len();
        while ng < ok
            invariant
                0 <= ng <= ok <= self@.len(),
                sorted(self@),
                forall|i: int| 0 <= i < ng ==> self@[i] <= *x,
                forall|i: int| ok <= i < self@.len() ==> self@[i] > *x,
            decreases ok - ng,
        {
            let mid = ng + (ok - ng) / 2;
            if self[mid] > *x {
                ok = mid;
            } else {
                ng = mid + 1;
            }
        }
        proof { lemma_count_at_most_boundary(self@, *x, ok as int); }
        ok
    }
}

/// A search for the boundary of a predicate over the integers between `ng`
/// and `ok`: `f` is expected to hold at `ok`, fail at `ng`, and change only
/// once in between.
pub struct BinarySearch<F> {
    pub f: F,
    pub ok: i64,
    pub ng: i64,
}

/// `x` lies strictly between `a` and `b`.
pub open spec fn strictly_between(x: i64, a: i64, b: i64) -> bool {
    (a < x < b) || (b < x < a)
}

impl<F: Fn(i64) -> bool> BinarySearch<F> {
    /// Narrows `ok` and `ng` until they are adjacent and returns `ok`. The
    /// result is the starting `ok` or a point where `f` held, and its
    /// neighbour on the side of the starting `ng` is that `ng` or a point
    /// where `f` failed. For an `f` that changes once between `ng` and `ok`,
    /// that is the point where it changes.
    pub fn search(&mut self) -> (r: i64)
        requires
            i64::MIN / 2 <= old(self).ok <= i64::MAX / 2,
            i64::MIN / 2 <= old(self).ng <= i64::MAX / 2,
            old(self).ok != old(self).ng,
            forall|i: i64| strictly_between(i, old(self).ok, old(self).ng) ==> (old(self).f).requires((i,)),
        ensures
            *final(self) == *old(self),
            r == old(self).ok || strictly_between(r, old(self).ok, old(self).ng),
            r == old(self).ok || (old(self).f).ensures((r,), true),
            old(self).ng < old(self).ok ==> (r - 1 == old(self).ng || (old(self).f).ensures((
                (r - 1) as i64,
            ), false)),
            old(self).ok < old(self).ng ==> (r + 1 == old(self).ng || (old(self).f).ensures((
                (r + 1) as i64,
            ), false)),
    {
        let ghost ok0 = self.ok;
        let ghost ng0 = self.ng;
        let mut ok = self.ok;
        let mut ng = self.ng;
        while ok - ng > 1 || ng - ok > 1
            invariant
                ok != ng,
                ok == ok0 || strictly_between(ok, ok0, ng0),
                ng == ng0 || strictly_between(ng, ok0, ng0),
                ok0 < ng0 ==> ok < ng,
                ng0 < ok0 ==> ng < ok,
                ok == ok0 || (self.f).ensures((ok,), true),
                ng == ng0 || (self.f).ensures((ng,), false),
                i64::MIN / 2 <= ok0 <= i64::MAX / 2,
                i64::MIN / 2 <= ng0 <= i64::MAX / 2,
                forall|i: i64| strictly_between(i, ok0, ng0) ==> (self.f).requires((i,)),
            decreases if ok > ng { ok - ng } else { ng - ok },
        {
            let mid = (ng + ok) / 2;
            assert(strictly_between(mid, ok, ng));
            assert(strictly_between(mid, ok0, ng0));
            if (self.f)(mid) {
                ok = mid;
            } else {
                ng = mid;
            }
        }
        ok
    }
}

} // verus!
