use vstd::prelude::*;
use crate::number::Number;
use crate::prefix_sum::{fits, grid_view, rectangular};

verus! {

/// `sum_{t < k} a[t] * b[t]`.
pub open spec fn dot(a: Seq<i64>, b: Seq<i64>, k: int) -> int
    decreases k,
{
    if k <= 0 {
        0
    } else {
        dot(a, b, k - 1) + a[k - 1] * b[k - 1]
    }
}

/// Column `j` of the grid `g`.
pub open spec fn column(g: Seq<Seq<i64>>, j: int) -> Seq<i64> {
    Seq::new(g.len(), |k: int| g[k][j])
}

/// Every partial sum and every product that multiplying row `a` by the
/// vector `b` over the first `n` entries computes fits in an `i64`.
pub open spec fn dot_fits(a: Seq<i64>, b: Seq<i64>, n: int) -> bool {
    &&& forall|k: int| 0 <= k <= n ==> fits(#[trigger] dot(a, b, k))
    &&& forall|k: int| 0 <= k < n ==> fits(a[k] * b[k])
}

/// A dense matrix of `h` rows and `w` columns.
#[derive(Debug, Clone, PartialEq)]
pub struct Matrix {
    h: usize,
    w: usize,
    v: Vec<Vec<i64>>,
}

impl Matrix {
    /// The entries, row by row.
    pub closed spec fn cells(&self) -> Seq<Seq<i64>> {
        grid_view(self.v@)
    }

    /// Number of rows.
    pub open spec fn rows(&self) -> nat {
        self.cells().len()
    }

    /// Number of columns.
    pub closed spec fn cols(&self) -> nat {
        self.w as nat
    }

    /// The stored row count matches the rows.
    pub closed spec fn dims_ok(&self) -> bool {
        self.v@.len() == self.h
    }

    /// At least one row, and every row has `cols()` entries.
    pub open spec fn well_formed(&self) -> bool {
        &&& self.dims_ok()
        &&& self.rows() > 0
        &&& rectangular(self.cells(), self.cols() as int)
    }

    /// The matrix whose rows are `v`; every row has the length of the first.
    pub fn new(v: Vec<Vec<i64>>) -> (r: Self)
        requires
            v@.len() > 0,
            rectangular(grid_view(v@), v@[0]@.len() as int),
        ensures
            r.well_formed(),
            r.cells() == grid_view(v@),
            r.rows() == v@.len(),
            r.cols() == v@[0]@.len(),
    {
        Self { h: v.len(), w: v[0].len(), v }
    }

    /// The `n` by `n` identity matrix.
    pub fn identity(n: usize) -> (r: Self)
        requires
            n > 0,
        ensures
            r.well_formed(),
            r.rows() == n,
            r.cols() == n,
            forall|i: int, j: int| 0 <= i < n && 0 <= j < n ==> #[trigger] r.cells()[i][j] == if i == j { 1i64 } else { 0i64 },
    {
        let mut v: Vec<Vec<i64>> = Vec::new();
        let mut i: usize = 0;
        while i < n
            invariant
                i <= n,
                v@.len() == i,
                forall|a: int| 0 <= a < i ==> (#[trigger] v@[a])@.len() == n,
                forall|a: int, b: int| 0 <= a < i && 0 <= b < n ==> #[trigger] v@[a]@[b] == if a == b { 1i64 } else { 0i64 },
            decreases n - i,
        {
            let mut row: Vec<i64> = Vec::new();
            let mut j: usize = 0;
            while j < n
                invariant
                    j <= n,
                    i < n,
                    row@.len() == j,
                    forall|b: int| 0 <= b < j ==> #[trigger] row@[b] == if i == b { 1i64 } else { 0i64 },
                decreases n - j,
            {
                if i == j {
                    row.push(i64::one());
                } else {
                    row.push(i64::zero());
                }
                j = j + 1;
            }
            v.push(row);
            i = i + 1;
        }
        assert(rectangular(grid_view(v@), n as int));
        Matrix::new(v)
    }

    /// The product of this matrix and the vector `rhs`, padded with zeros to
    /// the length of `rhs`.
    pub fn mul_vec(&mut self, rhs: Vec<i64>) -> (r: Vec<i64>)
        requires
            old(self).well_formed(),
            rhs@.len() >= old(self).rows(),
            rhs@.len() >= old(self).cols(),
            forall|i: int| 0 <= i < old(self).rows() ==> dot_fits(#[trigger] old(self).cells()[i], rhs@, old(self).cols() as int),
        ensures
            *final(self) == *old(self),
            r@.len() == rhs@.len(),
            forall|i: int| 0 <= i < old(self).rows() ==> #[trigger] r@[i] == dot(old(self).cells()[i], rhs@, old(self).cols() as int),
            forall|i: int| old(self).rows() <= i < rhs@.len() ==> #[trigger] r@[i] == 0,
    {
        let ghost m = self.cells();
        let mut v: Vec<i64> = Vec::new();
        let mut i: usize = 0;
        while i < self.h
            invariant
                self.well_formed(),
                m == self.cells(),
                i <= self.h,
                self.h <= rhs@.len(),
                self.w <= rhs@.len(),
                v@.len() == i,
                forall|a: int| 0 <= a < self.h ==> dot_fits(#[trigger] m[a], rhs@, self.w as int),
                forall|a: int| 0 <= a < i ==> #[trigger] v@[a] == dot(m[a], rhs@, self.w as int),
            decreases self.h - i,
        {
            assert(m[i as int] == self.v@[i as int]@);
            assert(m[i as int].len() == self.w);
            assert(dot_fits(m[i as int], rhs@, self.w as int));
            let mut acc: i64 = 0;
            let mut j: usize = 0;
            while j < self.w
                invariant
                    self.well_formed(),
                    m == self.cells(),
                    i < self.h,
                    self.w <= rhs@.len(),
                    j <= self.w,
                    m[i as int] == self.v@[i as int]@,
                    m[i as int].len() == self.w,
                    dot_fits(m[i as int], rhs@, self.w as int),
                    acc == dot(m[i as int], rhs@, j as int),
                decreases self.w - j,
            {
                assert(fits(dot(m[i as int], rhs@, j + 1)));
                assert(fits(m[i as int][j as int] * rhs@[j as int]));
                let p = self.v[i][j] * rhs[j];
                acc = acc + p;
                j = j + 1;
            }
            v.push(acc);
            i = i + 1;
        }
        while i < rhs.len()
            invariant
                self.h <= i <= rhs@.len(),
                v@.len() == i,
                forall|a: int| 0 <= a < self.h ==> #[trigger] v@[a] == dot(m[a], rhs@, self.w as int),
                forall|a: int| self.h <= a < i ==> #[trigger] v@[a] == 0,
            decreases rhs@.len() - i,
        {
            v.push(i64::zero());
            i = i + 1;
        }
        v
    }

    /// Adds `rhs`, entry by entry.
    pub fn add_assign(&mut self, rhs: Self)
        requires
            old(self).well_formed(),
            rhs.well_formed(),
            rhs.rows() == old(self).rows(),
            rhs.cols() == old(self).cols(),
            forall|i: int, j: int| 0 <= i < old(self).rows() && 0 <= j < old(self).cols() ==>
                fits(#[trigger] old(self).cells()[i][j] + rhs.cells()[i][j]),
        ensures
            final(self).well_formed(),
            final(self).rows() == old(self).rows(),
            final(self).cols() == old(self).cols(),
            forall|i: int, j: int| 0 <= i < old(self).rows() && 0 <= j < old(self).cols() ==>
                #[trigger] final(self).cells()[i][j] == old(self).cells()[i][j] + rhs.cells()[i][j],
    {
        self.combine(&rhs, true);
    }

    /// Subtracts `rhs`, entry by entry.
    pub fn sub_assign(&mut self, rhs: Self)
        requires
            old(self).well_formed(),
            rhs.well_formed(),
            rhs.rows() == old(self).rows(),
            rhs.cols() == old(self).cols(),
            forall|i: int, j: int| 0 <= i < old(self).rows() && 0 <= j < old(self).cols() ==>
                fits(#[trigger] old(self).cells()[i][j] - rhs.cells()[i][j]),
        ensures
            final(self).well_formed(),
            final(self).rows() == old(self).rows(),
            final(self).cols() == old(self).cols(),
            forall|i: int, j: int| 0 <= i < old(self).rows() && 0 <= j < old(self).cols() ==>
                #[trigger] final(self).cells()[i][j] == old(self).cells()[i][j] - rhs.cells()[i][j],
    {
        self.combine(&rhs, false);
    }

    fn combine(&mut self, rhs: &Self, plus: bool)
        requires
            old(self).well_formed(),
            rhs.well_formed(),
            rhs.rows() == old(self).rows(),
            rhs.cols() == old(self).cols(),
            forall|i: int, j: int| 0 <= i < old(self).rows() && 0 <= j < old(self).cols() ==>
                fits(#[trigger] old(self).cells()[i][j] + if plus { rhs.cells()[i][j] as int } else { -rhs.cells()[i][j] }),
        ensures
            final(self).well_formed(),
            final(self).rows() == old(self).rows(),
            final(self).cols() == old(self).cols(),
            forall|i: int, j: int| 0 <= i < old(self).rows() && 0 <= j < old(self).cols() ==>
                #[trigger] final(self).cells()[i][j] == old(self).cells()[i][j] + if plus { rhs.cells()[i][j] as int } else { -rhs.cells()[i][j] },
    {
        let ghost a = self.cells();
        let ghost b = rhs.cells();
        let ghost h0 = self.h;
        let ghost w0 = self.w;
        let mut i: usize = 0;
        while i < self.h
            invariant
                self.well_formed(),
                rhs.well_formed(),
                self.h == h0,
                self.w == w0,
                rhs.h == h0,
                rhs.w == w0,
                b == rhs.cells(),
                a.len() == h0,
                i <= h0,
                forall|y: int, x: int| 0 <= y < h0 && 0 <= x < w0 ==>
                    fits(#[trigger] a[y][x] + if plus { b[y][x] as int } else { -b[y][x] }),
                forall|y: int, x: int| 0 <= y < i && 0 <= x < w0 ==>
                    #[trigger] self.cells()[y][x] == a[y][x] + if plus { b[y][x] as int } else { -b[y][x] },
                forall|y: int| i <= y < h0 ==> #[trigger] self.cells()[y] == a[y],
            decreases h0 - i,
        {
            let mut j: usize = 0;
            while j < self.w
                invariant
                    self.well_formed(),
                    rhs.well_formed(),
                    self.h == h0,
                    self.w == w0,
                    rhs.h == h0,
                    rhs.w == w0,
                    b == rhs.cells(),
                    a.len() == h0,
                    i < h0,
                    j <= w0,
                    forall|y: int, x: int| 0 <= y < h0 && 0 <= x < w0 ==>
                        fits(#[trigger] a[y][x] + if plus { b[y][x] as int } else { -b[y][x] }),
                    forall|y: int, x: int| 0 <= y < i && 0 <= x < w0 ==>
                        #[trigger] self.cells()[y][x] == a[y][x] + if plus { b[y][x] as int } else { -b[y][x] },
                    forall|y: int| i < y < h0 ==> #[trigger] self.cells()[y] == a[y],
                    forall|x: int| 0 <= x < j ==>
                        #[trigger] self.cells()[i as int][x] == a[i as int][x] + if plus { b[i as int][x] as int } else { -b[i as int][x] },
                    forall|x: int| j <= x < w0 ==> #[trigger] self.cells()[i as int][x] == a[i as int][x],
                decreases w0 - j,
            {
                assert(self.cells()[i as int] == self.v@[i as int]@);
                assert(self.cells()[i as int].len() == w0);
                assert(b[i as int] == rhs.v@[i as int]@);
                assert(b[i as int].len() == w0);
                assert(fits(a[i as int][j as int] + if plus { b[i as int][j as int] as int } else { -b[i as int][j as int] }));
                let x = if plus { self.v[i][j] + rhs.v[i][j] } else { self.v[i][j] - rhs.v[i][j] };
                let ghost before = self.cells();
                self.v[i].set(j, x);
                proof {
                    assert forall|y: int| 0 <= y < h0 && y != i implies #[trigger] self.cells()[y] == before[y] by {
                        assert(self.cells()[y] == self.v@[y]@);
                    }
                    assert(self.cells()[i as int] == before[i as int].update(j as int, x));
                    assert(rectangular(self.cells(), w0 as int)) by {
                        assert forall|y: int| 0 <= y < self.cells().len() implies #[trigger] self.cells()[y].len() == w0 by {
                            if y != i {
                                assert(self.cells()[y] == before[y]);
                            }
                        }
                    }
                }
                j = j + 1;
            }
            i = i + 1;
        }
    }

    /// Replaces this matrix with its product with `rhs`.
    pub fn mul_assign(&mut self, rhs: Self)
        requires
            old(self).well_formed(),
            rhs.well_formed(),
            rhs.rows() == old(self).cols(),
            forall|i: int, j: int| 0 <= i < old(self).rows() && 0 <= j < rhs.cols() ==>
                #[trigger] dot_fits(old(self).cells()[i], column(rhs.cells(), j), old(self).cols() as int),
        ensures
            final(self).well_formed(),
            final(self).rows() == old(self).rows(),
            final(self).cols() == rhs.cols(),
            forall|i: int, j: int| 0 <= i < old(self).rows() && 0 <= j < rhs.cols() ==>
                #[trigger] final(self).cells()[i][j] == dot(old(self).cells()[i], column(rhs.cells(), j), old(self).cols() as int),
    {
        let ghost a = self.cells();
        let ghost b = rhs.cells();
        let mut v: Vec<Vec<i64>> = Vec::new();
        let mut i: usize = 0;
        while i < self.h
            invariant
                self.well_formed(),
                rhs.well_formed(),
                a == self.cells(),
                b == rhs.cells(),
                rhs.h == self.w,
                i <= self.h,
                v@.len() == i,
                forall|y: int| 0 <= y < i ==> (#[trigger] v@[y])@.len() == rhs.w,
                forall|y: int, x: int| 0 <= y < self.h && 0 <= x < rhs.w ==>
                    #[trigger] dot_fits(a[y], column(b, x), self.w as int),
                forall|y: int, x: int| 0 <= y < i && 0 <= x < rhs.w ==>
                    #[trigger] v@[y]@[x] == dot(a[y], column(b, x), self.w as int),
            decreases self.h - i,
        {
            assert(a[i as int] == self.v@[i as int]@);
            let mut row: Vec<i64> = Vec::new();
            let mut j: usize = 0;
            while j < rhs.w
                invariant
                    self.well_formed(),
                    rhs.well_formed(),
                    a == self.cells(),
                    b == rhs.cells(),
                    rhs.h == self.w,
                    i < self.h,
                    j <= rhs.w,
                    row@.len() == j,
                    a[i as int] == self.v@[i as int]@,
                    forall|y: int, x: int| 0 <= y < self.h && 0 <= x < rhs.w ==>
                        #[trigger] dot_fits(a[y], column(b, x), self.w as int),
                    forall|x: int| 0 <= x < j ==> #[trigger] row@[x] == dot(a[i as int], column(b, x), self.w as int),
                decreases rhs.w - j,
            {
                let ghost c = column(b, j as int);
                assert(dot_fits(a[i as int], c, self.w as int));
                let mut acc: i64 = 0;
                let mut k: usize = 0;
                while k < rhs.h
                    invariant
                        self.well_formed(),
                        rhs.well_formed(),
                        a == self.cells(),
                        b == rhs.cells(),
                        rhs.h == self.w,
                        i < self.h,
                        j < rhs.w,
                        k <= rhs.h,
                        a[i as int] == self.v@[i as int]@,
                        c == column(b, j as int),
                        dot_fits(a[i as int], c, self.w as int),
                        acc == dot(a[i as int], c, k as int),
                    decreases rhs.h - k,
                {
                    assert(a[i as int].len() == self.w);
                    assert(b[k as int] == rhs.v@[k as int]@);
                    assert(b[k as int].len() == rhs.w);
                    assert(c[k as int] == b[k as int][j as int]);
                    assert(fits(dot(a[i as int], c, k + 1)));
                    assert(fits(a[i as int][k as int] * c[k as int]));
                    let p = self.v[i][k] * rhs.v[k][j];
                    acc = acc + p;
                    k = k + 1;
                }
                row.push(acc);
                j = j + 1;
            }
            v.push(row);
            i = i + 1;
        }
        let ghost h0 = self.h;
        let ghost w0 = self.w;
        proof {
            assert forall|y: int| 0 <= y < grid_view(v@).len() implies #[trigger] grid_view(v@)[y].len() == rhs.w by {
                assert(grid_view(v@)[y] == v@[y]@);
            }
        }
        *self = Matrix::new(v);
        proof {
            assert forall|y: int, x: int| 0 <= y < h0 && 0 <= x < rhs.w implies
                #[trigger] self.cells()[y][x] == dot(a[y], column(b, x), w0 as int) by {
                assert(self.cells()[y] == v@[y]@);
            }
        }
    }
}

/// Entries of `a` and `b` can be added, entry by entry, without overflow.
pub open spec fn addable(a: Matrix, b: Matrix) -> bool {
    &&& a.well_formed()
    &&& b.well_formed()
    &&& b.rows() == a.rows()
    &&& b.cols() == a.cols()
    &&& forall|i: int, j: int| 0 <= i < a.rows() && 0 <= j < a.cols() ==>
        fits(#[trigger] a.cells()[i][j] + b.cells()[i][j])
}

/// Entries of `b` can be subtracted from those of `a` without overflow.
pub open spec fn subtractable(a: Matrix, b: Matrix) -> bool {
    &&& a.well_formed()
    &&& b.well_formed()
    &&& b.rows() == a.rows()
    &&& b.cols() == a.cols()
    &&& forall|i: int, j: int| 0 <= i < a.rows() && 0 <= j < a.cols() ==>
        fits(#[trigger] a.cells()[i][j] - b.cells()[i][j])
}

/// `a` times `b` is defined and computes no value outside `i64`.
pub open spec fn multipliable(a: Matrix, b: Matrix) -> bool {
    &&& a.well_formed()
    &&& b.well_formed()
    &&& b.rows() == a.cols()
    &&& forall|i: int, j: int| 0 <= i < a.rows() && 0 <= j < b.cols() ==>
        #[trigger] dot_fits(a.cells()[i], column(b.cells(), j), a.cols() as int)
}

impl core::ops::Add for Matrix {
    type Output = Matrix;

    fn add(self, rhs: Matrix) -> Matrix {
        let mut res = self;
        res.add_assign(rhs);
        res
    }
}

/// The operator's precondition. Its value is stated by `add_assign`, which
/// the operator calls: `obeys_add_spec` would claim the result equal to one
/// spec value, and spec code can neither build a `Matrix`, whose rows are
/// `Vec`s, nor show two `Vec`s with the same entries to be equal.
impl vstd::std_specs::ops::AddSpecImpl for Matrix {
    open spec fn obeys_add_spec() -> bool {
        false
    }

    open spec fn add_req(self, rhs: Matrix) -> bool {
        addable(self, rhs)
    }

    open spec fn add_spec(self, rhs: Matrix) -> Matrix {
        vstd::pervasive::arbitrary()
    }
}

impl core::ops::Sub for Matrix {
    type Output = Matrix;

    fn sub(self, rhs: Matrix) -> Matrix {
        let mut res = self;
        res.sub_assign(rhs);
        res
    }
}

/// The operator's precondition. Its value is stated by `sub_assign`, which
/// the operator calls: `obeys_sub_spec` would claim the result equal to one
/// spec value, and spec code can neither build a `Matrix`, whose rows are
/// `Vec`s, nor show two `Vec`s with the same entries to be equal.
impl vstd::std_specs::ops::SubSpecImpl for Matrix {
    open spec fn obeys_sub_spec() -> bool {
        false
    }

    open spec fn sub_req(self, rhs: Matrix) -> bool {
        subtractable(self, rhs)
    }

    open spec fn sub_spec(self, rhs: Matrix) -> Matrix {
        vstd::pervasive::arbitrary()
    }
}

impl core::ops::Mul for Matrix {
    type Output = Matrix;

    fn mul(self, rhs: Matrix) -> Matrix {
        let mut res = self;
        res.mul_assign(rhs);
        res
    }
}

/// The operator's precondition. Its value is stated by `mul_assign`, which
/// the operator calls: `obeys_mul_spec` would claim the result equal to one
/// spec value, and spec code can neither build a `Matrix`, whose rows are
/// `Vec`s, nor show two `Vec`s with the same entries to be equal.
impl vstd::std_specs::ops::MulSpecImpl for Matrix {
    open spec fn obeys_mul_spec() -> bool {
        false
    }

    open spec fn mul_req(self, rhs: Matrix) -> bool {
        multipliable(self, rhs)
    }

    open spec fn mul_spec(self, rhs: Matrix) -> Matrix {
        vstd::pervasive::arbitrary()
    }
}

} // verus!
