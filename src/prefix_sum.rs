use vstd::prelude::*;

verus! {

/// Sum of the first `n` elements of `s`.
pub open spec fn psum(s: Seq<i64>, n: int) -> int
    decreases n,
{
    if n <= 0 {
        0
    } else {
        psum(s, n - 1) + s[n - 1]
    }
}

/// Sum of `s[y][x]` over the rows before `y` and the columns before `x`.
pub open spec fn psum2(s: Seq<Seq<i64>>, y: int, x: int) -> int
    decreases y,
{
    if y <= 0 {
        0
    } else {
        psum2(s, y - 1, x) + psum(s[y - 1], x)
    }
}

/// Sum over the rows `y1..y2` and the columns before `x`.
pub open spec fn band(s: Seq<Seq<i64>>, y1: int, y2: int, x: int) -> int {
    psum2(s, y2, x) - psum2(s, y1, x)
}

/// `v` fits in an `i64`.
pub open spec fn fits(v: int) -> bool {
    i64::MIN <= v <= i64::MAX
}

/// Every row of `s` has `w` columns.
pub open spec fn rectangular(s: Seq<Seq<i64>>, w: int) -> bool {
    forall|y: int| 0 <= y < s.len() ==> #[trigger] s[y].len() == w
}

/// All sums that building a 2D table over `s` computes fit in an `i64`.
pub open spec fn grid_sums_fit(s: Seq<Seq<i64>>, h: int, w: int) -> bool {
    &&& forall|y: int, x: int| 0 <= y <= h && 0 <= x <= w ==> fits(#[trigger] psum2(s, y, x))
    &&& forall|y: int, x: int| 0 <= y < h && 0 <= x <= w ==> fits(#[trigger] psum(s[y], x))
}

proof fn lemma_psum_zeros(s: Seq<i64>, n: int)
    requires
        0 <= n <= s.len(),
        forall|i: int| 0 <= i < s.len() ==> s[i] == 0,
    ensures
        psum(s, n) == 0,
    decreases n,
{
    if n > 0 {
        lemma_psum_zeros(s, n - 1);
    }
}

fn zeros(n: usize) -> (r: Vec<i64>)
    ensures
        r@.len() == n,
        forall|i: int| 0 <= i < n ==> r@[i] == 0,
{
    let mut r: Vec<i64> = Vec::new();
    let mut i: usize = 0;
    while i < n
        invariant
            i <= n,
            r@.len() == i,
            forall|j: int| 0 <= j < i ==> r@[j] == 0,
        decreases n - i,
    {
        r.push(0);
        i = i + 1;
    }
    r
}

/// One-dimensional prefix sums: after `build`, `query(l, r)` is the sum of
/// the elements at indices `l..r`.
pub struct PrefixSum {
    sum: Vec<i64>,
    vec: Vec<i64>,
    len: usize,
}

impl PrefixSum {
    /// The elements.
    pub closed spec fn values(&self) -> Seq<i64> {
        self.vec@
    }

    /// The table of prefix sums, as last built.
    pub closed spec fn sums(&self) -> Seq<i64> {
        self.sum@
    }

    pub closed spec fn well_formed(&self) -> bool {
        &&& self.vec@.len() == self.len
        &&& self.sum@.len() == self.len + 1
    }

    /// The table holds the prefix sums of the current elements.
    pub open spec fn built(&self) -> bool {
        &&& self.well_formed()
        &&& forall|i: int| 0 <= i <= self.values().len() ==> self.sums()[i] == psum(self.values(), i)
    }

    /// A table over `s`, built.
    pub fn from(s: Vec<i64>) -> (r: Self)
        requires
            s@.len() < usize::MAX,
            forall|i: int| 0 <= i <= s@.len() ==> fits(#[trigger] psum(s@, i)),
        ensures
            r.built(),
            r.values() == s@,
    {
        let len = s.len();
        let mut slf = Self { sum: zeros(len + 1), vec: s, len };
        slf.build();
        slf
    }

    /// A table over `len` zeros.
    pub fn new(len: usize) -> (r: Self)
        requires
            len < usize::MAX,
        ensures
            r.built(),
            r.values() == Seq::new(len as nat, |i: int| 0i64),
    {
        let r = Self { sum: zeros(len + 1), vec: zeros(len), len };
        assert(r.values() =~= Seq::new(len as nat, |i: int| 0i64));
        proof {
            assert forall|i: int| 0 <= i <= r.values().len() implies r.sums()[i] == psum(r.values(), i) by {
                lemma_psum_zeros(r.values(), i);
            }
        }
        r
    }

    /// Adds `element` to the element at index `i`; the table is left as it was.
    pub fn add(&mut self, i: usize, element: i64)
        requires
            old(self).well_formed(),
            i < old(self).values().len(),
            fits(old(self).values()[i as int] + element),
        ensures
            final(self).well_formed(),
            final(self).values() == old(self).values().update(i as int, (old(self).values()[i as int] + element) as i64),
            final(self).sums() == old(self).sums(),
    {
        let v = self.vec[i] + element;
        self.vec.set(i, v);
    }

    /// Recomputes the table from the current elements.
    pub fn build(&mut self)
        requires
            old(self).well_formed(),
            forall|i: int| 0 <= i <= old(self).values().len() ==> fits(#[trigger] psum(old(self).values(), i)),
        ensures
            final(self).built(),
            final(self).values() == old(self).values(),
    {
        let ghost s = self.vec@;
        assert(s == old(self).values());
        self.sum.set(0, 0);
        let mut i: usize = 0;
        while i < self.len
            invariant
                self.well_formed(),
                self.vec@ == s,
                i <= self.len,
                forall|j: int| 0 <= j <= s.len() ==> fits(#[trigger] psum(s, j)),
                forall|j: int| 0 <= j <= i ==> self.sum@[j] == psum(s, j),
            decreases self.len - i,
        {
            assert(fits(psum(s, i + 1)));
            assert(psum(s, i + 1) == psum(s, i as int) + s[i as int]);
            let v = self.sum[i] + self.vec[i];
            self.sum.set(i + 1, v);
            i = i + 1;
        }
    }

    /// Sum of the elements at indices `l..r`.
    pub fn query(&self, l: usize, r: usize) -> (res: i64)
        requires
            self.built(),
            l <= r <= self.values().len(),
            fits(psum(self.values(), r as int) - psum(self.values(), l as int)),
        ensures
            res == psum(self.values(), r as int) - psum(self.values(), l as int),
    {
        self.sum[r] - self.sum[l]
    }
}

/// The rows of a grid, as sequences.
pub open spec fn grid_view(g: Seq<Vec<i64>>) -> Seq<Seq<i64>> {
    g.map_values(|r: Vec<i64>| r@)
}

proof fn lemma_psum2_zeros(s: Seq<Seq<i64>>, y: int, x: int)
    requires
        0 <= y <= s.len(),
        forall|i: int, j: int| 0 <= i < s.len() && 0 <= j < s[i].len() ==> s[i][j] == 0,
        forall|i: int| 0 <= i < s.len() ==> x <= #[trigger] s[i].len(),
        0 <= x,
    ensures
        psum2(s, y, x) == 0,
    decreases y,
{
    if y > 0 {
        lemma_psum2_zeros(s, y - 1, x);
        lemma_psum_zeros(s[y - 1].subrange(0, x), x);
        lemma_psum_prefix(s[y - 1], x, x);
    }
}

proof fn lemma_psum_prefix(s: Seq<i64>, n: int, m: int)
    requires
        0 <= n <= m <= s.len(),
    ensures
        psum(s.subrange(0, m), n) == psum(s, n),
    decreases n,
{
    if n > 0 {
        lemma_psum_prefix(s, n - 1, m);
    }
}

fn zero_grid(h: usize, w: usize) -> (r: Vec<Vec<i64>>)
    ensures
        r@.len() == h,
        forall|y: int| 0 <= y < h ==> (#[trigger] r@[y])@.len() == w,
        forall|y: int, x: int| 0 <= y < h && 0 <= x < w ==> r@[y]@[x] == 0,
{
    let mut r: Vec<Vec<i64>> = Vec::new();
    let mut i: usize = 0;
    while i < h
        invariant
            i <= h,
            r@.len() == i,
            forall|y: int| 0 <= y < i ==> (#[trigger] r@[y])@.len() == w,
            forall|y: int, x: int| 0 <= y < i && 0 <= x < w ==> r@[y]@[x] == 0,
        decreases h - i,
    {
        r.push(zeros(w));
        i = i + 1;
    }
    r
}

/// Two-dimensional prefix sums over an `h` by `w` grid indexed `[y][x]`:
/// after `build`, `query(x1, x2, y1, y2)` is the sum over the rows `y1..y2`
/// and the columns `x1..x2`.
pub struct PrefixSum2D {
    sum: Vec<Vec<i64>>,
    vec: Vec<Vec<i64>>,
    h: usize,
    w: usize,
}

impl PrefixSum2D {
    /// The grid.
    pub closed spec fn values(&self) -> Seq<Seq<i64>> {
        grid_view(self.vec@)
    }

    /// The table of prefix sums, as last built.
    pub closed spec fn sums(&self) -> Seq<Seq<i64>> {
        grid_view(self.sum@)
    }

    pub closed spec fn height(&self) -> nat {
        self.h as nat
    }

    pub closed spec fn width(&self) -> nat {
        self.w as nat
    }

    pub closed spec fn well_formed(&self) -> bool {
        &&& self.vec@.len() == self.h
        &&& self.sum@.len() == self.h + 1
        &&& self.w + 1 <= usize::MAX
        &&& forall|y: int| 0 <= y < self.h ==> (#[trigger] self.vec@[y])@.len() == self.w
        &&& forall|y: int| 0 <= y <= self.h ==> (#[trigger] self.sum@[y])@.len() == self.w + 1
        &&& forall|x: int| 0 <= x <= self.w ==> self.sum@[0]@[x] == 0
        &&& forall|y: int| 0 <= y <= self.h ==> (#[trigger] self.sum@[y])@[0] == 0
    }

    /// The table holds the prefix sums of the current grid.
    pub open spec fn built(&self) -> bool {
        &&& self.well_formed()
        &&& forall|y: int, x: int|
            0 <= y <= self.height() && 0 <= x <= self.width() ==> #[trigger] self.sums()[y][x]
                == psum2(self.values(), y, x)
    }

    /// A table over the grid `vec`, whose rows all have the length of the first.
    pub fn from(vec: Vec<Vec<i64>>) -> (r: Self)
        requires
            vec@.len() > 0,
            vec@.len() < usize::MAX,
            vec@[0]@.len() < usize::MAX,
            rectangular(grid_view(vec@), vec@[0]@.len() as int),
            grid_sums_fit(grid_view(vec@), vec@.len() as int, vec@[0]@.len() as int),
        ensures
            r.built(),
            r.values() == grid_view(vec@),
            r.height() == vec@.len(),
            r.width() == vec@[0]@.len(),
    {
        let h = vec.len();
        let w = vec[0].len();
        assert forall|y: int| 0 <= y < h implies (#[trigger] vec@[y])@.len() == w by {
            assert(grid_view(vec@)[y] == vec@[y]@);
        }
        let mut slf = Self { sum: zero_grid(h + 1, w + 1), vec, h, w };
        slf.build();
        slf
    }

    /// A table over an `h` by `w` grid of zeros.
    pub fn new(h: usize, w: usize) -> (r: Self)
        requires
            h < usize::MAX,
            w < usize::MAX,
        ensures
            r.built(),
            r.height() == h,
            r.width() == w,
            forall|y: int, x: int| 0 <= y < h && 0 <= x < w ==> r.values()[y][x] == 0,
            forall|y: int| 0 <= y < h ==> (#[trigger] r.values()[y]).len() == w,
            r.values().len() == h,
    {
        let r = Self { sum: zero_grid(h + 1, w + 1), vec: zero_grid(h, w), h, w };
        proof {
            let s = r.values();
            assert forall|y: int, x: int| 0 <= y <= h && 0 <= x <= w implies #[trigger] r.sums()[y][x]
                == psum2(s, y, x) by {
                lemma_psum2_zeros(s, y, x);
            }
        }
        r
    }

    /// Adds `element` to the cell at column `x` of row `y`; the table is left
    /// as it was.
    pub fn add(&mut self, x: usize, y: usize, element: i64)
        requires
            old(self).well_formed(),
            y < old(self).height(),
            x < old(self).width(),
            fits(old(self).values()[y as int][x as int] + element),
        ensures
            final(self).well_formed(),
            final(self).height() == old(self).height(),
            final(self).width() == old(self).width(),
            final(self).values() == old(self).values().update(
                y as int,
                old(self).values()[y as int].update(x as int, (old(self).values()[y as int][x as int] + element) as i64),
            ),
            final(self).sums() == old(self).sums(),
    {
        let v = self.vec[y][x] + element;
        self.vec[y].set(x, v);
        assert(self.values() =~= old(self).values().update(
            y as int,
            old(self).values()[y as int].update(x as int, v),
        ));
        assert(self.sums() =~= old(self).sums());
    }

    /// Recomputes the table from the current grid.
    pub fn build(&mut self)
        requires
            old(self).well_formed(),
            grid_sums_fit(old(self).values(), old(self).height() as int, old(self).width() as int),
        ensures
            final(self).built(),
            final(self).values() == old(self).values(),
            final(self).height() == old(self).height(),
            final(self).width() == old(self).width(),
    {
        let ghost s = self.values();
        let ghost h0 = self.h;
        let ghost w0 = self.w;
        let mut y: usize = 0;
        while y < self.h
            invariant
                self.h == h0,
                self.w == w0,
                self.well_formed(),
                self.values() == s,
                s.len() == self.h,
                forall|i: int| 0 <= i < self.h ==> (#[trigger] s[i]).len() == self.w,
                y <= self.h,
                grid_sums_fit(s, self.h as int, self.w as int),
                forall|i: int, x: int| 0 <= i <= y && 0 <= x <= self.w ==> #[trigger] self.sum@[i]@[x]
                    == psum2(s, i, x),
            decreases self.h - y,
        {
            proof {
                assert(psum2(s, y + 1, 0) == psum2(s, y as int, 0) + psum(s[y as int], 0));
                assert(self.sum@[y as int]@[0] == psum2(s, y as int, 0));
                assert(self.sum@[y + 1]@[0] == 0);
            }
            let mut x: usize = 0;
            while x < self.w
                invariant
                    self.h == h0,
                    self.w == w0,
                    self.well_formed(),
                    self.values() == s,
                    s.len() == self.h,
                    forall|i: int| 0 <= i < self.h ==> (#[trigger] s[i]).len() == self.w,
                    y < self.h,
                    x <= self.w,
                    grid_sums_fit(s, self.h as int, self.w as int),
                    forall|i: int, c: int| 0 <= i <= y && 0 <= c <= self.w ==> #[trigger] self.sum@[i]@[c]
                        == psum2(s, i, c),
                    forall|c: int| 0 <= c <= x ==> #[trigger] self.sum@[y + 1]@[c] == psum2(s, y + 1, c),
                decreases self.w - x,
            {
                proof {
                    assert(s[y as int] == self.vec@[y as int]@);
                    assert(psum2(s, y + 1, x as int) == psum2(s, y as int, x as int) + psum(s[y as int], x as int));
                    assert(psum2(s, y + 1, x + 1) == psum2(s, y as int, x + 1) + psum(s[y as int], x + 1));
                    assert(psum(s[y as int], x + 1) == psum(s[y as int], x as int) + s[y as int][x as int]);
                    assert(fits(psum(s[y as int], x as int)));
                    assert(fits(psum(s[y as int], x + 1)));
                    assert(fits(psum2(s, y + 1, x + 1)));
                }
                let d = self.sum[y + 1][x] - self.sum[y][x];
                let e = d + self.vec[y][x];
                let v = e + self.sum[y][x + 1];
                let ghost before = self.sum@;
                self.sum[y + 1].set(x + 1, v);
                proof {
                    assert forall|i: int| 0 <= i <= self.h implies (#[trigger] self.sum@[i])@.len() == self.w + 1 by {
                        if i != y + 1 {
                            assert(self.sum@[i] == before[i]);
                        }
                    }
                    assert forall|i: int, c: int| 0 <= i <= y && 0 <= c <= self.w implies #[trigger] self.sum@[i]@[c]
                        == psum2(s, i, c) by {
                        assert(self.sum@[i] == before[i]);
                    }
                    assert(self.values() =~= s);
                }
                x = x + 1;
            }
            y = y + 1;
        }
        assert(self.values() == s);
        assert forall|i: int, c: int| 0 <= i <= self.height() && 0 <= c <= self.width() implies #[trigger] self.sums()[i][c]
            == psum2(self.values(), i, c) by {
            assert(self.sums()[i] == self.sum@[i]@);
        }
    }

    /// Sum over the rows `y1..y2` and the columns `x1..x2`.
    pub fn query(&self, x1: usize, x2: usize, y1: usize, y2: usize) -> (r: i64)
        requires
            self.built(),
            y1 <= self.height(),
            y2 <= self.height(),
            x1 <= self.width(),
            x2 <= self.width(),
            fits(band(self.values(), y1 as int, y2 as int, x2 as int)),
            fits(band(self.values(), y1 as int, y2 as int, x1 as int)),
            fits(band(self.values(), y1 as int, y2 as int, x2 as int) - band(self.values(), y1 as int, y2 as int, x1 as int)),
        ensures
            r == band(self.values(), y1 as int, y2 as int, x2 as int) - band(self.values(), y1 as int, y2 as int, x1 as int),
    {
        assert(self.sums()[y2 as int][x2 as int] == self.sum@[y2 as int]@[x2 as int]);
        assert(self.sums()[y1 as int][x2 as int] == self.sum@[y1 as int]@[x2 as int]);
        assert(self.sums()[y2 as int][x1 as int] == self.sum@[y2 as int]@[x1 as int]);
        assert(self.sums()[y1 as int][x1 as int] == self.sum@[y1 as int]@[x1 as int]);
        let a = self.sum[y2][x2] - self.sum[y1][x2];
        let b = self.sum[y2][x1] - self.sum[y1][x1];
        a - b
    }
}

} // verus!
