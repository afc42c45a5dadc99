use vstd::prelude::*;

verus! {

/// How many entries of `s` equal `r`.
pub open spec fn count(s: Seq<int>, r: int) -> nat
    decreases s.len(),
{
    if s.len() == 0 {
        0
    } else {
        count(s.drop_last(), r) + if s.last() == r { 1nat } else { 0nat }
    }
}

/// `s` with every entry `b` replaced by `a`.
pub open spec fn redirect(s: Seq<int>, b: int, a: int) -> Seq<int> {
    Seq::new(s.len(), |i: int| if s[i] == b { a } else { s[i] })
}

proof fn lemma_count_two(s: Seq<int>, a: int, b: int)
    requires
        a != b,
    ensures
        count(s, a) + count(s, b) <= s.len(),
    decreases s.len(),
{
    if s.len() > 0 {
        lemma_count_two(s.drop_last(), a, b);
    }
}

proof fn lemma_count_redirect(s: Seq<int>, b: int, a: int, c: int)
    requires
        a != b,
    ensures
        count(redirect(s, b, a), a) == count(s, a) + count(s, b),
        c != a && c != b ==> count(redirect(s, b, a), c) == count(s, c),
    decreases s.len(),
{
    if s.len() > 0 {
        assert(redirect(s, b, a).drop_last() =~= redirect(s.drop_last(), b, a));
        lemma_count_redirect(s.drop_last(), b, a, c);
    }
}

proof fn lemma_count_identity(n: int, i: int)
    requires
        0 <= i < n,
    ensures
        count(Seq::new(n as nat, |j: int| j), i) == 1,
    decreases n,
{
    let s = Seq::new(n as nat, |j: int| j);
    assert(s.drop_last() =~= Seq::new((n - 1) as nat, |j: int| j));
    if i < n - 1 {
        lemma_count_identity(n - 1, i);
    } else {
        lemma_count_absent(s.drop_last(), i);
    }
}

proof fn lemma_count_absent(s: Seq<int>, r: int)
    requires
        forall|j: int| 0 <= j < s.len() ==> s[j] != r,
    ensures
        count(s, r) == 0,
    decreases s.len(),
{
    if s.len() > 0 {
        lemma_count_absent(s.drop_last(), r);
    }
}

/// Disjoint sets over `0..n`, with union by size and path compression.
pub struct UnionFind {
    size: Vec<usize>,
    par: Vec<usize>,
    /// The root of each element's tree.
    rep: Ghost<Seq<int>>,
    /// Grows strictly from each element to its parent.
    rank: Ghost<Seq<nat>>,
    /// An upper bound on every rank.
    bound: Ghost<nat>,
}

impl UnionFind {
    /// The representative of each element's set.
    pub closed spec fn reps(&self) -> Seq<int> {
        self.rep@
    }

    /// Number of elements.
    pub open spec fn n(&self) -> nat {
        self.reps().len()
    }

    /// `i` and `j` are in one set.
    pub open spec fn same(&self, i: int, j: int) -> bool {
        self.reps()[i] == self.reps()[j]
    }

    /// Number of elements in the set of `i`.
    pub open spec fn class_size(&self, i: int) -> nat {
        count(self.reps(), self.reps()[i])
    }

    /// How far the rank of `i` lies below the bound on all ranks.
    pub closed spec fn height_above(&self, i: int) -> int {
        self.bound@ - self.rank@[i]
    }

    /// The ghost ranks and their bound are those of `other`.
    pub closed spec fn ranks_kept(&self, other: Self) -> bool {
        self.rank == other.rank && self.bound == other.bound
    }

    /// `i` is the root of its tree.
    pub closed spec fn is_root(&self, i: int) -> bool {
        self.par@[i] == i
    }

    /// The links of element `i` agree with the ghost representatives, ranks
    /// and sizes.
    pub closed spec fn node_ok(&self, i: int) -> bool {
        let n = self.par@.len();
        let p = self.par@[i] as int;
        let r = self.rep@[i];
        &&& 0 <= r < n
        &&& p < n
        &&& self.par@[r] == r
        &&& self.rep@[p] == r
        &&& (p == i ==> r == i)
        &&& (p != i ==> self.rank@[p] > self.rank@[i])
        &&& (r != i ==> self.rank@[r] > self.rank@[i])
        &&& self.rank@[i] <= self.bound@
        &&& (p == i ==> self.size@[i] == count(self.rep@, i))
    }

    pub closed spec fn well_formed(&self) -> bool {
        let n = self.par@.len();
        &&& self.size@.len() == n
        &&& self.rep@.len() == n
        &&& self.rank@.len() == n
        &&& forall|i: int| 0 <= i < n ==> #[trigger] self.node_ok(i)
    }

    /// `n` singleton sets.
    pub fn new(n: usize) -> (uf: Self)
        ensures
            uf.well_formed(),
            uf.n() == n,
            forall|i: int| 0 <= i < n ==> #[trigger] uf.reps()[i] == i,
    {
        let mut size: Vec<usize> = Vec::new();
        let mut par: Vec<usize> = Vec::new();
        let mut i: usize = 0;
        while i < n
            invariant
                i <= n,
                size@.len() == i,
                par@.len() == i,
                forall|j: int| 0 <= j < i ==> par@[j] == j && size@[j] == 1,
            decreases n - i,
        {
            par.push(i);
            size.push(1);
            i = i + 1;
        }
        let ghost rep = Seq::new(n as nat, |j: int| j);
        let uf = Self {
            size,
            par,
            rep: Ghost(rep),
            rank: Ghost(Seq::new(n as nat, |j: int| 0nat)),
            bound: Ghost(0),
        };
        assert forall|j: int| 0 <= j < n implies uf.size@[j] == count(rep, j) by {
            lemma_count_identity(n as int, j);
        }
        uf
    }

    /// Whether `x` and `y` are in one set.
    pub fn is_same(&mut self, x: usize, y: usize) -> (r: bool)
        requires
            old(self).well_formed(),
            x < old(self).n(),
            y < old(self).n(),
        ensures
            final(self).well_formed(),
            final(self).n() == old(self).n(),
            final(self).reps() == old(self).reps(),
            r == old(self).same(x as int, y as int),
    {
        let a = self.find_root(x);
        let b = self.find_root(y);
        a == b
    }

    /// The representative of the set of `x`; compresses the path from `x`.
    pub fn find_root(&mut self, x: usize) -> (r: usize)
        requires
            old(self).well_formed(),
            x < old(self).n(),
        ensures
            final(self).well_formed(),
            final(self).n() == old(self).n(),
            final(self).reps() == old(self).reps(),
            final(self).ranks_kept(*old(self)),
            r == old(self).reps()[x as int],
            r < final(self).n(),
            final(self).is_root(r as int),
        decreases old(self).height_above(x as int),
    {
        proof {
            assert(self.node_ok(x as int));
        }
        if x != self.par[x] {
            let p = self.par[x];
            let ghost r0 = self.rep@[x as int];
            proof {
                assert(self.node_ok(p as int));
                assert(r0 != x);
            }
            let r = self.find_root(p);
            let ghost mid = *self;
            self.par.set(x, r);
            proof {
                assert(mid.node_ok(x as int));
                assert(mid.node_ok(r as int));
                assert forall|i: int| 0 <= i < self.n() implies #[trigger] self.node_ok(i) by {
                    assert(mid.node_ok(i));
                    assert(self.par@[i] == if i == x { r } else { mid.par@[i] });
                    if i != x {
                        assert(mid.node_ok(mid.rep@[i]));
                    }
                }
            }
        }
        proof {
            assert(self.node_ok(x as int));
        }
        self.par[x]
    }

    /// Joins the sets of `x` and `y`; false when they were one set already.
    pub fn unite(&mut self, x: usize, y: usize) -> (r: bool)
        requires
            old(self).well_formed(),
            x < old(self).n(),
            y < old(self).n(),
        ensures
            final(self).well_formed(),
            final(self).n() == old(self).n(),
            r == !old(self).same(x as int, y as int),
            !r ==> final(self).reps() == old(self).reps(),
            r ==> {
                let rx = old(self).reps()[x as int];
                let ry = old(self).reps()[y as int];
                ||| final(self).reps() == redirect(old(self).reps(), rx, ry)
                ||| final(self).reps() == redirect(old(self).reps(), ry, rx)
            },
    {
        let a = self.find_root(x);
        let b = self.find_root(y);
        proof {
            assert(self.node_ok(x as int));
            assert(self.node_ok(a as int));
        }
        if a == b {
            return false;
        }
        if self.size[a] > self.size[b] {
            self.link(b, a);
        } else {
            self.link(a, b);
        }
        true
    }

    /// Hangs the root `b` under the root `a`.
    fn link(&mut self, b: usize, a: usize)
        requires
            old(self).well_formed(),
            a < old(self).n(),
            b < old(self).n(),
            a != b,
            old(self).par@[a as int] == a,
            old(self).par@[b as int] == b,
        ensures
            final(self).well_formed(),
            final(self).n() == old(self).n(),
            final(self).reps() == redirect(old(self).reps(), b as int, a as int),
    {
        let ghost old_rep = self.rep@;
        let ghost old_rank = self.rank@;
        let ghost old_self = *self;
        proof {
            assert(self.node_ok(a as int));
            assert(self.node_ok(b as int));
            lemma_count_two(old_rep, a as int, b as int);
            assert(old_rep[a as int] == a && old_rep[b as int] == b);
        }
        let n = self.par.len();
        assert(self.size@[a as int] + self.size@[b as int] <= n);
        let s = self.size[a] + self.size[b];
        self.size.set(a, s);
        self.par.set(b, a);
        let ghost new_rank_a: nat = if old_rank[a as int] > old_rank[b as int] {
            old_rank[a as int]
        } else {
            old_rank[b as int] + 1
        };
        self.rep = Ghost(redirect(old_rep, b as int, a as int));
        self.rank = Ghost(old_rank.update(a as int, new_rank_a));
        self.bound = Ghost(if self.bound@ > new_rank_a { self.bound@ } else { new_rank_a });
        proof {
            let n = self.n();
            assert forall|i: int| 0 <= i < n implies #[trigger] self.node_ok(i) by {
                assert(old_self.node_ok(i));
                assert(old_self.node_ok(old_rep[i]));
                assert(old_self.node_ok(old_self.par@[i] as int));
                lemma_count_redirect(old_rep, b as int, a as int, i);
            }
        }
    }

    /// Number of elements in the set of `x`.
    pub fn size(&mut self, x: usize) -> (r: usize)
        requires
            old(self).well_formed(),
            x < old(self).n(),
        ensures
            final(self).well_formed(),
            final(self).n() == old(self).n(),
            final(self).reps() == old(self).reps(),
            r == old(self).class_size(x as int),
    {
        let root = self.find_root(x);
        proof {
            assert(self.node_ok(root as int));
        }
        self.size[root]
    }
}

} // verus!
