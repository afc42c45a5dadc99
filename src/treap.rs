use vstd::prelude::*;

verus! {

/// An optional, exclusively owned subtree.
pub type Link<T> = Option<Box<Node<T>>>;

/// One element of a treap together with the subtree rooted at it.
#[derive(Debug)]
pub struct Node<T> {
    element: T,
    priority: i64,
    left: Link<T>,
    right: Link<T>,
    len: usize,
}

/// The elements of a subtree, in order.
pub closed spec fn seq_of<T>(link: Link<T>) -> Seq<T>
    decreases link,
{
    match link {
        None => Seq::empty(),
        Some(n) => seq_of(n.left) + seq![n.element] + seq_of(n.right),
    }
}

/// The element and priority at the root of `link`.
pub closed spec fn root_of<T>(link: Link<T>) -> Option<(T, i64)> {
    match link {
        None => None,
        Some(n) => Some((n.element, n.priority)),
    }
}

/// The root of `link`, if any, has a priority of at most `p`.
pub closed spec fn prio_le<T>(link: Link<T>, p: i64) -> bool {
    match link {
        None => true,
        Some(n) => n.priority <= p,
    }
}

/// Size counters are exact and priorities form a max-heap, at every node.
pub closed spec fn wf<T>(link: Link<T>) -> bool
    decreases link,
{
    match link {
        None => true,
        Some(n) => {
            &&& wf(n.left)
            &&& wf(n.right)
            &&& n.len == 1 + seq_of(n.left).len() + seq_of(n.right).len()
            &&& prio_le(n.left, n.priority)
            &&& prio_le(n.right, n.priority)
        },
    }
}

/// Each node's size counter is one more than the sizes of its two subtrees.
pub closed spec fn sizes_exact<T>(link: Link<T>) -> bool
    decreases link,
{
    match link {
        None => true,
        Some(n) => {
            &&& sizes_exact(n.left)
            &&& sizes_exact(n.right)
            &&& n.len == 1 + size_of(n.left) + size_of(n.right)
        },
    }
}

/// The size counter of a subtree; 0 when it is absent.
pub closed spec fn size_of<T>(link: Link<T>) -> nat {
    match link {
        None => 0,
        Some(n) => n.len as nat,
    }
}

/// No node has a greater priority than its parent.
pub closed spec fn heap_ordered<T>(link: Link<T>) -> bool
    decreases link,
{
    match link {
        None => true,
        Some(n) => {
            &&& heap_ordered(n.left)
            &&& heap_ordered(n.right)
            &&& prio_le(n.left, n.priority)
            &&& prio_le(n.right, n.priority)
        },
    }
}

proof fn lemma_wf_parts<T>(link: Link<T>)
    requires
        wf(link),
    ensures
        sizes_exact(link),
        heap_ordered(link),
        size_of(link) == seq_of(link).len(),
    decreases link,
{
    if let Some(n) = link {
        lemma_wf_parts(n.left);
        lemma_wf_parts(n.right);
    }
}

/// Height of a subtree; an absent subtree has height 0.
pub closed spec fn height<T>(link: Link<T>) -> nat
    decreases link,
{
    match link {
        None => 0,
        Some(n) => {
            let a = height(n.left);
            let b = height(n.right);
            1 + if a > b { a } else { b }
        },
    }
}

proof fn lemma_height_le_len<T>(link: Link<T>)
    ensures
        height(link) <= seq_of(link).len(),
    decreases link,
{
    if let Some(n) = link {
        lemma_height_le_len(n.left);
        lemma_height_le_len(n.right);
    }
}

/// A well-formed subtree holds at most `usize::MAX` elements.
pub proof fn lemma_len_bounded<T>(link: Link<T>)
    requires
        wf(link),
    ensures
        seq_of(link).len() <= usize::MAX,
{
    if let Some(n) = link {
        assert(seq_of(link).len() == n.len);
    }
}

/// The (element, priority) pairs of a subtree's nodes, in order.
pub closed spec fn pairs_of<T>(link: Link<T>) -> Seq<(T, i64)>
    decreases link,
{
    match link {
        None => Seq::empty(),
        Some(n) => pairs_of(n.left) + seq![(n.element, n.priority)] + pairs_of(n.right),
    }
}

/// The left subtree of the root; `None` when the subtree is absent.
pub closed spec fn left_child<T>(link: Link<T>) -> Link<T> {
    match link {
        None => None,
        Some(n) => n.left,
    }
}

/// The right subtree of the root; `None` when the subtree is absent.
pub closed spec fn right_child<T>(link: Link<T>) -> Link<T> {
    match link {
        None => None,
        Some(n) => n.right,
    }
}

/// `n` as a subtree root, with its size counter recomputed from its children.
pub closed spec fn rebuilt<T>(n: Node<T>) -> Link<T> {
    Some(
        Box::new(
            Node {
                element: n.element,
                priority: n.priority,
                left: n.left,
                right: n.right,
                len: (size_of(n.left) + size_of(n.right) + 1) as usize,
            },
        ),
    )
}

/// A subtree of one node.
pub closed spec fn single<T>(element: T, priority: i64) -> Link<T> {
    Some(Box::new(Node { element, priority, left: None, right: None, len: 1 }))
}

/// The tree that merging `left` and `right` builds.
pub closed spec fn merged<T>(left: Link<T>, right: Link<T>) -> Link<T>
    decreases left, right,
{
    match (left, right) {
        (None, _) => right,
        (_, None) => left,
        (Some(l), Some(r)) => if l.priority > r.priority {
            rebuilt(
                Node {
                    element: l.element,
                    priority: l.priority,
                    left: l.left,
                    right: merged(l.right, Some(r)),
                    len: l.len,
                },
            )
        } else {
            rebuilt(
                Node {
                    element: r.element,
                    priority: r.priority,
                    left: merged(Some(l), r.left),
                    right: r.right,
                    len: r.len,
                },
            )
        },
    }
}

/// The two trees that splitting `node` at rank `k` builds.
pub closed spec fn split_at<T>(node: Link<T>, k: int) -> (Link<T>, Link<T>)
    decreases node,
{
    match node {
        None => (None, None),
        Some(n) => if k <= size_of(n.left) {
            let p = split_at(n.left, k);
            (
                p.0,
                rebuilt(
                    Node {
                        element: n.element,
                        priority: n.priority,
                        left: p.1,
                        right: n.right,
                        len: n.len,
                    },
                ),
            )
        } else {
            let p = split_at(n.right, k - size_of(n.left) - 1);
            (
                rebuilt(
                    Node {
                        element: n.element,
                        priority: n.priority,
                        left: n.left,
                        right: p.0,
                        len: n.len,
                    },
                ),
                p.1,
            )
        },
    }
}

/// The tree that inserting `element` with `priority` at rank `k` builds.
pub closed spec fn inserted_at<T>(node: Link<T>, k: int, element: T, priority: i64) -> Link<T> {
    let p = split_at(node, k);
    merged(merged(p.0, single(element, priority)), p.1)
}

/// The tree that removing the node at rank `k` builds.
pub closed spec fn erased_at<T>(node: Link<T>, k: int) -> Link<T> {
    let p = split_at(node, k);
    merged(p.0, split_at(p.1, 1).1)
}

/// An absent subtree is well formed.
pub proof fn lemma_absent_well_formed<T>()
    ensures
        wf::<T>(None),
        seq_of::<T>(None) == Seq::<T>::empty(),
        pairs_of::<T>(None) == Seq::<(T, i64)>::empty(),
{
}

proof fn lemma_pairs_len<T>(link: Link<T>)
    ensures
        pairs_of(link).len() == seq_of(link).len(),
    decreases link,
{
    if let Some(n) = link {
        lemma_pairs_len(n.left);
        lemma_pairs_len(n.right);
    }
}

proof fn lemma_height_zero<T>(link: Link<T>)
    ensures
        (height(link) == 0) == (seq_of(link).len() == 0),
{
}

impl<T> Node<T> {
    fn new(element: T, priority: i64) -> (r: Self)
        ensures
            r.element == element,
            r.priority == priority,
            r.left is None,
            r.right is None,
            r.len == 1,
    {
        Self { element, priority, left: None, right: None, len: 1 }
    }

    /// Number of elements in a subtree.
    pub fn len(node: &Link<T>) -> (r: usize)
        requires
            wf(*node),
        ensures
            r == seq_of(*node).len(),
            r == size_of(*node),
    {
        match node {
            None => 0,
            Some(n) => n.len,
        }
    }

    fn update(node: Box<Node<T>>) -> (r: Link<T>)
        requires
            wf(node.left),
            wf(node.right),
            seq_of(node.left).len() + seq_of(node.right).len() < usize::MAX,
        ensures
            r == rebuilt(*node),
            prio_le(node.left, node.priority) && prio_le(node.right, node.priority) ==> wf(r),
            seq_of(r) == seq_of(node.left) + seq![node.element] + seq_of(node.right),
            pairs_of(r) == pairs_of(node.left) + seq![(node.element, node.priority)] + pairs_of(
                node.right,
            ),
    {
        let mut node = node;
        node.len = Self::len(&node.left) + Self::len(&node.right) + 1;
        Some(node)
    }

    /// Joins `left` and `right`, in that order, into one subtree. The root of
    /// greater priority becomes the root and keeps its outer child; on equal
    /// priorities `right` wins. An absent side gives back the other side.
    pub fn merge(left: Link<T>, right: Link<T>) -> (r: Link<T>)
        requires
            wf(left),
            wf(right),
            seq_of(left).len() + seq_of(right).len() <= usize::MAX,
        ensures
            r == merged(left, right),
            wf(r),
            seq_of(r) == seq_of(left) + seq_of(right),
            pairs_of(r) == pairs_of(left) + pairs_of(right),
            forall|p: i64| prio_le(left, p) && prio_le(right, p) ==> #[trigger] prio_le(r, p),
            left is None ==> r == right,
            right is None ==> r == left,
            root_of(r) == match (root_of(left), root_of(right)) {
                (None, _) => root_of(right),
                (_, None) => root_of(left),
                (Some(a), Some(b)) => if a.1 > b.1 { root_of(left) } else { root_of(right) },
            },
            match (root_of(left), root_of(right)) {
                (Some(a), Some(b)) => if a.1 > b.1 {
                    left_child(r) == left_child(left)
                } else {
                    right_child(r) == right_child(right)
                },
                _ => true,
            },
        decreases seq_of(left).len() + seq_of(right).len(),
    {
        match (left, right) {
            (None, None) => None,
            (Some(left), None) => {
                assert(seq_of(Some(left)) + seq_of::<T>(None) =~= seq_of(Some(left)));
                assert(pairs_of(Some(left)) + pairs_of::<T>(None) =~= pairs_of(Some(left)));
                Some(left)
            },
            (None, Some(right)) => {
                assert(seq_of::<T>(None) + seq_of(Some(right)) =~= seq_of(Some(right)));
                assert(pairs_of::<T>(None) + pairs_of(Some(right)) =~= pairs_of(Some(right)));
                Some(right)
            },
            (Some(mut left), Some(mut right)) => {
                let ghost l0 = Some(left);
                let ghost r0 = Some(right);
                if left.priority > right.priority {
                    let lr = left.right.take();
                    let m = Self::merge(lr, Some(right));
                    left.right = m;
                    let r = Self::update(left);
                    assert(seq_of(r) =~= seq_of(l0) + seq_of(r0));
                    assert(pairs_of(r) =~= pairs_of(l0) + pairs_of(r0));
                    r
                } else {
                    let rl = right.left.take();
                    let m = Self::merge(Some(left), rl);
                    right.left = m;
                    let r = Self::update(right);
                    assert(seq_of(r) =~= seq_of(l0) + seq_of(r0));
                    assert(pairs_of(r) =~= pairs_of(l0) + pairs_of(r0));
                    r
                }
            },
        }
    }

    /// Splits a subtree into its first `k` elements and the rest.
    #[verifier::rlimit(60)]
    pub fn split(node: Link<T>, k: usize) -> (r: (Link<T>, Link<T>))
        requires
            wf(node),
            k <= seq_of(node).len(),
        ensures
            r == split_at(node, k as int),
            wf(r.0),
            wf(r.1),
            seq_of(r.0) == seq_of(node).take(k as int),
            seq_of(r.1) == seq_of(node).skip(k as int),
            pairs_of(r.0) == pairs_of(node).take(k as int),
            pairs_of(r.1) == pairs_of(node).skip(k as int),
            height(r.0) <= height(node),
            height(r.1) <= height(node),
            forall|p: i64| prio_le(node, p) ==> #[trigger] prio_le(r.0, p),
            forall|p: i64| prio_le(node, p) ==> #[trigger] prio_le(r.1, p),
        decreases node,
    {
        match node {
            None => {
                assert(seq_of::<T>(None).take(0) =~= Seq::empty());
                assert(seq_of::<T>(None).skip(0) =~= Seq::empty());
                assert(pairs_of::<T>(None).take(0) =~= Seq::empty());
                assert(pairs_of::<T>(None).skip(0) =~= Seq::empty());
                (None, None)
            },
            Some(mut n) => {
                let ghost s = seq_of(Some(n));
                let ghost ps = pairs_of(Some(n));
                proof {
                    lemma_wf_parts(Some(n));
                    lemma_wf_parts(n.left);
                    lemma_pairs_len(n.left);
                    lemma_pairs_len(n.right);
                }
                let left_len = Self::len(&n.left);
                if k <= left_len {
                    let l = n.left.take();
                    let (a, b) = Self::split(l, k);
                    proof {
                        lemma_pairs_len(a);
                        lemma_pairs_len(b);
                    }
                    n.left = b;
                    let r = Self::update(n);
                    assert(seq_of(a) =~= s.take(k as int));
                    assert(seq_of(r) =~= s.skip(k as int));
                    assert(pairs_of(a) =~= ps.take(k as int));
                    assert(pairs_of(r) =~= ps.skip(k as int));
                    (a, r)
                } else {
                    let rt = n.right.take();
                    let (a, b) = Self::split(rt, k - left_len - 1);
                    proof {
                        lemma_pairs_len(a);
                        lemma_pairs_len(b);
                    }
                    n.right = a;
                    let r = Self::update(n);
                    assert(seq_of(r) =~= s.take(k as int));
                    assert(seq_of(b) =~= s.skip(k as int));
                    assert(pairs_of(r) =~= ps.take(k as int));
                    assert(pairs_of(b) =~= ps.skip(k as int));
                    (r, b)
                }
            },
        }
    }

    /// The element at rank `k`, or `None` when `k` is out of range.
    pub fn get(node: &Link<T>, k: usize) -> (r: Option<&T>)
        requires
            wf(*node),
        ensures
            match r {
                Some(x) => k < seq_of(*node).len() && *x == seq_of(*node)[k as int],
                None => k >= seq_of(*node).len(),
            },
        decreases *node,
    {
        match node {
            None => None,
            Some(n) => {
                let left_len = Self::len(&n.left);
                if k == left_len {
                    Some(&n.element)
                } else if k < left_len {
                    Self::get(&n.left, k)
                } else {
                    Self::get(&n.right, k - left_len - 1)
                }
            },
        }
    }

    /// Inserts `element` with the given priority so that it lands at rank `k`.
    pub fn insert_at(node: Link<T>, k: usize, element: T, priority: i64) -> (r: Link<T>)
        requires
            wf(node),
            k <= seq_of(node).len(),
            seq_of(node).len() < usize::MAX,
        ensures
            r == inserted_at(node, k as int, element, priority),
            wf(r),
            seq_of(r) == seq_of(node).insert(k as int, element),
            pairs_of(r) == pairs_of(node).insert(k as int, (element, priority)),
    {
        let (left, right) = Self::split(node, k);
        let single: Link<T> = Some(Box::new(Node::new(element, priority)));
        proof {
            lemma_absent_well_formed::<T>();
            let e = seq_of::<T>(None);
            assert(seq_of(single) =~= e + seq![element] + e);
            assert(seq_of(single) =~= seq![element]);
            let pe = pairs_of::<T>(None);
            assert(pairs_of(single) =~= pe + seq![(element, priority)] + pe);
            assert(pairs_of(single) =~= seq![(element, priority)]);
        }
        let node2 = Self::merge(left, single);
        let r = Self::merge(node2, right);
        assert(seq_of(r) =~= seq_of(node).insert(k as int, element));
        assert(pairs_of(r) =~= pairs_of(node).insert(k as int, (element, priority)));
        r
    }

    /// Removes the element at rank `k`.
    pub fn erase_at(node: Link<T>, k: usize) -> (r: Link<T>)
        requires
            wf(node),
            k < seq_of(node).len(),
        ensures
            r == erased_at(node, k as int),
            wf(r),
            seq_of(r) == seq_of(node).remove(k as int),
            pairs_of(r) == pairs_of(node).remove(k as int),
            pairs_of(node).len() == seq_of(node).len(),
    {
        proof { lemma_pairs_len(node); }
        let (node1, node2) = Self::split(node, k);
        let (_, node3) = Self::split(node2, 1);
        let r = Self::merge(node1, node3);
        assert(seq_of(r) =~= seq_of(node).remove(k as int));
        assert(pairs_of(r) =~= pairs_of(node).remove(k as int));
        r
    }

    /// Height of a subtree: the number of nodes on its longest downward path.
    pub fn depth(node: &Link<T>) -> (r: usize)
        requires
            wf(*node),
        ensures
            r == height(*node),
        decreases *node,
    {
        proof {
            lemma_height_le_len(*node);
            lemma_len_bounded(*node);
        }
        match node {
            None => 0,
            Some(n) => {
                let a = Self::depth(&n.left);
                let b = Self::depth(&n.right);
                if a > b { a + 1 } else { b + 1 }
            },
        }
    }
}

/// Every element is at most each element that follows it.
pub open spec fn sorted(s: Seq<i64>) -> bool {
    forall|i: int, j: int| 0 <= i <= j < s.len() ==> s[i] <= s[j]
}

/// How many elements of `s` are strictly less than `t`.
pub open spec fn count_less(s: Seq<i64>, t: i64) -> nat
    decreases s.len(),
{
    if s.len() == 0 {
        0
    } else {
        count_less(s.drop_last(), t) + if s.last() < t { 1nat } else { 0nat }
    }
}

/// Where every element before index `r` is less than `t` and none from `r` on
/// is, `r` counts the elements less than `t`.
pub proof fn lemma_count_less_boundary(s: Seq<i64>, t: i64, r: int)
    requires
        0 <= r <= s.len(),
        forall|i: int| 0 <= i < r ==> s[i] < t,
        forall|i: int| r <= i < s.len() ==> s[i] >= t,
    ensures
        count_less(s, t) == r,
    decreases s.len(),
{
    if s.len() > 0 {
        let d = s.drop_last();
        if r == s.len() {
            lemma_count_less_boundary(d, t, r - 1);
        } else {
            lemma_count_less_boundary(d, t, r);
        }
    }
}

/// In a sorted sequence, the elements less than `t` are exactly the first
/// `count_less(s, t)` ones.
pub proof fn lemma_count_less_sorted(s: Seq<i64>, t: i64)
    requires
        sorted(s),
    ensures
        count_less(s, t) <= s.len(),
        forall|i: int| 0 <= i < count_less(s, t) ==> s[i] < t,
        forall|i: int| count_less(s, t) <= i < s.len() ==> s[i] >= t,
    decreases s.len(),
{
    if s.len() > 0 {
        let d = s.drop_last();
        assert(sorted(d));
        lemma_count_less_sorted(d, t);
        let c = count_less(d, t) as int;
        if s.last() < t {
            if c < d.len() {
                assert(d[c] <= s.last());
            }
            assert forall|i: int| 0 <= i < s.len() implies s[i] < t by {
                assert(s[i] <= s.last());
            }
        } else {
            assert forall|i: int| 0 <= i < c implies s[i] < t by {
                assert(s[i] == d[i]);
            }
            assert forall|i: int| c <= i < s.len() implies s[i] >= t by {
                if i < d.len() {
                    assert(s[i] == d[i]);
                }
            }
        }
    }
}

/// Splitting a sequence at any rank and joining the two parts gives the
/// sequence back: `merge` after `split` keeps a treap's contents.
pub proof fn lemma_split_merge<T>(s: Seq<T>, k: int)
    requires
        0 <= k <= s.len(),
    ensures
        s.take(k) + s.skip(k) == s,
{
    assert(s.take(k) + s.skip(k) =~= s);
}

/// Inserting `e` at its lower bound keeps a sorted sequence sorted, and the
/// lower bound of `e` afterwards is the same rank, which now holds `e`.
pub proof fn lemma_insert_at_lower_bound(s: Seq<i64>, e: i64)
    requires
        sorted(s),
    ensures
        ({
            let k = count_less(s, e) as int;
            let s2 = s.insert(k, e);
            &&& sorted(s2)
            &&& count_less(s2, e) == k
            &&& s2[k] == e
        }),
{
    lemma_count_less_sorted(s, e);
    let k = count_less(s, e) as int;
    let s2 = s.insert(k, e);
    assert forall|i: int, j: int| 0 <= i <= j < s2.len() implies s2[i] <= s2[j] by {
        if i < k && j > k {
            assert(s2[j] == s[j - 1]);
        } else if i > k {
            assert(s2[i] == s[i - 1] && s2[j] == s[j - 1]);
        } else if j < k {
        } else if i < k && j == k {
        } else if i == k && j > k {
            assert(s2[j] == s[j - 1]);
        }
    }
    lemma_count_less_boundary(s2, e, k);
}

impl Node<i64> {
    /// Rank of the first element that is not less than `element`: the number
    /// of elements less than it.
    pub fn lower_bound(node: &Link<i64>, element: &i64) -> (r: usize)
        requires
            wf(*node),
            sorted(seq_of(*node)),
        ensures
            r == count_less(seq_of(*node), *element),
            r <= seq_of(*node).len(),
            forall|i: int| 0 <= i < r ==> seq_of(*node)[i] < *element,
            forall|i: int| r <= i < seq_of(*node).len() ==> seq_of(*node)[i] >= *element,
        decreases *node,
    {
        let r = match node {
            None => 0,
            Some(n) => {
                let ghost s = seq_of(*node);
                let ghost sl = seq_of(n.left);
                let ghost sr = seq_of(n.right);
                assert(s == sl + seq![n.element] + sr);
                assert(sorted(sl)) by {
                    assert forall|i: int, j: int| 0 <= i <= j < sl.len() implies sl[i] <= sl[j] by {
                        assert(s[i] == sl[i] && s[j] == sl[j]);
                    }
                }
                assert(sorted(sr)) by {
                    assert forall|i: int, j: int| 0 <= i <= j < sr.len() implies sr[i] <= sr[j] by {
                        let o = sl.len() + 1;
                        assert(s[i + o] == sr[i] && s[j + o] == sr[j]);
                    }
                }
                if *element <= n.element {
                    let r = Self::lower_bound(&n.left, element);
                    assert forall|i: int| r <= i < s.len() implies s[i] >= *element by {
                        if i >= sl.len() {
                            assert(s[sl.len() as int] == n.element);
                        } else {
                            assert(s[i] == sl[i]);
                        }
                    }
                    r
                } else {
                    let a = Self::len(&n.left);
                    proof { lemma_len_bounded(*node); }
                    let b = Self::lower_bound(&n.right, element);
                    let r = a + b + 1;
                    assert forall|i: int| 0 <= i < r implies s[i] < *element by {
                        if i < sl.len() {
                            assert(s[i] == sl[i]);
                            assert(s[i] <= s[sl.len() as int]);
                        } else if i > sl.len() {
                            assert(s[i] == sr[i - sl.len() - 1]);
                        }
                    }
                    assert forall|i: int| r <= i < s.len() implies s[i] >= *element by {
                        assert(s[i] == sr[i - sl.len() - 1]);
                    }
                    r
                }
            },
        };
        proof { lemma_count_less_boundary(seq_of(*node), *element, r as int); }
        r
    }
}

/// An ordered multiset kept as a treap. Each inserted element gets a priority
/// from a linear congruential sequence with a fixed seed, so equal histories
/// give equal trees.
#[derive(Debug)]
pub struct TreapSet<T> {
    seed: i64,
    root: Link<T>,
}

pub const SEED: i64 = 0xdeadc0de;
pub const MULTIPLIER: i64 = 0x12345678deadc0d1;
pub const INCREMENT: i64 = 0x1551;

/// The priority that follows `seed`.
pub open spec fn next_seed(seed: i64) -> i64 {
    seed.wrapping_mul(MULTIPLIER).wrapping_add(INCREMENT)
}

impl<T> View for TreapSet<T> {
    type V = Seq<T>;

    /// The elements in ascending order of rank.
    closed spec fn view(&self) -> Seq<T> {
        seq_of(self.root)
    }
}

impl<T> TreapSet<T> {
    /// Every node's size counter is exact and no child has a greater priority
    /// than its parent.
    pub closed spec fn well_formed(&self) -> bool {
        wf(self.root)
    }

    /// At every node the size counter is one more than the sizes of the two
    /// subtrees.
    pub closed spec fn sizes_exact(&self) -> bool {
        sizes_exact(self.root)
    }

    /// The priorities form a max-heap: no node has a greater priority than
    /// its parent.
    pub closed spec fn heap_ordered(&self) -> bool {
        heap_ordered(self.root)
    }

    /// The (element, priority) pairs of the nodes, in ascending order of rank.
    pub closed spec fn pairs(&self) -> Seq<(T, i64)> {
        pairs_of(self.root)
    }

    /// Height of the tree.
    pub closed spec fn height(&self) -> nat {
        height(self.root)
    }

    /// The state of the priority sequence.
    pub closed spec fn seed(&self) -> i64 {
        self.seed
    }

    /// An empty set whose priorities start from the fixed seed `SEED`.
    pub fn new() -> (r: Self)
        ensures
            r.well_formed(),
            r@ == Seq::<T>::empty(),
            r.seed() == SEED,
    {
        Self { seed: SEED, root: None }
    }

    /// An empty set whose priorities start from `seed`.
    pub fn with_seed(seed: i64) -> (r: Self)
        ensures
            r.well_formed(),
            r@ == Seq::<T>::empty(),
            r.seed() == seed,
    {
        Self { seed, root: None }
    }

    /// Number of elements.
    pub fn len(&self) -> (r: usize)
        requires
            self.well_formed(),
        ensures
            r == self@.len(),
    {
        Node::len(&self.root)
    }

    /// Whether the set holds no element.
    pub fn is_empty(&self) -> (r: bool)
        requires
            self.well_formed(),
        ensures
            r == (self@.len() == 0),
    {
        self.len() == 0
    }

    /// Height of the tree; a measure of balance.
    pub fn depth(&mut self) -> (r: usize)
        requires
            old(self).well_formed(),
        ensures
            *final(self) == *old(self),
            r == old(self).height(),
            (r == 0) == (old(self)@.len() == 0),
            r <= old(self)@.len(),
    {
        proof {
            lemma_height_zero(self.root);
            lemma_height_le_len(self.root);
        }
        Node::depth(&self.root)
    }

    /// The element at rank `k`, or `None` when `k` is out of range.
    pub fn get(&self, k: usize) -> (r: Option<&T>)
        requires
            self.well_formed(),
        ensures
            match r {
                Some(x) => k < self@.len() && *x == self@[k as int],
                None => k >= self@.len(),
            },
    {
        Node::get(&self.root, k)
    }

    fn next(&mut self) -> (r: i64)
        ensures
            final(self).seed == next_seed(old(self).seed),
            final(self).root == old(self).root,
            r == final(self).seed,
    {
        self.seed = self.seed.wrapping_mul(MULTIPLIER).wrapping_add(INCREMENT);
        self.seed
    }
}

impl<T> Default for TreapSet<T> {
    fn default() -> (r: Self)
        ensures
            r.well_formed(),
            r@ == Seq::<T>::empty(),
    {
        Self::new()
    }
}

/// Two sets in the same state stay in the same state, node for node and
/// priority for priority, after the same insertion or removal: equal
/// histories give identical trees.
pub proof fn lemma_equal_histories(s1: TreapSet<i64>, s2: TreapSet<i64>, e: i64)
    requires
        s1 == s2,
    ensures
        s1.after_insert(e) == s2.after_insert(e),
        s1.after_remove(e) == s2.after_remove(e),
{
}

/// Every treap that the set's operations produce keeps exact size counters
/// at every node and heap-ordered priorities: both follow from the invariant
/// that every operation establishes and preserves.
pub proof fn lemma_invariants_hold<T>(t: &TreapSet<T>)
    requires
        t.well_formed(),
    ensures
        t.sizes_exact(),
        t.heap_ordered(),
{
    lemma_wf_parts(t.root);
}

/// The operations that compare elements, for `i64` elements. Verus learns
/// nothing of how an arbitrary `Ord` impl orders its values (that it is total
/// and transitive), which the ranks computed here rely on, so these are given
/// for one totally ordered type.
impl TreapSet<i64> {
    /// The set after `insert(e)`: the next priority of the sequence goes to a
    /// new node for `e`, placed at the rank of the first element not less
    /// than `e`.
    pub closed spec fn after_insert(self, e: i64) -> Self {
        let p = next_seed(self.seed);
        TreapSet {
            seed: p,
            root: inserted_at(self.root, count_less(seq_of(self.root), e) as int, e, p),
        }
    }

    /// The set after `remove(e)`: the node at the rank of the first element
    /// not less than `e` goes when it holds `e`; otherwise nothing changes.
    pub closed spec fn after_remove(self, e: i64) -> Self {
        if seq_of(self.root).contains(e) {
            TreapSet {
                seed: self.seed,
                root: erased_at(self.root, count_less(seq_of(self.root), e) as int),
            }
        } else {
            self
        }
    }

    /// Adds `element` in front of any equal elements already present; the new
    /// node takes the next priority of the sequence.
    pub fn insert(&mut self, element: i64)
        requires
            old(self).well_formed(),
            sorted(old(self)@),
            old(self)@.len() < usize::MAX,
        ensures
            *final(self) == old(self).after_insert(element),
            final(self).well_formed(),
            sorted(final(self)@),
            final(self)@ == old(self)@.insert(count_less(old(self)@, element) as int, element),
            final(self).pairs() == old(self).pairs().insert(
                count_less(old(self)@, element) as int,
                (element, next_seed(old(self).seed())),
            ),
            final(self).seed() == next_seed(old(self).seed()),
    {
        proof { lemma_insert_at_lower_bound(self@, element); }
        let k = Node::lower_bound(&self.root, &element);
        let root = self.root.take();
        let p = self.next();
        self.root = Node::insert_at(root, k, element, p);
    }

    /// Removes one occurrence of `element` if there is one, and says whether
    /// there was.
    pub fn remove(&mut self, element: &i64) -> (r: bool)
        requires
            old(self).well_formed(),
            sorted(old(self)@),
        ensures
            *final(self) == old(self).after_remove(*element),
            final(self).well_formed(),
            sorted(final(self)@),
            r == old(self)@.contains(*element),
            r ==> final(self)@ == old(self)@.remove(count_less(old(self)@, *element) as int),
            r ==> final(self).pairs() == old(self).pairs().remove(count_less(old(self)@, *element) as int),
            !r ==> final(self)@ == old(self)@,
            final(self).seed() == old(self).seed(),
    {
        let ghost s = self@;
        let k = Node::lower_bound(&self.root, element);
        let found = match Node::get(&self.root, k) {
            Some(x) => *x == *element,
            None => false,
        };
        if found {
            let root = self.root.take();
            proof { lemma_pairs_len(root); }
            self.root = Node::erase_at(root, k);
            assert(s.contains(*element));
            assert(sorted(self@)) by {
                assert forall|i: int, j: int| 0 <= i <= j < self@.len() implies self@[i] <= self@[j] by {
                    if i >= k {
                        assert(self@[i] == s[i + 1] && self@[j] == s[j + 1]);
                    } else if j >= k {
                        assert(self@[j] == s[j + 1]);
                    }
                }
            }
            true
        } else {
            assert(!s.contains(*element)) by {
                if s.contains(*element) {
                    let i = choose|i: int| 0 <= i < s.len() && s[i] == *element;
                    assert(s[k as int] <= s[i]);
                }
            }
            false
        }
    }

    /// Rank of the first element that is not less than `element`.
    pub fn lower_bound(&self, element: &i64) -> (r: usize)
        requires
            self.well_formed(),
            sorted(self@),
        ensures
            r == count_less(self@, *element),
    {
        Node::lower_bound(&self.root, element)
    }
}

} // verus!
