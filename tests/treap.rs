use algo_lib::treap::TreapSet;

#[test]
fn test_treap_set() {
    let mut treap = TreapSet::new();
    treap.insert(2);
    treap.insert(1);
    treap.insert(6);
    treap.insert(4);
    println!("{:?}", treap);
    assert_eq!(treap.get(0), Some(&1));
    assert_eq!(treap.get(1), Some(&2));
    assert_eq!(treap.get(2), Some(&4));
    assert_eq!(treap.get(3), Some(&6));
}

fn pseudo_random(state: &mut u64) -> i64 {
    *state = state.wrapping_mul(6364136223846793005).wrapping_add(1442695040888963407);
    ((*state >> 33) % 1_000_000_000) as i64
}

#[test]
fn test_treap_set_random() {
    let mut treap = TreapSet::new();
    let n = 1000;
    let mut state = 12345u64;
    let mut xs = (0..n).map(|_| pseudo_random(&mut state)).collect::<Vec<_>>();
    for x in xs.iter() {
        treap.insert(*x);
    }
    xs.sort_unstable();
    for i in 0..n {
        assert_eq!(treap.get(i), Some(&xs[i]));
    }
    assert_eq!(treap.get(n), None);
    let depth = treap.depth();
    assert!(depth >= 10);
    assert!(depth <= 60, "depth = {}", depth);
}

#[test]
fn treap_empty_set() {
    let mut treap: TreapSet<i64> = TreapSet::new();
    assert!(treap.is_empty());
    assert_eq!(treap.len(), 0);
    assert_eq!(treap.get(0), None);
    assert_eq!(treap.lower_bound(&5), 0);
    assert!(!treap.remove(&5));
    assert_eq!(treap.depth(), 0);
}

#[test]
fn treap_lower_bound_with_duplicates() {
    let mut treap = TreapSet::new();
    for x in [5, 2, 2, 4, 2, 1, 3, 2, 2] {
        treap.insert(x);
    }
    assert_eq!(treap.len(), 9);
    assert_eq!(treap.lower_bound(&2), 1);
    assert_eq!(treap.lower_bound(&3), 6);
    assert_eq!(treap.lower_bound(&8), 9);
    assert_eq!(treap.lower_bound(&0), 0);
}

#[test]
fn treap_get_at_lower_bound_after_insert() {
    let mut treap = TreapSet::new();
    for x in [7, 3, 9, 3, 1] {
        treap.insert(x);
        let k = treap.lower_bound(&x);
        assert_eq!(treap.get(k), Some(&x));
    }
}

#[test]
fn treap_remove() {
    let mut treap = TreapSet::new();
    for x in [10, 20, 30] {
        treap.insert(x);
    }
    let k = treap.lower_bound(&20);
    assert!(treap.remove(&20));
    assert_eq!(treap.len(), 2);
    assert_eq!(treap.get(k), Some(&30));
    assert!(!treap.remove(&20));
    assert!(!treap.remove(&25));
    assert_eq!(treap.len(), 2);
    assert_eq!(treap.get(0), Some(&10));
    assert_eq!(treap.get(1), Some(&30));
}

#[test]
fn treap_remove_one_duplicate() {
    let mut treap = TreapSet::new();
    for x in [4, 4, 4] {
        treap.insert(x);
    }
    assert!(treap.remove(&4));
    assert_eq!(treap.len(), 2);
    assert_eq!(treap.get(1), Some(&4));
}

#[test]
fn treap_default_is_empty() {
    let treap: TreapSet<i64> = TreapSet::default();
    assert_eq!(treap.len(), 0);
    assert!(treap.is_empty());
}

#[test]
fn treap_equal_histories_give_equal_trees() {
    let mut a = TreapSet::new();
    let mut b = TreapSet::new();
    for x in [9, 4, 7, 1, 8, 2] {
        a.insert(x);
        b.insert(x);
    }
    assert_eq!(format!("{:?}", a), format!("{:?}", b));
    assert_eq!(a.depth(), b.depth());
}

#[test]
fn treap_with_seed_keeps_order() {
    let mut treap = TreapSet::with_seed(42);
    for x in [3, -1, 3, 10, 0] {
        treap.insert(x);
    }
    let got: Vec<i64> = (0..treap.len()).map(|i| *treap.get(i).unwrap()).collect();
    assert_eq!(got, vec![-1, 0, 3, 3, 10]);
}

#[test]
fn treap_average_depth_is_logarithmic() {
    let n = 1000usize;
    let trials = 20;
    let mut total = 0usize;
    let mut state = 987654321u64;
    for trial in 0..trials {
        let mut treap = TreapSet::with_seed(trial as i64 * 7919 + 1);
        for _ in 0..n {
            treap.insert(pseudo_random(&mut state));
        }
        total += treap.depth();
    }
    let average = total as f64 / trials as f64;
    let log2n = (n as f64).log2();
    assert!(average >= log2n);
    assert!(average <= 4.0 * log2n, "average depth = {}", average);
}
