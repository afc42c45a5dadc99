use algo_lib::prefix_sum::{PrefixSum, PrefixSum2D};

#[test]
fn test_prefix_sum_2d() {
    let vec = vec![
        vec![1, 2, 3, 4, 5],
        vec![1, 2, 3, 4, 5],
        vec![1, 2, 3, 4, 5],
        vec![1, 2, 3, 4, 5],
        vec![1, 2, 3, 4, 5],
    ];

    let mut p1 = PrefixSum2D::new(5, 5);
    let p2 = PrefixSum2D::from(vec.clone());

    let f = |x1: usize, x2: usize, y1: usize, y2: usize, vec: &Vec<Vec<i64>>| {
        let mut res = 0;
        for y in y1..y2 {
            for x in x1..x2 {
                res += vec[y][x];
            }
        }

        return res;
    };

    for y in 0..5 {
        for x in 0..5 {
            p1.add(x, y, vec[y][x]);
        }
    }
    p1.build();

    for y1 in 0..5 {
        for y2 in y1 + 1..=5 {
            for x1 in 0..5 {
                for x2 in x1 + 1..=5 {
                    assert_eq!(p1.query(x1, x2, y1, y2), f(x1, x2, y1, y2, &vec));
                    assert_eq!(p2.query(x1, x2, y1, y2), f(x1, x2, y1, y2, &vec));
                }
            }
        }
    }
}

#[test]
fn test_prefix_sum() {
    let vec = vec![1i64, 2, 3, 4, 5];
    let pre = PrefixSum::from(vec);
    assert_eq!(pre.query(0, 3), 6);
    assert_eq!(pre.query(0, 5), 15);
    assert_eq!(pre.query(0, 1), 1);
    assert_eq!(pre.query(4, 5), 5);
    assert_eq!(pre.query(1, 4), 9);
}

#[test]
fn prefix_sum_add_then_build() {
    let mut pre = PrefixSum::new(4);
    assert_eq!(pre.query(0, 4), 0);
    pre.add(1, 7);
    pre.add(3, -2);
    assert_eq!(pre.query(0, 4), 0);
    pre.build();
    assert_eq!(pre.query(0, 4), 5);
    assert_eq!(pre.query(2, 2), 0);
    assert_eq!(pre.query(2, 4), -2);
}

#[test]
fn prefix_sum_2d_non_square() {
    let p = PrefixSum2D::from(vec![vec![1, 2, 3], vec![4, 5, 6]]);
    assert_eq!(p.query(0, 3, 0, 2), 21);
    assert_eq!(p.query(1, 3, 1, 2), 11);
    assert_eq!(p.query(0, 1, 0, 2), 5);
    assert_eq!(p.query(2, 2, 0, 2), 0);
}
