use sb_synth::fraction::{iterate_on_sb_tree, median, multiply, MAX_DEPTH};

fn gcd(a: u64, b: u64) -> u64 {
    if b == 0 {
        a
    } else {
        gcd(b, a % b)
    }
}

/// `a < b` as rationals, a zero denominator standing for infinity.
fn less(a: (u64, u64), b: (u64, u64)) -> bool {
    (a.0 as u128) * (b.1 as u128) < (b.0 as u128) * (a.1 as u128)
}

fn all_paths(len: usize) -> Vec<Vec<bool>> {
    let mut paths = vec![Vec::new()];
    for _ in 0..len {
        let mut longer = Vec::new();
        for p in &paths {
            let mut f = p.clone();
            f.push(false);
            longer.push(f);
            let mut t = p.clone();
            t.push(true);
            longer.push(t);
        }
        paths = longer;
    }
    paths
}

#[test]
fn empty_path_is_one() {
    assert_eq!(iterate_on_sb_tree(&vec![]), (1, 1));
}

#[test]
fn short_paths() {
    assert_eq!(iterate_on_sb_tree(&vec![true]), (1, 2));
    assert_eq!(iterate_on_sb_tree(&vec![false]), (2, 1));
    assert_eq!(iterate_on_sb_tree(&vec![false, false]), (3, 1));
    assert_eq!(iterate_on_sb_tree(&vec![true, false]), (2, 3));
    assert_eq!(iterate_on_sb_tree(&vec![true, true]), (1, 3));
    assert_eq!(iterate_on_sb_tree(&vec![false, true]), (3, 2));
}

#[test]
fn results_are_in_lowest_terms() {
    for len in 0..=10 {
        for p in all_paths(len) {
            let (n, d) = iterate_on_sb_tree(&p);
            assert!(n > 0 && d > 0);
            assert_eq!(gcd(n, d), 1, "path {:?}", p);
        }
    }
}

#[test]
fn each_bit_moves_strictly_inside_the_interval() {
    // The node of `v ++ [b]` lies strictly between the bounds of `v`'s
    // interval, and on the side that `b` picks of `v`'s node.
    for len in 0..=8 {
        for p in all_paths(len) {
            let parent = iterate_on_sb_tree(&p);
            let mut left = p.clone();
            left.push(true);
            let mut right = p.clone();
            right.push(false);
            let lo = iterate_on_sb_tree(&left);
            let hi = iterate_on_sb_tree(&right);
            assert!(less(lo, parent));
            assert!(less(parent, hi));
            assert!(lo.0 + lo.1 > parent.0 + parent.1);
            assert!(hi.0 + hi.1 > parent.0 + parent.1);
        }
    }
}

#[test]
fn deepest_paths_fit() {
    assert_eq!(MAX_DEPTH, 91);
    assert_eq!(iterate_on_sb_tree(&vec![false; MAX_DEPTH]), (92, 1));
    assert_eq!(iterate_on_sb_tree(&vec![true; MAX_DEPTH]), (1, 92));
    let alternating: Vec<bool> = (0..MAX_DEPTH).map(|i| i % 2 == 0).collect();
    assert_eq!(
        iterate_on_sb_tree(&alternating),
        (7540113804746346429, 12200160415121876738)
    );
}

#[test]
fn median_adds_componentwise() {
    assert_eq!(median((0, 1), (1, 0)), (1, 1));
    assert_eq!(median((1, 2), (2, 3)), (3, 5));
}

#[test]
fn multiply_is_componentwise_product() {
    assert_eq!(multiply((1, 2), (2, 3)), (2, 6));
    assert_eq!(multiply((3, 5), (1, 1)), (3, 5));
}

#[test]
fn multiply_commutes_and_associates() {
    let fs = [(1, 2), (2, 3), (5, 1), (7, 4), (1, 1)];
    for &a in &fs {
        for &b in &fs {
            assert_eq!(multiply(a, b), multiply(b, a));
            for &c in &fs {
                assert_eq!(multiply(multiply(a, b), c), multiply(a, multiply(b, c)));
            }
        }
    }
}
