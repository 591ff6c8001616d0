use sisyphus::permutation::identity_order;
use sisyphus::sorting::{stable_order, Fraction};

fn frac(num: u64, den: u64) -> Fraction {
    Fraction { num, den }
}

#[test]
fn fractions_compare_as_numbers() {
    assert!(frac(1, 2).less(&frac(2, 3)));
    assert!(!frac(2, 3).less(&frac(1, 2)));
    assert!(!frac(1, 2).less(&frac(2, 4)));
    assert!(!frac(2, 4).less(&frac(1, 2)));
    assert!(frac(0, 1).less(&frac(1, u64::MAX)));
    assert!(frac(u64::MAX - 1, u64::MAX).less(&frac(u64::MAX, u64::MAX)));
}

#[test]
fn whole_fractions() {
    let f = Fraction::whole(7);
    assert_eq!((f.num, f.den), (7, 1));
}

#[test]
fn stable_order_sorts_by_key() {
    let keys = vec![frac(5, 2), frac(0, 1), frac(1, 3), frac(7, 1)];
    assert_eq!(stable_order(&keys), vec![1, 2, 0, 3]);
}

#[test]
fn stable_order_keeps_equal_keys_in_place() {
    let keys = vec![frac(1, 2), frac(3, 1), frac(2, 4), frac(0, 1), frac(3, 6), frac(6, 2)];
    assert_eq!(stable_order(&keys), vec![3, 0, 2, 4, 1, 5]);
}

#[test]
fn stable_order_of_nothing_and_of_one() {
    assert_eq!(stable_order(&vec![]), Vec::<usize>::new());
    assert_eq!(stable_order(&vec![frac(9, 4)]), vec![0]);
}

#[test]
fn stable_order_of_descending_keys_is_reversed() {
    let n = 1000;
    let keys: Vec<Fraction> = (0..n).map(|i| frac((n - i) as u64, 3)).collect();
    let order = stable_order(&keys);
    let want: Vec<usize> = (0..n).rev().collect();
    assert_eq!(order, want);
}

#[test]
fn identity_order_counts_up() {
    assert_eq!(identity_order(4), vec![0, 1, 2, 3]);
    assert_eq!(identity_order(0), Vec::<usize>::new());
}
