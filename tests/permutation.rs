use matrix_market_transform::permutation::{sort, sort_by, sort_by_key, sort_unstable, sort_unstable_by, sort_unstable_by_key};
use matrix_market_transform::Permutation;

fn abcd() -> Vec<char> {
    vec!['a', 'b', 'c', 'd']
}

#[test]
fn from_vec_takes_elements_in_listed_order() {
    let p = Permutation::from_vec(vec![0, 2, 3, 1]);
    assert_eq!(p.apply_slice(&abcd()), vec!['a', 'c', 'd', 'b']);
}

#[test]
fn oneline_sends_each_element_to_its_index() {
    let p = Permutation::oneline(vec![0, 2, 3, 1]);
    assert_eq!(p.apply_slice(&abcd()), vec!['a', 'd', 'b', 'c']);
    let p = Permutation::oneline(vec![0, 3, 1, 2]);
    assert_eq!(p.apply_slice(&abcd()), vec!['a', 'c', 'd', 'b']);
    assert_eq!(p.apply_inv_slice(&abcd()), vec!['a', 'd', 'b', 'c']);
}

#[test]
fn identity_and_len() {
    let p = Permutation::one(4);
    assert_eq!(p.len(), 4);
    assert_eq!(p.apply_slice(&abcd()), abcd());
    assert_eq!(Permutation::one(0).len(), 0);
}

#[test]
fn inverse_flips_the_permutation() {
    let p = Permutation::oneline(vec![0, 2, 3, 1]);
    assert!(p.inverse().eq(&Permutation::oneline(vec![0, 3, 1, 2])));
    let q = Permutation::oneline(vec![0, 2, 3, 1]);
    assert!(!q.eq(&Permutation::oneline(vec![0, 3, 1, 2])));
    assert!(Permutation::from_vec(vec![0, 2, 3, 1]).eq(&Permutation::oneline(vec![0, 3, 1, 2])));
}

#[test]
fn normalize_keeps_the_value() {
    let p = Permutation::oneline(vec![0, 3, 2, 5, 1, 4]);
    let reversed = p.inverse().normalize(true);
    assert_eq!(reversed.apply_inv_idx(3), 5);
    let q = Permutation::oneline(vec![0, 3, 2, 5, 1, 4]).normalize(true);
    assert!(q.eq(&Permutation::oneline(vec![0, 3, 2, 5, 1, 4])));
    assert_eq!(q.apply_idx(1), 3);
    let r = Permutation::from_vec(vec![2, 0, 1]).normalize(false);
    assert!(r.eq(&Permutation::from_vec(vec![2, 0, 1])));
    assert_eq!(r.apply_idx(2), 0);
}

#[test]
fn apply_idx_and_inverse() {
    let p = Permutation::oneline(vec![0, 2, 1]);
    assert_eq!(p.apply_idx(1), 2);
    assert_eq!(p.apply_inv_idx(2), 1);
    let q = Permutation::from_vec(vec![1, 2, 0]);
    assert_eq!(q.apply_idx(1), 0);
    assert_eq!(q.apply_inv_idx(0), 1);
}

#[test]
fn in_place_application_restores_the_permutation() {
    let mut p = Permutation::oneline(vec![0, 3, 1, 2]);
    let mut v = abcd();
    p.apply_slice_in_place(&mut v);
    assert_eq!(v, vec!['a', 'c', 'd', 'b']);
    assert!(p.eq(&Permutation::oneline(vec![0, 3, 1, 2])));
    assert_eq!(p.indices, vec![0, 3, 1, 2]);

    let mut v = abcd();
    p.apply_inv_slice_in_place(&mut v);
    assert_eq!(v, vec!['a', 'd', 'b', 'c']);

    let mut q = Permutation::from_vec(vec![0, 2, 3, 1]);
    let mut v = abcd();
    q.apply_slice_in_place(&mut v);
    assert_eq!(v, vec!['a', 'c', 'd', 'b']);
    let mut v = abcd();
    q.apply_inv_slice_in_place(&mut v);
    assert_eq!(v, vec!['a', 'd', 'b', 'c']);
    assert_eq!(q.indices, vec![0, 2, 3, 1]);
}

#[test]
fn in_place_matches_copying_on_long_cycles() {
    let n = 97usize;
    let idx: Vec<usize> = (0..n).map(|i| (i * 31 + 5) % n).collect();
    let data: Vec<usize> = (0..n).map(|i| i * 10).collect();
    for forward in [true, false] {
        let mut p = if forward { Permutation::oneline(idx.clone()) } else { Permutation::from_vec(idx.clone()) };
        let copied = p.apply_slice(&data);
        let copied_inv = p.apply_inv_slice(&data);
        let mut v = data.clone();
        p.apply_slice_in_place(&mut v);
        assert_eq!(v, copied);
        let mut w = data.clone();
        p.apply_inv_slice_in_place(&mut w);
        assert_eq!(w, copied_inv);
        assert_eq!(p.indices, idx);
    }
}

#[test]
fn multiplication_applies_right_then_left() {
    let p1 = Permutation::oneline(vec![1, 0, 2]);
    let p2 = Permutation::oneline(vec![0, 2, 1]);
    assert!(p1.mul(&p2).eq(&Permutation::oneline(vec![1, 2, 0])));
    let p3 = Permutation::from_vec(vec![1, 0, 2]);
    let p4 = Permutation::from_vec(vec![0, 2, 1]);
    assert!(p3.mul(&p4).eq(&Permutation::oneline(vec![1, 2, 0])));
    assert!(!p3.mul(&p4).eq(&Permutation::from_vec(vec![1, 2, 0])));
    assert!(p1.mul(&p4).eq(&Permutation::oneline(vec![1, 2, 0])));
    assert!(p3.mul(&p2).eq(&Permutation::oneline(vec![1, 2, 0])));
}

#[test]
fn validity() {
    assert!(Permutation::oneline(vec![2, 0, 1]).valid());
    assert!(!Permutation::oneline(vec![0, 0, 1]).valid());
    assert!(!Permutation::from_vec(vec![0, 3, 1]).valid());
    assert!(Permutation::one(5).valid());
}

#[test]
fn sort_orders_a_slice() {
    let mut vec = vec!['z', 'w', 'h', 'a', 's', 'j'];
    let permutation = sort(&vec);
    let permuted = permutation.apply_slice(&vec);
    vec.sort();
    assert_eq!(vec, permuted);
    let p = sort_unstable(&['z', 'w', 'h', 'a', 's', 'j']);
    assert_eq!(p.apply_slice(&['z', 'w', 'h', 'a', 's', 'j']), vec);
}

#[test]
fn sort_orders_parallel_arrays() {
    let names = vec!["Bob", "Steve", "Jane"];
    let salary = vec![10, 5, 15];
    for permutation in [sort(&salary), sort_unstable(&salary)] {
        assert_eq!(permutation.apply_slice(&names), vec!["Steve", "Bob", "Jane"]);
        assert_eq!(permutation.apply_slice(&salary), vec![5, 10, 15]);
    }
}

#[test]
fn sort_by_key_is_stable() {
    let vec = vec![2, 4, 6, 8, 10, 11];
    let permutation = sort_by_key(&vec, |a: &i32| a % 3);
    assert_eq!(permutation.apply_slice(&vec), vec![6, 4, 10, 2, 8, 11]);
    let p = sort_unstable_by_key(&vec, |a: &i32| a % 3);
    let keys: Vec<i32> = p.apply_slice(&vec).iter().map(|a| a % 3).collect();
    assert_eq!(keys, vec![0, 1, 1, 2, 2, 2]);
}

#[test]
fn assign_from_sort_reuses_a_permutation() {
    let mut permutation = sort(&[0, 1, 2]);
    let mut vec = vec!['z', 'w', 'h'];
    permutation.assign_from_sort(&vec);
    let permuted = permutation.apply_slice(&vec);
    vec.sort();
    assert_eq!(vec, permuted);

    let mut permutation = sort(&[0, 1, 2, 3, 4, 5]);
    let vec = vec![2, 4, 6, 8, 10, 11];
    permutation.assign_from_sort_by_key(&vec, |a: &i32| a % 3);
    assert_eq!(permutation.apply_slice(&vec), vec![6, 4, 10, 2, 8, 11]);
}

#[test]
fn sort_by_uses_the_comparator() {
    let mut vec = vec!['z', 'w', 'h', 'a', 's', 'j'];
    let permutation = sort_by(&vec, |a: &char, b: &char| b.cmp(a));
    let permuted = permutation.apply_slice(&vec);
    let p2 = sort_unstable_by(&vec, |a: &char, b: &char| b.cmp(a));
    let permuted2 = p2.apply_slice(&vec);
    vec.sort_by(|a, b| b.cmp(a));
    assert_eq!(vec, permuted);
    assert_eq!(vec, permuted2);
}

#[test]
fn sort_by_keeps_equal_elements_in_order() {
    let pairs = vec![(1, 'a'), (0, 'b'), (1, 'c'), (0, 'd')];
    let p = sort_by(&pairs, |x: &(i32, char), y: &(i32, char)| x.0.cmp(&y.0));
    assert_eq!(p.apply_slice(&pairs), vec![(0, 'b'), (0, 'd'), (1, 'a'), (1, 'c')]);
}

#[test]
fn assign_from_sort_by_reuses_a_permutation() {
    let mut permutation = sort(&[0, 1, 2, 3, 4, 5]);
    let mut vec = vec!['z', 'w', 'h', 'a', 's', 'j'];
    permutation.assign_from_sort_by(&vec, |a: &char, b: &char| b.cmp(a));
    let permuted = permutation.apply_slice(&vec);
    vec.sort_by(|a, b| b.cmp(a));
    assert_eq!(vec, permuted);
}
