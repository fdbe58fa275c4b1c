use fru::{Mask, MaskCache, RfRng};

fn sorted(mut v: Vec<usize>) -> Vec<usize> {
    v.sort_unstable();
    v
}

#[test]
fn new_all_lists_observations() {
    let m = Mask::new_all(4);
    assert_eq!(m.as_slice(), &[0, 1, 2, 3]);
    assert_eq!(m.len(), 4);
    assert!(!m.is_empty());
    assert!(Mask::new_all(0).is_empty());
    assert_eq!(m.get(2), 2);
}

#[test]
fn permute_is_a_permutation() {
    let m = Mask::from_vec(vec![5, 3, 3, 9, 0, 1, 7]);
    let mut rng = RfRng::from_seed(11, 3);
    let p = m.permute(&mut rng);
    assert_eq!(sorted(p.as_slice().to_vec()), sorted(m.as_slice().to_vec()));
    let mut rng2 = RfRng::from_seed(11, 3);
    let q = m.permute(&mut rng2);
    assert_eq!(p.as_slice(), q.as_slice());
}

#[test]
fn split_into_follows_sides() {
    let m = Mask::new_all(4);
    let mut left = Mask::from_vec(vec![9]);
    let mut right = Mask::from_vec(vec![9, 9]);
    m.split_into(&[true, false, true], &mut left, &mut right);
    assert_eq!(left.as_slice(), &[0, 2]);
    assert_eq!(right.as_slice(), &[1]);
}

#[test]
fn split_together_keeps_pairs() {
    let m = Mask::from_vec(vec![0, 1, 2, 3]);
    let other = Mask::from_vec(vec![10, 11, 12, 13]);
    let mut l = Mask::new_all(0);
    let mut lo = Mask::new_all(0);
    let mut r = Mask::new_all(0);
    let mut ro = Mask::new_all(0);
    m.split_together_into(&other, &[false, true, true, false], &mut l, &mut lo, &mut r, &mut ro);
    assert_eq!(l.as_slice(), &[1, 2]);
    assert_eq!(lo.as_slice(), &[11, 12]);
    assert_eq!(r.as_slice(), &[0, 3]);
    assert_eq!(ro.as_slice(), &[10, 13]);
}

#[test]
fn bag_and_oob_partition_observations() {
    let n = 50;
    let mut rng = RfRng::from_seed(3, 1);
    let (bag, oob) = Mask::new_bag_oob(n, &mut rng);
    assert_eq!(bag.len(), n);
    let b = bag.as_slice();
    let o = oob.as_slice();
    assert!(b.windows(2).all(|w| w[0] <= w[1]));
    assert!(o.windows(2).all(|w| w[0] < w[1]));
    for e in 0..n {
        assert!(o.contains(&e) != b.contains(&e));
    }
    assert!(!o.is_empty());
}

#[test]
fn bag_of_nothing_is_empty() {
    let mut rng = RfRng::from_seed(3, 1);
    let (bag, oob) = Mask::new_bag_oob(0, &mut rng);
    assert!(bag.is_empty());
    assert!(oob.is_empty());
}

#[test]
fn mask_cache_reuses_released_masks() {
    let mut cache = MaskCache::new();
    assert!(cache.provide().is_empty());
    cache.release(Mask::from_vec(vec![4, 2]));
    cache.release(Mask::from_vec(vec![7]));
    assert_eq!(cache.provide().as_slice(), &[7]);
    assert_eq!(cache.provide().as_slice(), &[4, 2]);
    assert!(cache.provide().is_empty());
}

#[test]
fn mask_derefs_to_its_indices() {
    let m = Mask::from_vec(vec![3, 1, 2]);
    let total: usize = m.iter().sum();
    assert_eq!(total, 6);
    assert_eq!(&m[..2], &[3, 1]);
    let mut cache = MaskCache::default();
    assert!(cache.provide().is_empty());
}
