use fru::RfRng;

#[test]
fn basic() {
    let mut rng = RfRng::from_seed(17, 1);
    let zero = rng.up_to(1);
    assert_eq!(zero, 0);
    let mut contents = [0, 0, 0];
    for _ in 0..300 {
        contents[rng.up_to(3)] += 1;
    }
    assert_eq!(contents[1], 93);
}

#[test]
fn reproducible() {
    let mut rng = RfRng::from_seed(17, 1);
    let v64 = rng.get_u64();
    let v32 = rng.get_u32();
    assert_eq!(v64, 13030427649947795236);
    assert_eq!(v32, 1708324272);
}

#[test]
fn up_to_stays_below_bound() {
    let mut rng = RfRng::from_seed(3, 5);
    for n in 1..200usize {
        assert!(rng.up_to(n) < n);
    }
}

#[test]
fn same_seed_same_stream() {
    let mut a = RfRng::from_seed(42, 7);
    let mut b = RfRng::from_seed(42, 7);
    for _ in 0..50 {
        assert_eq!(a.get_u32(), b.get_u32());
    }
    let mut c = RfRng::from_seed(42, 9);
    let mut d = RfRng::from_seed(42, 7);
    let differs = (0..10).any(|_| c.get_u32() != d.get_u32());
    assert!(differs);
}

#[test]
fn get_u64_is_two_words() {
    let mut a = RfRng::from_seed(17, 1);
    let mut b = RfRng::from_seed(17, 1);
    let hi = b.get_u32() as u64;
    let lo = b.get_u32() as u64;
    assert_eq!(a.get_u64(), (hi << 32) | lo);
}

#[test]
fn up_to_above_u32_uses_wide_draws() {
    let bound: usize = 1 << 40;
    let mut rng = RfRng::from_seed(17, 1);
    let mut high = 0;
    for _ in 0..64 {
        let v = rng.up_to(bound);
        assert!(v < bound);
        if v > u32::MAX as usize {
            high += 1;
        }
    }
    assert!(high > 32);
    let mut a = RfRng::from_seed(17, 1);
    let mut b = RfRng::from_seed(17, 1);
    let wide = a.up_to(bound);
    let hi = b.get_u32() as usize;
    let lo = b.get_u32() as usize;
    assert_eq!(wide, ((hi << 32) + lo) % bound);
    assert_eq!(a.get_u32(), b.get_u32());
}
