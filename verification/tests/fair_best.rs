use fru::{FairBest, RfRng};

#[test]
fn fair_best_fairness() {
    let n = 7;
    let s = 10000;
    let mut rng = RfRng::from_seed(1, 21);
    let mut counts = vec![0; n];
    for _ in 1..(n * s) {
        let mut ans = FairBest::new();
        (0..n).for_each(|x| ans.ingest(17, x, &mut rng));
        counts[ans.consume().unwrap().1] += 1;
    }
    let max_dev = counts
        .iter()
        .map(|x| isize::abs((*x as isize) - (s as isize)))
        .max()
        .unwrap();
    assert!(max_dev < s as isize / 10);
}

#[test]
fn fair_best_basic() {
    let mut rng = RfRng::from_seed(1, 21);
    let mut ans = FairBest::new();
    ans.ingest(1, 1, &mut rng);
    ans.ingest(1, 2, &mut rng);
    ans.ingest(2, 3, &mut rng);
    ans.ingest(0, 4, &mut rng);
    ans.ingest(1, 5, &mut rng);
    let ans = ans.consume().unwrap();
    assert_eq!(ans.0, 2);
    assert_eq!(ans.1, 3);
}

#[test]
fn fair_best_empty_is_none() {
    let ans: FairBest<u8> = FairBest::new();
    assert!(ans.consume().is_none());
}

#[test]
fn fair_best_keeps_a_maximum() {
    let mut rng = RfRng::from_seed(4, 9);
    for round in 0..50u64 {
        let mut ans = FairBest::new();
        for x in 0..10u64 {
            ans.ingest((x * 7 + round) % 5, x, &mut rng);
        }
        let (score, x) = ans.consume().unwrap();
        assert_eq!(score, 4);
        assert_eq!((x * 7 + round) % 5, 4);
    }
}

#[test]
fn fair_best_default_is_empty() {
    let ans: FairBest<u8> = FairBest::default();
    assert!(ans.consume().is_none());
}
