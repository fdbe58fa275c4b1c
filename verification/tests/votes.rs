use fru::{RfRng, VoteAggregator, Votes, XrfError};

#[test]
fn votes_count_and_purity() {
    let mut v = Votes::new(3);
    assert_eq!(v.ncat(), 3);
    assert!(v.is_pure());
    v.ingest_vote(1);
    v.ingest_vote(1);
    assert!(v.is_pure());
    v.ingest_vote(2);
    assert!(!v.is_pure());
    assert_eq!(v.counts(), &[0, 2, 1]);
}

#[test]
fn votes_merge_adds_counts() {
    let mut a = Votes::from_counts(vec![1, 2, 3]);
    let b = Votes::from_counts(vec![10, 20]);
    a.merge(&b);
    assert_eq!(a.counts(), &[11, 22, 3]);
    let mut c = Votes::from_counts(vec![u32::MAX]);
    c.merge(&Votes::from_counts(vec![2]));
    assert_eq!(c.counts(), &[1]);
}

#[test]
fn votes_raw_round_trip() {
    let v = Votes::from_counts(vec![1, 256, 0x01020304]);
    let raw = v.into_raw();
    assert_eq!(raw, vec![1, 0, 0, 0, 0, 1, 0, 0, 4, 3, 2, 1]);
    let back = Votes::from_raw(&raw, 3);
    assert_eq!(back.counts(), v.counts());
}

#[test]
fn collapse_picks_majority() {
    let mut rng = RfRng::from_seed(1, 1);
    let v = Votes::from_counts(vec![2, 9, 4]);
    assert_eq!(v.collapse_empty_random(&mut rng), 1);
    assert_eq!(v.collapse_empty_na(&mut rng), 1);
}

#[test]
fn collapse_of_no_votes() {
    let mut rng = RfRng::from_seed(1, 1);
    let v = Votes::new(4);
    assert_eq!(v.collapse_empty_na(&mut rng), u32::MAX);
    assert!(v.collapse_empty_random(&mut rng) < 4);
    let none = Votes::new(0);
    assert_eq!(none.collapse_empty_na(&mut rng), u32::MAX);
}

#[test]
fn collapse_ties_are_spread() {
    let mut rng = RfRng::from_seed(2, 5);
    let v = Votes::from_counts(vec![3, 3, 1]);
    let mut seen = [0usize; 3];
    for _ in 0..400 {
        seen[v.collapse_empty_random(&mut rng) as usize] += 1;
    }
    assert_eq!(seen[2], 0);
    assert!(seen[0] > 150 && seen[1] > 150);
}

#[test]
fn clone_keeps_counts() {
    let v = Votes::from_counts(vec![5, 6]);
    let w = v.clone();
    assert_eq!(w.counts(), &[5, 6]);
}

#[test]
fn error_messages() {
    assert_eq!(
        XrfError::WalkAggregationFailure.message(),
        "Walk is a corrupted representation of a forest"
    );
    assert_eq!(XrfError::ParallelCodePanic.message(), "Panic in the parallel code");
    assert_ne!(XrfError::ParallelCodePanic, XrfError::WalkAggregationFailure);
}

#[test]
fn ingestion_order_does_not_matter() {
    let mut a = Votes::new(3);
    let mut b = Votes::new(3);
    for v in [0u32, 2, 2, 1] {
        a.ingest_vote(v);
    }
    for v in [2u32, 1, 0, 2] {
        b.ingest_vote(v);
    }
    assert_eq!(a.counts(), b.counts());
}

#[test]
fn merge_is_like_ingesting_the_other_votes() {
    let mut direct = Votes::from_counts(vec![1, 1]);
    let mut other = Votes::new(2);
    for v in [1u32, 1, 0] {
        direct.ingest_vote(v);
        other.ingest_vote(v);
    }
    let mut merged = Votes::from_counts(vec![1, 1]);
    merged.merge(&other);
    assert_eq!(merged.counts(), direct.counts());
    let mut unchanged = Votes::from_counts(vec![4, 5]);
    unchanged.merge(&Votes::new(2));
    assert_eq!(unchanged.counts(), &[4, 5]);
}

#[test]
fn split_counting_then_merging_matches_counting_all() {
    let x = [0u32, 2, 2, 1, 2];
    let y = [1u32, 1, 0];
    let mut a = Votes::new(3);
    let mut b = Votes::new(3);
    let mut all = Votes::new(3);
    for &v in x.iter() {
        a.ingest_vote(v);
        all.ingest_vote(v);
    }
    for &v in y.iter() {
        b.ingest_vote(v);
        all.ingest_vote(v);
    }
    a.merge(&b);
    assert_eq!(a.counts(), all.counts());
    assert_eq!(all.counts(), &[2, 3, 3]);
}
