use fru::classification::{ClsDaAggregator, DecisionSlice};
use fru::{AccuracyDecreaseAggregator, DecisionSlice as _, Mask, RfRng};

#[test]
fn decision_slice_counts_labels() {
    let values = [0u32, 2, 2, 1, 2];
    let mask = Mask::from_vec(vec![1, 2, 4, 4]);
    let slice = DecisionSlice::new(&mask, &values, 3);
    assert!(slice.is_pure());
    let mut rng = RfRng::from_seed(1, 1);
    assert_eq!(slice.condense(&mut rng), 2);
    let mixed = DecisionSlice::new(&Mask::new_all(5), &values, 3);
    assert!(!mixed.is_pure());
    assert_eq!(mixed.condense(&mut rng), 2);
}

#[test]
fn da_aggregator_counts_drops() {
    let truth = [0u32, 1, 1, 0];
    let mut da = ClsDaAggregator::new(&truth, 4, 4);
    da.ingest(None, &Mask::from_vec(vec![0, 3]), &0);
    da.ingest(None, &Mask::from_vec(vec![1]), &0);
    da.ingest(None, &Mask::from_vec(vec![2]), &1);
    assert_eq!(da.get_direct_vote(0), 0);
    assert_eq!(da.get_direct_vote(1), 0);
    assert_eq!(da.get_direct_vote(9), u32::MAX);
    // obs 0: right -> wrong (+1); obs 1: wrong -> right (-1); obs 2: unchanged.
    da.ingest(Some(5), &Mask::from_vec(vec![0, 1, 2]), &1);
    assert_eq!(da.drops().get(&5), Some(&0));
    da.ingest(Some(5), &Mask::from_vec(vec![0, 3]), &1);
    assert_eq!(da.drops().get(&5), Some(&2));
    assert_eq!(da.observations(), 4);
}

