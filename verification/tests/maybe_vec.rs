use fru::MaybeVec;

#[test]
fn vector_holder_keeps_elements() {
    let mut m: MaybeVec<u8> = MaybeVec::new(true);
    assert!(m.is_some());
    m.push(3);
    m.push(4);
    assert_eq!(m.len(), 2);
    assert_eq!(m.get(1), Some(&4));
    assert_eq!(m.get(2), None);
    assert_eq!(m.iter().copied().collect::<Vec<_>>(), vec![3, 4]);
}

#[test]
fn length_holder_only_counts() {
    let mut m: MaybeVec<u8> = MaybeVec::new(false);
    assert!(!m.is_some());
    m.push(3);
    assert_eq!(m.len(), 1);
    assert_eq!(m.get(0), None);
    let n: MaybeVec<u8> = MaybeVec::from_just_length(5);
    assert_eq!(n.len(), 5);
}

#[test]
fn merge_appends_or_adds() {
    let mut a: MaybeVec<u8> = MaybeVec::new(true);
    a.push(1);
    let mut b: MaybeVec<u8> = MaybeVec::new(true);
    b.push(2);
    a.merge(b);
    assert_eq!(a.iter().copied().collect::<Vec<_>>(), vec![1, 2]);
    let mut c: MaybeVec<u8> = MaybeVec::from_just_length(2);
    c.merge(MaybeVec::from_just_length(3));
    assert_eq!(c.len(), 5);
}
