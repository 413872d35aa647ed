use jix::util::arrayvec::ArrayVec;

#[test]
fn arrayvec_tracks_capacity_and_fullness() {
    let mut v: ArrayVec<u8, 3> = ArrayVec::new();
    assert_eq!(v.capacity(), 3);
    assert_eq!(v.remaining_capacity(), 3);
    assert!(v.is_empty());
    assert!(!v.is_full());
    v.push(1);
    v.push(2);
    assert_eq!(v.remaining_capacity(), 1);
    v.push(3);
    assert!(v.is_full());
    assert_eq!(v.remaining_capacity(), 0);
    assert_eq!(v.as_slice(), &[1, 2, 3]);
}

#[test]
fn arrayvec_truncate_and_clear() {
    let mut v: ArrayVec<u32, 4> = ArrayVec::new();
    v.extend_from_slice(&[5, 6, 7, 8]);
    v.truncate(9);
    assert_eq!(v.as_slice(), &[5, 6, 7, 8]);
    v.truncate(2);
    assert_eq!(v.as_slice(), &[5, 6]);
    v.clear();
    assert!(v.is_empty());
    assert_eq!(v.len(), 0);
}

#[test]
fn arrayvec_from_slice_refuses_what_does_not_fit() {
    assert!(ArrayVec::<u16, 3>::from_slice(&[1, 2, 3, 4]).is_none());
    let v = ArrayVec::<u16, 4>::from_slice(&[1, 2, 3, 4]).unwrap();
    assert_eq!(v.as_slice(), &[1, 2, 3, 4]);
    assert!(v.is_full());
    let empty = ArrayVec::<u16, 2>::from_slice(&[]).unwrap();
    assert!(empty.is_empty());
}

#[test]
fn arrayvec_insert_first_const_shifts_up() {
    let mut v: ArrayVec<u64, 4> = ArrayVec::new();
    v.push(2);
    v.push(3);
    v.insert_first_const(1);
    assert_eq!(v.as_slice(), &[1, 2, 3]);
    v.insert(3, 4);
    assert_eq!(v.as_slice(), &[1, 2, 3, 4]);
    assert_eq!(*v.get(2), 3);
}

#[test]
fn arrayvec_into_iter_from_both_ends() {
    let v = ArrayVec::<u8, 4>::from_slice(&[1, 2, 3]).unwrap();
    let mut it = v.into_iter();
    assert_eq!(it.size_hint(), (3, Some(3)));
    assert_eq!(it.next_back(), Some(3));
    assert_eq!(it.next(), Some(1));
    assert_eq!(it.next_back(), Some(2));
    assert_eq!(it.next(), None);
    assert_eq!(it.next_back(), None);
    assert_eq!(it.size_hint(), (0, Some(0)));
}

#[test]
fn arrayvec_clone_copies_every_element() {
    let v = ArrayVec::<String, 3>::from_slice(&["a".to_string(), "bc".to_string()]).unwrap();
    let w = v.clone();
    assert_eq!(w.as_slice(), v.as_slice());
    assert_eq!(w.capacity(), 3);
}

#[test]
fn arrayvec_into_iter_clone_keeps_what_is_left() {
    let v = ArrayVec::<u8, 4>::from_slice(&[1, 2, 3]).unwrap();
    let mut it = v.into_iter();
    it.next();
    let mut copy = it.clone();
    assert_eq!(copy.next(), Some(2));
    assert_eq!(copy.next(), Some(3));
    assert_eq!(copy.next(), None);
    assert_eq!(it.size_hint(), (2, Some(2)));
}
