use osirs::bus::{getter, init, malloc, setter, Bus, SetterError};

#[test]
fn empty_request_gets_nothing() {
    let mut b = Bus::new();
    assert_eq!(malloc(&mut b, 0), None);
    assert!(b.Bytes.iter().all(|x| *x == 0));
}

#[test]
fn first_malloc_sets_up_the_mask() {
    let mut b = Bus::new();
    assert_eq!(malloc(&mut b, 5), Some(16));
    assert_eq!(b.Bytes[0], 0xFF);
    assert_eq!(b.Bytes[1], 0xFF);
    assert_eq!(b.Bytes[2], 0b0001_1111);
}

#[test]
fn large_requests_are_rounded_and_aligned() {
    let mut b = Bus::new();
    assert_eq!(malloc(&mut b, 5), Some(16));
    assert_eq!(malloc(&mut b, 10), Some(24));
    assert_eq!(malloc(&mut b, 3), Some(21));
    assert_eq!(malloc(&mut b, 8), Some(40));
}

#[test]
fn too_large_request_fails() {
    let mut b = Bus::new();
    assert_eq!(malloc(&mut b, 113), None);
    assert_eq!(malloc(&mut b, 112), Some(16));
    assert_eq!(malloc(&mut b, 1), None);
}

#[test]
fn reservations_do_not_overlap() {
    let mut b = Bus::new();
    let first = malloc(&mut b, 9).unwrap();
    let second = malloc(&mut b, 9).unwrap();
    assert!(second >= first + 16 || second + 16 <= first);
}

#[test]
fn write_then_read() {
    let mut b = Bus::new();
    let at = malloc(&mut b, 4).unwrap();
    assert_eq!(setter(&mut b, &[1, 2, 3, 4], at), Ok(()));
    assert_eq!(getter(&b, at, 4), vec![1, 2, 3, 4]);
}

#[test]
fn setter_errors() {
    let mut b = Bus::new();
    assert_eq!(setter(&mut b, &[], 20), Err(SetterError::ZeroSized));
    assert_eq!(setter(&mut b, &[1, 2], 127), Err(SetterError::OutOfBounds));
    assert_eq!(setter(&mut b, &[1], 20), Err(SetterError::Unallocated));
    let at = malloc(&mut b, 2).unwrap();
    assert_eq!(setter(&mut b, &[1, 2, 3], at), Err(SetterError::Unallocated));
    assert_eq!(getter(&b, at, 2), vec![0, 0]);
}

#[test]
fn init_marks_only_the_mask() {
    let mut b = Bus::new();
    b.Bytes[50] = 9;
    init(&mut b);
    assert_eq!(&b.Bytes[..3], &[0xFF, 0xFF, 0]);
    assert_eq!(b.Bytes[50], 0);
}
