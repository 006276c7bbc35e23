use qingtuan::slice::Slice;
use std::cmp::Ordering;

#[test]
fn slice_slice_partial_ord() {
    let slice1 = Slice::from(String::from("aaaaaaa"));
    let slice2 = Slice::from(String::from("aaaaaab"));

    assert!(slice1 < slice2);
}

#[test]
fn slice_from_vec() {
    let slice1 = {
        let vec = vec![1, 1, 1, 1, 100];
        Slice::from(vec)
    };

    let slice2 = {
        let vec = vec![1, 1, 1, 1, 101];
        Slice::from(vec)
    };

    assert!(slice1 < slice2)
}

#[test]
fn shorter_slice_comes_first_whatever_its_bytes() {
    let b = Slice::from(String::from("b"));
    let aa = Slice::from(String::from("aa"));
    assert!(b < aa);
    assert_eq!(b.partial_cmp(&aa), Some(Ordering::Less));
    assert_eq!(aa.partial_cmp(&b), Some(Ordering::Greater));
}

#[test]
fn equal_slices_compare_equal() {
    let a = Slice::from(vec![7u8, 8, 9]);
    let b = Slice::from(vec![7u8, 8, 9]);
    assert!(a == b);
    assert_eq!(a.compare(&b), Ordering::Equal);
    assert!(a != Slice::from(vec![7u8, 8, 10]));
}

#[test]
fn empty_slice_is_smallest() {
    let e = Slice::empty();
    assert_eq!(e.size(), 0);
    assert!(e < Slice::from(vec![0u8]));
    assert!(e == Slice::from(Vec::new()));
}

#[test]
fn clone_and_bytes_keep_contents() {
    let a = Slice::from(String::from("hello"));
    let b = a.clone();
    assert!(a == b);
    assert_eq!(b.into_bytes(), b"hello".to_vec());
    assert_eq!(a.size(), 5);
}
