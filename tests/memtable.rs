use qingtuan::memtable::{MemTable, Record};
use qingtuan::slice::Slice;

fn slice_from_str(s: &str) -> Slice {
    Slice::from(String::from(s))
}

#[test]
fn memtable_slice_partial_ord() {
    let slice1 = slice_from_str("aaaaaaa");
    let slice2 = slice_from_str("aaaaaab");

    assert!(slice1 < slice2);
}

#[test]
fn table_insert_test() {
    let mut table = MemTable::new();
    for i in 0..1000 {
        table.insert(
            slice_from_str(&format!("{}", i)),
            slice_from_str(&format!("{}", i + 1)),
        );
    }

    for i in 0..1000 {
        let value = table.find(slice_from_str(&format!("{}", i))).unwrap();
        assert!(value == slice_from_str(&format!("{}", i + 1)));
    }
}

#[test]
fn latest_write_wins() {
    let mut table = MemTable::new();
    table.insert(slice_from_str("a"), slice_from_str("1"));
    table.insert(slice_from_str("a"), slice_from_str("2"));
    assert!(table.find(slice_from_str("a")).unwrap() == slice_from_str("2"));
}

#[test]
fn missing_key_is_none() {
    let mut table = MemTable::new();
    assert!(table.find(slice_from_str("missing")).is_none());
    table.insert(slice_from_str("b"), slice_from_str("x"));
    table.insert(slice_from_str("dd"), slice_from_str("y"));
    assert!(table.find(slice_from_str("c")).is_none());
    assert!(table.find(slice_from_str("a")).is_none());
    assert!(table.find(slice_from_str("zzz")).is_none());
}

#[test]
fn empty_key_is_a_key() {
    let mut table = MemTable::new();
    table.insert(Slice::empty(), slice_from_str("v"));
    assert!(table.find(Slice::empty()).unwrap() == slice_from_str("v"));
}

#[test]
fn records_order_by_key_then_newer_version_first() {
    let a0 = Record::new(slice_from_str("a"), 0, slice_from_str("x"));
    let a5 = Record::new(slice_from_str("a"), 5, slice_from_str("y"));
    let b0 = Record::new(slice_from_str("b"), 0, slice_from_str("z"));
    assert!(a5 < a0);
    assert!(a0 < b0);
    assert!(a5 < b0);
    assert!(a0 == Record::new(slice_from_str("a"), 0, slice_from_str("other")));
    let head = Record::default();
    assert!(head < a0);
}
