use qingtuan::skiplist::{SkipList, MAX_LEVEL};

#[test]
fn insert_test() {
    let mut list = SkipList::new();
    for i in 0..1000 {
        list.insert(i);
    }
    let mut iter = list.iter();
    let mut index: usize = 0;
    while let Some(num) = iter.next() {
        assert_eq!(num.value, index);
        index += 1;
    }
    assert_eq!(index, 1000);
}

#[test]
fn random_insert() {
    let mut list = SkipList::new();
    let mut nums: Vec<u32> = Vec::new();
    for _ in 0..1000 {
        let num = rand::random();
        nums.push(num);
        list.insert(num);
    }
    nums.sort();
    let mut iter = list.iter();
    let mut index: usize = 0;
    while let Some(num) = iter.next() {
        assert_eq!(num.value, nums[index]);
        index += 1;
    }
    assert_eq!(index, nums.len());
}

#[test]
fn seek_test() {
    let mut list = SkipList::new();
    for i in 0..1000 {
        list.insert(i);
    }

    let mut iter = list.iter();
    let val = iter.seek(&500).unwrap();
    assert_eq!(val.value, 500);

    let mut acc = 500;
    while let Some(val) = iter.next() {
        acc += 1;
        assert_eq!(val.value, acc);
    }
    assert_eq!(acc, 999);
}

#[test]
fn reverse_inserts_come_out_sorted() {
    let mut list = SkipList::new();
    for i in (0..200u64).rev() {
        list.insert(i * 3);
    }
    let mut iter = list.iter();
    let mut last: Option<u64> = None;
    let mut count = 0;
    while let Some(node) = iter.next() {
        if let Some(prev) = last {
            assert!(prev < node.value);
        }
        last = Some(node.value);
        count += 1;
    }
    assert_eq!(count, 200);
}

#[test]
fn find_greater_or_equal_lands_on_smallest_not_less() {
    let mut list = SkipList::new();
    for v in [10u32, 30, 20, 50, 40] {
        list.insert(v);
    }
    assert_eq!(list.find_greater_or_equal(&25).map(|n| n.value), Some(30));
    assert_eq!(list.find_greater_or_equal(&30).map(|n| n.value), Some(30));
    assert_eq!(list.find_greater_or_equal(&0).map(|n| n.value), Some(10));
    assert!(list.find_greater_or_equal(&51).is_none());
}

#[test]
fn find_on_empty_list_is_none() {
    let list: SkipList<u32> = SkipList::new();
    assert!(list.find_greater_or_equal(&0).is_none());
    let mut iter = list.iter();
    assert!(iter.next().is_none());
    assert!(iter.seek(&0).is_none());
}

#[test]
fn heights_do_not_change_the_order() {
    let mut list = SkipList::new();
    let values = [5u32, 1, 9, 3, 7, 2, 8];
    for (i, v) in values.iter().enumerate() {
        let height = if i % 2 == 0 { MAX_LEVEL } else { 1 };
        list.insert_with_height(*v, height);
    }
    let mut iter = list.iter();
    let mut out = Vec::new();
    while let Some(node) = iter.next() {
        out.push(node.value);
    }
    assert_eq!(out, vec![1, 2, 3, 5, 7, 8, 9]);
}

#[test]
fn equal_values_all_stay() {
    let mut list = SkipList::new();
    for v in [4u32, 4, 2, 4] {
        list.insert(v);
    }
    let mut iter = list.iter();
    let mut out = Vec::new();
    while let Some(node) = iter.next() {
        out.push(node.value);
    }
    assert_eq!(out, vec![2, 4, 4, 4]);
}

#[test]
fn seek_past_the_end_stays_and_misses() {
    let mut list = SkipList::new();
    for v in [1u32, 2, 3] {
        list.insert(v);
    }
    let mut iter = list.iter();
    assert_eq!(iter.seek(&2).map(|n| n.value), Some(2));
    assert!(iter.seek(&10).is_none());
    assert_eq!(iter.next().map(|n| n.value), Some(3));
    assert!(iter.next().is_none());
    assert!(iter.seek(&0).is_none());
}

#[test]
fn seek_only_moves_forward() {
    let mut list = SkipList::new();
    for v in [1u32, 2, 3, 4] {
        list.insert(v);
    }
    let mut iter = list.iter();
    assert_eq!(iter.seek(&3).map(|n| n.value), Some(3));
    assert_eq!(iter.seek(&1).map(|n| n.value), Some(4));
}

#[test]
fn eight_clients_union_sorted() {
    let mut list = SkipList::new();
    let mut all: Vec<u32> = Vec::new();
    let mut batches: Vec<Vec<u32>> = Vec::new();
    for _ in 0..8 {
        let mut batch = Vec::new();
        while batch.len() < 5 {
            let k: u32 = rand::random();
            if !all.contains(&k) {
                all.push(k);
                batch.push(k);
            }
        }
        batches.push(batch);
    }
    for round in 0..5 {
        for batch in &batches {
            list.insert(batch[round]);
        }
    }
    all.sort();
    let mut iter = list.iter();
    let mut out = Vec::new();
    while let Some(node) = iter.next() {
        out.push(node.value);
    }
    assert_eq!(out.len(), 40);
    assert_eq!(out, all);
}
