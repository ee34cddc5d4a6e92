use concurrent_index::basedata::Basedata;
use concurrent_index::crossbeam_gate;
use concurrent_index::cs_index::CSIndex;
use concurrent_index::skiplist;
use concurrent_index::skipmap::index::SkipMapIndex;
use concurrent_index::xline_baseline::{self, RangeType};
use concurrent_index::{Index, IndexOperate};

fn basic_refs<I: IndexOperate<i32, i32>>(index: &mut I) {
    // empty read
    assert!(index.get(&1, &4).is_empty());
    // non-empty read
    assert_eq!(index.insert_or_update(2, 2), None);
    assert!(index.get(&1, &1).is_empty());
    assert_eq!(index.get(&1, &2), vec![&2]);
    assert_eq!(index.get(&1, &4), vec![&2]);
    assert_eq!(index.insert_or_update(3, 33), None);
    assert_eq!(index.get(&1, &4), vec![&2, &33]);
    assert_eq!(index.insert_or_update(4, 444), None);
    assert_eq!(index.get(&1, &4), vec![&2, &33, &444]);
    // replace
    assert_eq!(index.insert_or_update(4, 555), Some(444));
    assert_eq!(index.get(&1, &4), vec![&2, &33, &555]);
    // delete
    assert_eq!(index.delete(&3, &4), vec![33, 555]);
    assert_eq!(index.get(&1, &4), vec![&2]);
}

fn multithread_refs<I: IndexOperate<i32, i32>>(index: &mut I) {
    for i in 0..100 {
        index.insert_or_update(i, i);
        let written_key = i;
        assert_eq!(index.get(&written_key, &written_key), vec![&written_key]);
    }
}

#[test]
fn xline_baseline_test() {
    let mut index = xline_baseline::Index::<i32, i32>::new();
    basic_refs(&mut index);
}

#[test]
fn xline_baseline_test_multithread() {
    let mut index = xline_baseline::Index::<i32, i32>::new();
    multithread_refs(&mut index);
}

#[test]
fn skiplist_test() {
    let mut index = skiplist::Index::new();
    // empty read
    assert!(index.get(&1, &4).is_empty());
    // non-empty read
    assert_eq!(index.insert_or_update(2, 2), None);
    assert!(index.get(&1, &1).is_empty());
    assert_eq!(index.get(&1, &2), vec![2]);
    assert_eq!(index.get(&1, &4), vec![2]);
    assert_eq!(index.insert_or_update(3, 33), None);
    assert_eq!(index.get(&1, &4), vec![2, 33]);
    assert_eq!(index.insert_or_update(4, 444), None);
    assert_eq!(index.get(&1, &4), vec![2, 33, 444]);
    // replace
    assert_eq!(index.insert_or_update(4, 555), Some(444));
    assert_eq!(index.get(&1, &4), vec![2, 33, 555]);
    // delete
    assert_eq!(index.delete(&3, &4), vec![33, 555]);
    assert_eq!(index.get(&1, &4), vec![2]);
}

#[test]
fn skiplist_test_multithread() {
    let mut index = skiplist::Index::new();
    for i in 0..100 {
        index.insert_or_update(i, i);
        let written_key = i;
        assert_eq!(index.get(&written_key, &written_key), vec![written_key]);
    }
}

#[test]
fn skiplist_readme_example() {
    let mut index = skiplist::Index::new();
    index.insert_or_update(1, 1);
    assert_eq!(index.get(&1, &1), vec![1]);
    assert_eq!(index.delete(&1, &1), vec![1]);
    assert!(index.get(&1, &1).is_empty());
}

#[test]
fn skip_map_index_basic() {
    let mut index: SkipMapIndex<i32, i32> = SkipMapIndex::new();
    basic_refs(&mut index);
    assert_eq!(index.len(), 1);
}

#[test]
fn skip_map_index_counts_entries() {
    let mut index: SkipMapIndex<i32, i32> = SkipMapIndex::new();
    for i in 0..10 {
        index.insert_or_update(i, i);
    }
    index.insert_or_update(3, 30);
    assert_eq!(index.len(), 10);
    assert_eq!(index.delete(&2, &4), vec![2, 30, 4]);
    assert_eq!(index.len(), 7);
}

#[test]
fn xline_range_delete_leaves_empty_slots() {
    let mut index = xline_baseline::Index::<i32, i32>::new();
    index.insert_or_update(1, 10);
    index.insert_or_update(2, 20);
    assert_eq!(index.delete(&1, &2), vec![10, 20]);
    assert!(index.get(&1, &2).is_empty());
    // an emptied slot reads as absent when overwritten
    assert_eq!(index.insert_or_update(2, 21), None);
    assert_eq!(index.get(&2, &2), vec![&21]);
    assert_eq!(index.delete(&2, &2), vec![21]);
    assert_eq!(RangeType::get_range_type(&1, &1), RangeType::OneKey);
    assert_eq!(RangeType::get_range_type(&1, &2), RangeType::Range);
}

#[test]
fn cs_index_operations() {
    let mut index = CSIndex::new();
    assert_eq!(index.len(), 0);
    assert_eq!(index.insert_or_update(5, 50), None);
    assert_eq!(index.insert_or_update(1, 10), None);
    assert_eq!(index.insert_or_update(5, 55), Some(50));
    assert_eq!(index.get(&0, &9), vec![10, 55]);
    assert_eq!(index.len(), 2);
    assert_eq!(index.delete(&2, &9), vec![55]);
    assert_eq!(index.get(&0, &9), vec![10]);
}

#[test]
fn concurrent_insert() {
    for _ in 0..100 {
        let mut index = crossbeam_gate::Index::new();
        index.insert_or_update(1, 1);
        index.insert_or_update(1, 1);
    }
}

#[test]
fn concurrent_remove() {
    for _ in 0..100 {
        let mut index = crossbeam_gate::Index::new();
        index.delete(&1, &2);
        index.delete(&1, &2);
    }
}

#[test]
fn crossbeam_gate_updates_and_deletes_the_range() {
    let mut index = crossbeam_gate::Index::new();
    // a new key: the value given comes back
    assert_eq!(index.insert_or_update(1, 10), Some(10));
    // a present key: the value it held comes back, and it takes the new one
    assert_eq!(index.insert_or_update(1, 11), Some(10));
    assert_eq!(index.get(&1, &1), vec![11]);
    index.insert_or_update(2, 20);
    index.insert_or_update(4, 40);
    assert_eq!(index.get(&1, &4), vec![11, 20, 40]);
    // key 3 is absent: the delete goes on past it
    assert_eq!(index.delete(&1, &4), vec![11, 20, 40]);
    assert_eq!(index.get(&1, &4), Vec::<i32>::new());
    index.insert_or_update(7, 70);
    assert_eq!(index.delete(&5, &6), Vec::<i32>::new());
    assert_eq!(index.delete(&9, &8), Vec::<i32>::new());
    assert_eq!(index.get(&0, &10), vec![70]);
    assert_eq!(index.delete(&i32::MAX, &i32::MAX), Vec::<i32>::new());
}

#[test]
fn basedata_operations() {
    let mut data: Basedata<i32, i32> = Basedata::new();
    assert!(data.get(&5, &1).is_empty());
    assert_eq!(data.insert_or_update(1, 10), None);
    assert_eq!(data.insert_or_update(2, 20), None);
    assert_eq!(data.insert_or_update(3, 30), None);
    assert_eq!(data.get(&1, &3), vec![&10, &20, &30]);
    assert_eq!(data.get(&2, &2), vec![&20]);
    assert_eq!(data.insert_or_update(2, 22), Some(20));
    // the delete takes the range and leaves the rest
    assert_eq!(data.delete(&2, &3), vec![22, 30]);
    assert_eq!(data.get(&0, &9), vec![&10]);
    assert_eq!(data.delete(&5, &9), Vec::<i32>::new());
}
