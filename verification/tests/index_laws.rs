use concurrent_index::basedata::Basedata;
use concurrent_index::crossbeam_gate;
use concurrent_index::cs_index::CSIndex;
use concurrent_index::lockfree_queue::Queue;
use concurrent_index::simple::SimpleIndex;
use concurrent_index::skip::SkipList;
use concurrent_index::skiplist;
use concurrent_index::skipmap::index::SkipMapIndex;
use concurrent_index::xline_baseline;
use concurrent_index::{Index, IndexOperate};

fn filled<I: IndexOperate<i32, i32>>(index: &mut I) {
    for k in [5, 1, 9, 3, 7] {
        index.insert_or_update(k, k * 10);
    }
}

fn read_after_write<I: IndexOperate<i32, i32>>(index: &mut I) {
    filled(index);
    // the read gives back the last write, and nothing else moved
    index.insert_or_update(3, 333);
    assert_eq!(index.get(&3, &3), vec![&333]);
    assert_eq!(index.get(&1, &1), vec![&10]);
    assert_eq!(index.get(&5, &9), vec![&50, &70, &90]);
    index.insert_or_update(4, 44);
    assert_eq!(index.get(&4, &4), vec![&44]);
    assert_eq!(index.get(&3, &5), vec![&333, &44, &50]);
}

fn write_returns_previous_read<I: IndexOperate<i32, i32>>(index: &mut I) {
    filled(index);
    let before = index.get(&7, &7).into_iter().copied().collect::<Vec<i32>>();
    assert_eq!(index.insert_or_update(7, 77).into_iter().collect::<Vec<i32>>(), before);
    let before = index.get(&8, &8).into_iter().copied().collect::<Vec<i32>>();
    assert_eq!(index.insert_or_update(8, 88).into_iter().collect::<Vec<i32>>(), before);
    assert!(before.is_empty());
}

fn read_after_delete<I: IndexOperate<i32, i32>>(index: &mut I) {
    filled(index);
    let read = index.get(&3, &7).into_iter().copied().collect::<Vec<i32>>();
    // the delete gives what the read gave
    assert_eq!(index.delete(&3, &7), read);
    assert!(index.get(&3, &7).is_empty());
    // the keys outside the range keep their values
    assert_eq!(index.get(&1, &1), vec![&10]);
    assert_eq!(index.get(&9, &9), vec![&90]);
    assert_eq!(index.get(&0, &100), vec![&10, &90]);
}

fn delete_undoes_insert<I: IndexOperate<i32, i32>>(index: &mut I) {
    filled(index);
    let before = index.get(&0, &100).into_iter().copied().collect::<Vec<i32>>();
    assert_eq!(index.insert_or_update(4, 44), None);
    assert_eq!(index.delete(&4, &4), vec![44]);
    assert_eq!(index.get(&0, &100).into_iter().copied().collect::<Vec<i32>>(), before);
}

#[test]
fn simple_index_laws() {
    delete_undoes_insert(&mut SimpleIndex::<i32, i32>::new());
    read_after_write(&mut SimpleIndex::<i32, i32>::new());
    write_returns_previous_read(&mut SimpleIndex::<i32, i32>::new());
    read_after_delete(&mut SimpleIndex::<i32, i32>::new());
}

#[test]
fn skip_map_index_laws() {
    delete_undoes_insert(&mut SkipMapIndex::<i32, i32>::new());
    read_after_write(&mut SkipMapIndex::<i32, i32>::new());
    write_returns_previous_read(&mut SkipMapIndex::<i32, i32>::new());
    read_after_delete(&mut SkipMapIndex::<i32, i32>::new());
}

#[test]
fn baseline_index_laws() {
    read_after_write(&mut xline_baseline::Index::<i32, i32>::new());
    write_returns_previous_read(&mut xline_baseline::Index::<i32, i32>::new());
    read_after_delete(&mut xline_baseline::Index::<i32, i32>::new());
    let mut index = xline_baseline::Index::<i32, i32>::new();
    filled(&mut index);
    assert_eq!(index.delete(&5, &5), vec![50]);
    assert!(index.get(&5, &5).is_empty());
}

#[test]
fn basedata_laws() {
    delete_undoes_insert(&mut Basedata::<i32, i32>::new());
    read_after_write(&mut Basedata::<i32, i32>::new());
    write_returns_previous_read(&mut Basedata::<i32, i32>::new());
    read_after_delete(&mut Basedata::<i32, i32>::new());
}

#[test]
fn count_after_writes() {
    let mut index = SkipMapIndex::<i32, i32>::new();
    filled(&mut index);
    assert_eq!(index.len(), 5);
    // a new key adds one, a present key none
    index.insert_or_update(2, 20);
    assert_eq!(index.len(), 6);
    index.insert_or_update(2, 21);
    assert_eq!(index.len(), 6);
    // a delete takes off as many as it returns
    let gone = index.delete(&2, &5);
    assert_eq!(gone.len(), 3);
    assert_eq!(index.len(), 3);
    let mut simple = SimpleIndex::<i32, i32>::new();
    filled(&mut simple);
    assert_eq!(simple.len(), 5);
    simple.delete(&0, &4);
    assert_eq!(simple.len(), 3);
}

#[test]
fn map_backed_index_laws() {
    let mut cs = CSIndex::new();
    let mut plain = skiplist::Index::new();
    let mut gate = crossbeam_gate::Index::new();
    for k in [5, 1, 9, 3, 7] {
        cs.insert_or_update(k, k * 10);
        plain.insert_or_update(k, k * 10);
        gate.insert_or_update(k, k * 10);
    }
    // a read gives back the last write
    cs.insert_or_update(3, 333);
    plain.insert_or_update(3, 333);
    gate.insert_or_update(3, 333);
    assert_eq!(cs.get(&3, &3), vec![333]);
    assert_eq!(plain.get(&3, &3), vec![333]);
    assert_eq!(gate.get(&3, &3), vec![333]);
    // a write returns what a read of the key gave
    assert_eq!(cs.get(&9, &9), vec![90]);
    assert_eq!(cs.insert_or_update(9, 99), Some(90));
    assert_eq!(plain.insert_or_update(9, 99), Some(90));
    assert_eq!(cs.insert_or_update(4, 44), None);
    assert_eq!(plain.insert_or_update(4, 44), None);
    // after a delete the range reads empty and the rest stays
    assert_eq!(cs.delete(&3, &7), vec![333, 44, 50, 70]);
    assert_eq!(plain.delete(&3, &7), vec![333, 44, 50, 70]);
    assert_eq!(gate.delete(&3, &7), vec![333, 50, 70]);
    assert!(cs.get(&3, &7).is_empty());
    assert!(plain.get(&3, &7).is_empty());
    assert!(gate.get(&3, &7).is_empty());
    assert_eq!(cs.get(&0, &100), vec![10, 99]);
    assert_eq!(plain.get(&0, &100), vec![10, 99]);
    assert_eq!(gate.get(&0, &100), vec![10, 90]);
    // a one-key delete undoes the write of a new key
    assert_eq!(cs.insert_or_update(50, 500), None);
    assert_eq!(cs.delete(&50, &50), vec![500]);
    assert_eq!(cs.get(&0, &100), vec![10, 99]);
}

#[test]
fn skip_list_laws() {
    let mut list = SkipList::new(4);
    list.insert_or_update(0, 0);
    for k in [5, 1, 9, 3, 7] {
        list.insert_or_update(k, k * 10);
    }
    list.insert_or_update(3, 333);
    assert_eq!(list.get_range(&3, &3), vec![333]);
    assert_eq!(list.find(3), Some(333));
    assert_eq!(list.find(5), Some(50));
    assert_eq!(list.find(4), None);
    assert_eq!(list.get_range(&0, &100), vec![0, 10, 333, 50, 70, 90]);
    // a delete of a key: it reads empty, the rest stays
    list.delete(5);
    assert_eq!(list.find(5), None);
    assert_eq!(list.get_range(&0, &100), vec![0, 10, 333, 70, 90]);
    // a delete undoes the insert of a new key
    list.insert_or_update(4, 44);
    list.delete(4);
    assert_eq!(list.get_range(&0, &100), vec![0, 10, 333, 70, 90]);
}

#[test]
fn queue_laws() {
    let mut queue = Queue::new();
    queue.push(1);
    assert_eq!(queue.pop(), Some(1));
    assert_eq!(queue.pop(), None);
    queue.push(2);
    queue.push(3);
    queue.push(4);
    assert_eq!(queue.pop(), Some(2));
    queue.push(5);
    assert_eq!(queue.pop(), Some(3));
    assert_eq!(queue.pop(), Some(4));
    assert_eq!(queue.pop(), Some(5));
    assert!(queue.is_empty());
}

fn reversed_range_reads_nothing<I: IndexOperate<i32, i32>>(index: &mut I) {
    filled(index);
    assert!(index.get(&7, &3).is_empty());
    assert!(index.delete(&7, &3).is_empty());
    assert_eq!(index.get(&0, &100), vec![&10, &30, &50, &70, &90]);
}

#[test]
fn reversed_ranges_are_empty() {
    reversed_range_reads_nothing(&mut SimpleIndex::<i32, i32>::new());
    reversed_range_reads_nothing(&mut SkipMapIndex::<i32, i32>::new());
    reversed_range_reads_nothing(&mut xline_baseline::Index::<i32, i32>::new());
    reversed_range_reads_nothing(&mut Basedata::<i32, i32>::new());
}

#[test]
fn cs_index_len_counts_bindings() {
    let mut cs = CSIndex::new();
    assert_eq!(cs.len(), 0);
    for k in [5, 1, 9, 3, 7] {
        cs.insert_or_update(k, k);
    }
    assert_eq!(cs.len(), 5);
    // a write of a present key adds nothing, a new key adds one
    assert_eq!(cs.insert_or_update(3, 30), Some(3));
    assert_eq!(cs.len(), 5);
    assert_eq!(cs.insert_or_update(4, 4), None);
    assert_eq!(cs.len(), 6);
    // a delete takes off as many as it returns
    let gone = cs.delete(&3, &7);
    assert_eq!(gone, vec![30, 4, 5, 7]);
    assert_eq!(cs.len(), 2);
    // a reversed range removes nothing
    assert!(cs.delete(&9, &1).is_empty());
    assert_eq!(cs.len(), 2);
}
