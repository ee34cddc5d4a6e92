use concurrent_index::skip::{Node, SkipList};

#[test]
fn skip_test() {
    let mut skiplist = SkipList::new(2);
    skiplist.insert_or_update(1, 1);
    skiplist.insert_or_update(3, 3);
    skiplist.insert_or_update(2, 2);
    skiplist.insert_or_update(4, 4);
    assert_eq!(Some(2), skiplist.find(2));
    assert_eq!(Some(3), skiplist.find(3));
    skiplist.insert_or_update(2, 5);
    assert_eq!(Some(5), skiplist.find(2));
    skiplist.insert_or_update(5, 5);
    assert_eq!(Some(5), skiplist.find(5));
    skiplist.insert_or_update(8, 8);
    assert_eq!(Some(8), skiplist.find(8));
    skiplist.insert_or_update(7, 7);
    assert_eq!(Some(7), skiplist.find(7));
    skiplist.insert_or_update(6, 6);
    assert_eq!(Some(6), skiplist.find(6));
    assert_eq!(vec![1, 5, 3, 4, 5, 6, 7], skiplist.get_range(&1, &7));
}

#[test]
fn skip_list_find_absent_key() {
    let mut skiplist = SkipList::new(4);
    assert_eq!(None, skiplist.find(3));
    skiplist.insert_or_update(1, 10);
    skiplist.insert_or_update(5, 50);
    assert_eq!(None, skiplist.find(3));
    assert_eq!(None, skiplist.find(9));
    assert_eq!(Some(10), skiplist.find(1));
}

#[test]
fn skip_list_get_range_edges() {
    let mut skiplist = SkipList::new(3);
    for k in [10, 40, 20, 30, 50] {
        skiplist.insert_or_update(k, k * 2);
    }
    // an absent start key still reads the keys of the range
    assert_eq!(vec![60, 80, 100], skiplist.get_range(&25, &50));
    // a reversed range reads nothing
    assert_eq!(Vec::<i32>::new(), skiplist.get_range(&30, &20));
    // the range stops before the first key past its end
    assert_eq!(vec![40, 60], skiplist.get_range(&20, &35));
    assert_eq!(vec![20, 40, 60, 80, 100], skiplist.get_range(&10, &1000));
    assert_eq!(vec![20, 40], skiplist.get_range(&0, &20));
}

#[test]
fn skip_list_range_from_an_absent_key() {
    let mut s = SkipList::<i32, i32>::new(2);
    s.insert_or_update(1, 1);
    s.insert_or_update(3, 3);
    assert_eq!(vec![3], s.get_range(&2, &3));
}

#[test]
fn skip_list_keys_below_the_first() {
    let mut s = SkipList::<i32, i32>::new(2);
    s.insert_or_update(5, 5);
    s.insert_or_update(1, 1);
    assert_eq!(Some(1), s.find(1));
    assert_eq!(Some(5), s.find(5));
    assert_eq!(None, s.find(0));
    assert_eq!(vec![1, 5], s.get_range(&0, &9));
}

#[test]
fn skip_list_delete_a_key() {
    let mut s = SkipList::<i32, i32>::new(2);
    s.insert_or_update(1, 1);
    s.insert_or_update(2, 2);
    s.insert_or_update(3, 3);
    s.delete(2);
    assert_eq!(None, s.find(2));
    assert_eq!(Some(1), s.find(1));
    assert_eq!(Some(3), s.find(3));
    assert_eq!(vec![1, 3], s.get_range(&1, &3));
    // deleting the smallest key, an absent key, and then all the rest
    s.delete(1);
    s.delete(7);
    assert_eq!(vec![3], s.get_range(&0, &9));
    s.delete(3);
    assert_eq!(Vec::<i32>::new(), s.get_range(&0, &9));
    // the list is usable again
    s.insert_or_update(2, 20);
    assert_eq!(Some(20), s.find(2));
}

#[test]
fn skip_list_many_inserts_and_deletes() {
    let mut s = SkipList::<i32, i32>::new(6);
    for k in 0..200 {
        s.insert_or_update((k * 37) % 200, k);
    }
    for k in (0..200).step_by(2) {
        s.delete(k);
    }
    for k in 0..200 {
        let want = if k % 2 == 0 { None } else { Some((0..200).find(|j| (j * 37) % 200 == k).unwrap()) };
        assert_eq!(want, s.find(k));
    }
    assert_eq!(100, s.get_range(&0, &199).len());
}

#[test]
fn skip_list_insert_new_keys() {
    let mut skiplist = SkipList::new(5);
    // the first key of an empty list is linked on every level
    let level = skiplist.insert(1, 101);
    assert_eq!(level, 5);
    for k in 2..200 {
        let level = skiplist.insert(k, k + 100);
        assert!((1..=5).contains(&level));
    }
    for k in 1..200 {
        assert_eq!(Some(k + 100), skiplist.find(k));
    }
    assert_eq!(vec![103, 104, 105], skiplist.get_range(&3, &5));
    // a key already there takes the new value
    skiplist.insert(3, 0);
    assert_eq!(vec![0, 104, 105], skiplist.get_range(&3, &5));
}

#[test]
fn skip_list_updates_keep_one_entry() {
    let mut skiplist = SkipList::new(6);
    for round in 0..5 {
        for k in 0..50 {
            skiplist.insert_or_update(k, k + round);
        }
    }
    for k in 0..50 {
        assert_eq!(Some(k + 4), skiplist.find(k));
    }
    assert_eq!((0..50).map(|k| k + 4).collect::<Vec<i32>>(), skiplist.get_range(&0, &49));
}

#[test]
fn skip_list_delete_on_empty_list() {
    let mut skiplist: SkipList<i32, i32> = SkipList::new(2);
    skiplist.delete(1);
    assert_eq!(None, skiplist.find(1));
}

#[test]
fn skip_list_nodes_go_into_the_arena() {
    let mut arena: Vec<Node<i32, i32>> = Vec::new();
    assert_eq!(Node::new_ref_node(&mut arena, 1, 10), 0);
    assert_eq!(Node::new_with_node(&mut arena, Node::new(2, 20)), 1);
    assert_eq!(Node::new_ref_node(&mut arena, 3, 30), 2);
    assert_eq!(arena.len(), 3);
}

#[test]
fn skip_list_first_key_takes_every_level() {
    let mut s = SkipList::<i32, i32>::new(3);
    assert_eq!(s.insert(7, 70), 3);
    let level = s.insert(8, 80);
    assert!((1..=3).contains(&level));
    // emptied again, the next key is linked on every level
    s.delete(7);
    s.delete(8);
    assert_eq!(s.insert(9, 90), 3);
    assert_eq!(Some(90), s.find(9));
}
