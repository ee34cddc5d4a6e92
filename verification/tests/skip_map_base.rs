use concurrent_index::skipmap::base::{height_for_bits, random_height, BaseSkipMap};

#[test]
fn test_insert_or_update() {
    let mut skip_map: BaseSkipMap<String, String> = BaseSkipMap::new();
    skip_map.insert_or_update(String::from("a"), String::from("1"));
    skip_map.insert_or_update(String::from("b"), String::from("2"));
    skip_map.insert_or_update(String::from("d"), String::from("4"));
    skip_map.insert_or_update(String::from("g"), String::from("7"));

    skip_map.insert_or_update(String::from("h"), String::from("8"));
    skip_map.insert_or_update(String::from("i"), String::from("9"));
    skip_map.insert_or_update(String::from("e"), String::from("6"));
    skip_map.insert_or_update(String::from("f"), String::from("5"));

    let old = skip_map.insert_or_update(String::from("a"), String::from("2"));
    assert_eq!(old.unwrap(), "1");
    assert_eq!(skip_map.get(&String::from("a")).expect("expected 2"), "2");
    assert_eq!(skip_map.get(&String::from("g")).expect("expected 7"), "7");
}

#[test]
fn test_lower_bound() {
    let mut skip_map: BaseSkipMap<String, String> = BaseSkipMap::new();
    skip_map.insert_or_update(String::from("a"), String::from("1"));
    skip_map.insert_or_update(String::from("b"), String::from("2"));
    skip_map.insert_or_update(String::from("d"), String::from("4"));
    skip_map.insert_or_update(String::from("g"), String::from("7"));

    skip_map.insert_or_update(String::from("h"), String::from("8"));
    skip_map.insert_or_update(String::from("i"), String::from("9"));
    skip_map.insert_or_update(String::from("e"), String::from("6"));
    skip_map.insert_or_update(String::from("f"), String::from("5"));

    let node = skip_map.lower_bound_before(&String::from("g"));
    assert_eq!(skip_map.node_key(node), "f");

    let node = skip_map.lower_bound_before(&String::from("j"));
    assert_eq!(skip_map.node_key(node), "i");

    let node = skip_map.lower_bound_before(&String::from("a"));
    assert_eq!(skip_map.node_key(node), "");
}

#[test]
fn test_lower_bound_all_levels() {
    let mut skip_map: BaseSkipMap<String, String> = BaseSkipMap::new();
    skip_map.insert_or_update(String::from("a"), String::from("1"));
    skip_map.insert_or_update(String::from("b"), String::from("2"));
    skip_map.insert_or_update(String::from("d"), String::from("4"));
    skip_map.insert_or_update(String::from("g"), String::from("7"));

    skip_map.insert_or_update(String::from("h"), String::from("8"));
    skip_map.insert_or_update(String::from("i"), String::from("9"));
    skip_map.insert_or_update(String::from("e"), String::from("6"));
    skip_map.insert_or_update(String::from("f"), String::from("5"));
}

#[test]
fn test_range_get() {
    let mut skip_map: BaseSkipMap<u32, String> = BaseSkipMap::new();
    for i in 0..100 {
        skip_map.insert_or_update(i as u32, format!("value{}", i));
    }

    let vs = skip_map.get_range(&0, &49);
    assert_eq!(vs.len(), 50);

    let vs = skip_map.get_range(&0, &10000);
    assert_eq!(vs.len(), 100);
}

#[test]
fn test_range_delete() {
    let mut skip_map: BaseSkipMap<u32, String> = BaseSkipMap::new();
    for i in 0..100 {
        skip_map.insert_or_update(i as u32, format!("value{}", i));
    }

    let vs = skip_map.del_range(&30, &39);
    assert_eq!(vs.len(), 10);

    let vs = skip_map.get_range(&0, &10000);
    assert_eq!(vs.len(), 90);
}

#[test]
fn range_get_returns_values_in_key_order() {
    let mut skip_map: BaseSkipMap<u32, u32> = BaseSkipMap::new();
    for i in [5u32, 1, 9, 3, 7] {
        skip_map.insert_or_update(i, i * 10);
    }
    assert_eq!(skip_map.get_range(&2, &8), vec![&30, &50, &70]);
    assert_eq!(skip_map.get_range(&8, &2), Vec::<&u32>::new());
    assert_eq!(skip_map.get(&4), None);
    assert_eq!(skip_map.insert_or_update(3, 33), Some(30));
    assert_eq!(skip_map.get(&3), Some(&33));
}

#[test]
fn del_range_removes_only_the_range() {
    let mut skip_map: BaseSkipMap<u32, u32> = BaseSkipMap::new();
    for i in 0..20u32 {
        skip_map.insert_or_update(i, i + 100);
    }
    assert_eq!(skip_map.del_range(&5, &7), vec![105, 106, 107]);
    assert_eq!(skip_map.get(&6), None);
    assert_eq!(skip_map.get(&8), Some(&108));
    assert_eq!(skip_map.get_range(&4, &8), vec![&104, &108]);
    assert_eq!(skip_map.del_range(&5, &7), Vec::<u32>::new());
}

#[test]
fn height_for_bits_counts_trailing_zeros() {
    assert_eq!(height_for_bits(1), 1);
    assert_eq!(height_for_bits(0b1000), 4);
    assert_eq!(height_for_bits(0), 24);
    let h = random_height();
    assert!(1 <= h && h <= 24);
}
