use hashmapper::Bucket;
use hashmapper::HashMap;
use hashmapper::HashMapIterator;

#[test]
fn create_insert() {
    let mut m: HashMap<u64, String> = HashMap::new();
    assert_eq!(m.len(), 0);
    assert!(m.insert(3, "hi".to_string()).is_none());
    assert_eq!(m.len(), 1);
}

#[test]
fn insert_get_remove() {
    let mut m: HashMap<u64, String> = HashMap::new();
    assert!(m.insert(3, "hi".to_string()).is_none());
    assert_eq!(m.get(&3), Some(&"hi".to_string()));
    assert_eq!(m.remove(&3), Some("hi".to_string()));
    assert_eq!(m.len(), 0)
}

#[test]
fn iter_on_bucket() {
    let mut bkt: Bucket<u64, String> = Bucket::new();
    assert!(bkt.insert(3, "hi".to_string()).is_none());
    assert!(bkt.insert(2, "hi".to_string()).is_none());
    assert!(bkt.insert(1, "hi".to_string()).is_none());
    let mut nitems = 0;
    let mut at = 0;
    while let Some(p) = bkt.at(at) {
        let (k, v) = p;
        nitems += 1;
        assert!(k <= &3);
        assert_eq!(v, &"hi".to_string());
        at += 1;
    }
    assert_eq!(nitems, 3);
}

#[test]
fn iter_on_hashmap() {
    let mut m: HashMap<u64, String> = HashMap::new();
    assert_eq!(m.insert(3, "hi".to_string()), None);
    assert_eq!(m.insert(4, "hi".to_string()), None);
    assert_eq!(m.insert(5, "hi".to_string()), None);
    assert_eq!(m.insert(0, "hi".to_string()), None);
    let mut items = 0;
    let mut it = HashMapIterator::new(&m);
    while let Some((k, v)) = it.next() {
        items += 1;
        assert!(k <= &5);
        assert_eq!(v, &"hi".to_string());
    }
    assert_eq!(items, 4);
}

#[test]
fn index_in_map() {
    let mut hm = HashMap::new();
    hm.insert(3, 2);
    assert_eq!(*hm.index(&3), 2);
}

#[test]
fn std_example() {
    let mut book_reviews = HashMap::new();

    book_reviews.insert(
        "Adventures of Huckleberry Finn".to_string(),
        "My favorite book.".to_string(),
    );
    book_reviews.insert(
        "Grimms' Fairy Tales".to_string(),
        "Masterpiece.".to_string(),
    );
    book_reviews.insert(
        "Pride and Prejudice".to_string(),
        "Very enjoyable.".to_string(),
    );
    book_reviews.insert(
        "The Adventures of Sherlock Holmes".to_string(),
        "Eye lyked it alot.".to_string(),
    );

    if !book_reviews.contains_key(&"Les Misérables".to_string()) {
        println!(
            "We've got {} reviews, but Les Misérables ain't one.",
            book_reviews.len()
        );
    }

    book_reviews.remove(&"The Adventures of Sherlock Holmes".to_string());

    let to_find = ["Pride and Prejudice", "Alice's Adventure in Wonderland"];
    for &book in &to_find {
        match book_reviews.get(&book.to_string()) {
            Some(review) => println!("{}: {}", book, review),
            None => println!("{} is unreviewed.", book),
        }
    }

    println!(
        "Review for Jane: {}",
        book_reviews.index(&"Pride and Prejudice".to_string())
    );

    let mut it = HashMapIterator::new(&book_reviews);
    while let Some((book, review)) = it.next() {
        println!("{}: \"{}\"", book, review);
    }
}

#[test]
fn key_value_iterators() {
    let mut map = HashMap::new();
    map.insert(1, 1);
    map.insert(2, 2);
    map.insert(5, 3);

    let mut vals = map.values();
    while let Some(val) = vals.next() {
        assert!(&1 <= val && val <= &3);
    }
    let mut ks = map.keys();
    while let Some(k) = ks.next() {
        assert!(&1 <= k && k <= &5);
    }
}

#[test]
fn scenario_four_keys() {
    let mut m: HashMap<u64, String> = HashMap::new();
    assert_eq!(m.insert(3, "hi".to_string()), None);
    assert_eq!(m.insert(4, "hi".to_string()), None);
    assert_eq!(m.insert(5, "hi".to_string()), None);
    assert_eq!(m.insert(0, "hi".to_string()), None);
    assert_eq!(m.len(), 4);
    let mut seen = vec![];
    let mut it = HashMapIterator::new(&m);
    while let Some((k, v)) = it.next() {
        assert_eq!(v, &"hi".to_string());
        seen.push(*k);
    }
    assert_eq!(seen.len(), 4);
    seen.sort();
    assert_eq!(seen, vec![0, 3, 4, 5]);
    assert_eq!(m.get(&5), Some(&"hi".to_string()));
    assert_eq!(m.remove(&4), Some("hi".to_string()));
    assert_eq!(m.len(), 3);
}

#[test]
fn replacement_counts_every_insert() {
    let mut m: HashMap<u64, u64> = HashMap::new();
    assert_eq!(m.insert(7, 1), None);
    assert_eq!(m.insert(7, 2), Some(1));
    assert_eq!(m.len(), 2);
    assert_eq!(m.get(&7), Some(&2));
}

#[test]
fn remove_absent_changes_nothing() {
    let mut m: HashMap<u64, u64> = HashMap::new();
    assert_eq!(m.remove(&9), None);
    assert_eq!(m.len(), 0);
    m.insert(1, 10);
    assert_eq!(m.remove(&9), None);
    assert_eq!(m.len(), 1);
    assert_eq!(m.get(&1), Some(&10));
}

#[test]
fn growth_keeps_every_pair() {
    let mut m: HashMap<u64, u64> = HashMap::new();
    let n: u64 = 4000;
    for k in 0..n {
        assert_eq!(m.insert(k, k * 2), None);
    }
    assert_eq!(m.len(), 4000);
    for k in 0..n {
        assert_eq!(m.get(&k), Some(&(k * 2)));
    }
    let mut items = 0;
    let mut it = HashMapIterator::new(&m);
    while let Some((k, v)) = it.next() {
        assert_eq!(*v, *k * 2);
        items += 1;
    }
    assert_eq!(items, 4000);
}

#[test]
fn string_keys_round_trip() {
    let mut m: HashMap<String, u64> = HashMap::new();
    assert_eq!(m.insert("alpha".to_string(), 1), None);
    assert_eq!(m.insert("beta".to_string(), 2), None);
    let other_alpha = String::from("alpha");
    assert_eq!(m.get(&other_alpha), Some(&1));
    assert_eq!(m.insert(other_alpha, 3), Some(1));
    assert_eq!(m.get(&"alpha".to_string()), Some(&3));
    assert_eq!(m.get(&"gamma".to_string()), None);
    assert_eq!(m.remove(&"beta".to_string()), Some(2));
    assert_eq!(m.get(&"beta".to_string()), None);
}

#[test]
fn values_mut_rewrites_values() {
    let mut m: HashMap<u64, u64> = HashMap::new();
    m.insert(1, 10);
    m.insert(2, 20);
    m.insert(3, 30);
    let mut vm = m.values_mut();
    while let Some(v) = vm.next() {
        *v += 1;
    }
    assert_eq!(m.get(&1), Some(&11));
    assert_eq!(m.get(&2), Some(&21));
    assert_eq!(m.get(&3), Some(&31));
    assert_eq!(m.len(), 3);
}

#[test]
fn bucket_get_insert_remove() {
    let mut bkt: Bucket<u64, u64> = Bucket::new();
    assert_eq!(bkt.get(&1), None);
    assert!(!bkt.contains_key(&1));
    assert_eq!(bkt.insert(1, 5), None);
    assert!(bkt.contains_key(&1));
    assert_eq!(bkt.get(&1), Some(&5));
    assert_eq!(bkt.insert(1, 6), Some(5));
    assert_eq!(bkt.len(), 1);
    assert_eq!(bkt.remove(&1), Some(6));
    assert_eq!(bkt.remove(&1), None);
    assert_eq!(bkt.len(), 0);
    assert!(bkt.at(0).is_none());
}

#[test]
fn integer_key_types() {
    let mut mi: HashMap<i32, u64> = HashMap::new();
    mi.insert(-5, 50);
    mi.insert(5, 51);
    assert_eq!(mi.get(&-5), Some(&50));
    assert_eq!(mi.get(&5), Some(&51));
    assert_eq!(mi.remove(&-5), Some(50));
    assert_eq!(mi.get(&-5), None);

    let mut ml: HashMap<i64, u64> = HashMap::new();
    ml.insert(-1, 1);
    ml.insert(i64::MIN, 2);
    ml.insert(i64::MAX, 3);
    assert_eq!(ml.get(&-1), Some(&1));
    assert_eq!(ml.get(&i64::MIN), Some(&2));
    assert_eq!(ml.get(&i64::MAX), Some(&3));

    let mut mu: HashMap<usize, u8> = HashMap::new();
    mu.insert(1024, 7);
    assert_eq!(mu.get(&1024), Some(&7));

    let mut mb: HashMap<u8, u8> = HashMap::new();
    mb.insert(255, 9);
    assert_eq!(mb.get(&255), Some(&9));

    let mut mw: HashMap<u32, u8> = HashMap::new();
    mw.insert(77, 4);
    assert_eq!(mw.get(&77), Some(&4));
}

#[test]
fn str_slice_keys() {
    let mut m: HashMap<&str, u64> = HashMap::new();
    m.insert("", 0);
    m.insert("a", 1);
    m.insert("ab", 2);
    assert_eq!(m.get(&""), Some(&0));
    assert_eq!(m.get(&"a"), Some(&1));
    assert_eq!(m.get(&"ab"), Some(&2));
    assert_eq!(m.get(&"b"), None);
    assert_eq!(m.insert("a", 10), Some(1));
    assert_eq!(m.get(&"a"), Some(&10));
}
