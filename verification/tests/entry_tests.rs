use hashmapper::Entry;
use hashmapper::HashMap;

fn random_stat_buff() -> u8 {
    42
}

#[test]
fn entry_entry_api() {
    let mut m: HashMap<u64, String> = HashMap::new();
    let e0 = m.entry(3);
    match e0 {
        Entry::Occupied(_) => unreachable!(),
        Entry::Vacant(_) => (),
    };
    e0.or_insert("hi".to_string());
    assert_eq!(*m.index(&3), "hi".to_string());
    assert!(m.contains_key(&3));
    let e1 = m.entry(3);
    match e1 {
        Entry::Occupied(_) => (),
        Entry::Vacant(_) => unreachable!(),
    };
    // should not replace since entry occupied
    e1.or_insert("hi0".to_string());
    assert_eq!(*m.index(&3), "hi".to_string());
    m.entry(2).or_insert_with(|| "hi".to_string());
    assert_eq!(*m.index(&2), "hi".to_string());
}

#[test]
fn key_and_modify() {
    let mut map_key: HashMap<&str, u32> = HashMap::new();
    assert_eq!(map_key.entry("poneyland").key(), &"poneyland");

    let mut map: HashMap<&str, u32> = HashMap::new();

    map.entry("poneyland").and_modify(|e| *e += 1).or_insert(42);
    assert_eq!(*map.index(&"poneyland"), 42);

    map.entry("poneyland").and_modify(|e| *e += 1).or_insert(42);
    assert_eq!(*map.index(&"poneyland"), 43);
}

#[test]
fn test_entry_api() {
    let mut player_stats = HashMap::new();

    // insert a key only if it doesn't already exist
    player_stats.entry("health").or_insert(100);

    // insert a key using a function that provides a new value only if it
    // doesn't already exist
    player_stats.entry("defence").or_insert_with(random_stat_buff);

    // update a key, guarding against the key possibly not being set
    let stat = player_stats.entry("attack").or_insert(100);
    *stat += random_stat_buff();
    assert_eq!(*player_stats.index(&"attack"), 142);
    assert_eq!(*player_stats.index(&"health"), 100);
    assert_eq!(*player_stats.index(&"defence"), 42);
}

#[test]
fn vacant_entry_insert() {
    let mut m: HashMap<u64, u64> = HashMap::new();
    let e = m.entry(5);
    match e {
        Entry::Vacant(ve) => {
            let v = ve.insert(50);
            *v += 1;
        },
        Entry::Occupied(_) => unreachable!(),
    }
    assert_eq!(m.get(&5), Some(&51));
    assert_eq!(m.len(), 1);
}

#[test]
fn entry_key_both_sides() {
    let mut m: HashMap<u64, u64> = HashMap::new();
    m.insert(8, 80);
    assert_eq!(m.entry(8).key(), &8);
    assert_eq!(m.entry(9).key(), &9);
}
