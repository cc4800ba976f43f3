use station_stats::station::Station;
use station_stats::table::StationMap;

#[test]
fn a_new_map_knows_no_name() {
    let map = StationMap::new();
    assert_eq!(map.get(b"a"), None);
    assert_eq!(map.readings(), 0);
    let mut roomy = StationMap::with_capacity(10_000);
    assert_eq!(roomy.get(b"a"), None);
    assert_eq!(roomy.readings(), 0);
    assert!(roomy.drain().is_empty());
}

#[test]
fn record_seeds_then_folds() {
    let mut map = StationMap::new();
    map.record(b"a", 10);
    assert_eq!(map.get(b"a"), Some(Station::from(10)));
    assert_eq!(map.get(b"b"), None);
    map.record(b"a", 30);
    map.record(b"b", -5);
    let mut expected = Station::from(10);
    expected.update(30);
    assert_eq!(map.get(b"a"), Some(expected));
    assert_eq!(map.get(b"b"), Some(Station::from(-5)));
    assert_eq!(map.readings(), 3);
}

#[test]
fn names_are_told_apart_byte_by_byte() {
    let mut map = StationMap::new();
    map.record(b"ab", 1);
    map.record(b"a", 2);
    map.record(b"b", 3);
    map.record(b"", 4);
    map.record(b"AB", 5);
    map.record(&[0xc3, 0xa9], 6);
    assert_eq!(map.get(b"ab"), Some(Station::from(1)));
    assert_eq!(map.get(b"a"), Some(Station::from(2)));
    assert_eq!(map.get(b"b"), Some(Station::from(3)));
    assert_eq!(map.get(b""), Some(Station::from(4)));
    assert_eq!(map.get(b"AB"), Some(Station::from(5)));
    assert_eq!(map.get(&[0xc3, 0xa9]), Some(Station::from(6)));
    assert_eq!(map.get(&[0xc3]), None);
}

#[test]
fn drain_hands_out_every_entry_once_and_empties_the_map() {
    let mut map = StationMap::new();
    map.record(b"a", 10);
    map.record(b"b", 20);
    map.record(b"a", 30);
    map.record(b"c", 40);
    let mut entries = map.drain();
    entries.sort_by(|x, y| x.0.cmp(&y.0));
    let mut a = Station::from(10);
    a.update(30);
    assert_eq!(
        entries,
        vec![
            (b"a".to_vec(), a),
            (b"b".to_vec(), Station::from(20)),
            (b"c".to_vec(), Station::from(40)),
        ]
    );
    assert_eq!(map.get(b"a"), None);
    assert_eq!(map.readings(), 0);
    assert!(map.drain().is_empty());
}

#[test]
fn merge_joins_known_names_and_moves_new_ones() {
    let mut global = StationMap::new();
    global.record(b"a", 10);
    global.record(b"b", 20);
    let mut partial = StationMap::new();
    partial.record(b"a", 30);
    partial.record(b"c", -40);
    partial.record(b"c", -60);
    global.merge_in(partial);
    let mut a = Station::from(10);
    a.update(30);
    let mut c = Station::from(-40);
    c.update(-60);
    assert_eq!(global.get(b"a"), Some(a));
    assert_eq!(global.get(b"b"), Some(Station::from(20)));
    assert_eq!(global.get(b"c"), Some(c));
    assert_eq!(global.readings(), 5);
}

#[test]
fn merging_an_empty_map_changes_nothing() {
    let mut global = StationMap::new();
    global.record(b"a", 10);
    global.merge_in(StationMap::new());
    assert_eq!(global.get(b"a"), Some(Station::from(10)));
    assert_eq!(global.readings(), 1);
    let mut empty = StationMap::new();
    empty.merge_in(global);
    assert_eq!(empty.get(b"a"), Some(Station::from(10)));
    assert_eq!(empty.readings(), 1);
}
