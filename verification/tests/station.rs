use station_stats::decimal::parse_value;
use station_stats::station::Station;

fn tenths(text: &str) -> i64 {
    parse_value(text.as_bytes()).unwrap()
}

#[test]
fn test_station() {
    let mut station = Station::from(tenths("0.5"));
    station.update(tenths("-5.1"));
    station.update(tenths("5.1"));
    assert_eq!(String::from("=-5.1/0.2/5.1"), station.drain());
}

#[test]
fn seed_holds_the_value_alone() {
    let station = Station::from(-123);
    assert_eq!(station.min(), -123);
    assert_eq!(station.max(), -123);
    assert_eq!(station.sum(), -123);
    assert_eq!(station.count(), 1);
    assert_eq!(station.mean(), -123);
    assert_eq!(station.finalize(), (-123, -123, -123));
    assert_eq!(station.drain(), "=-12.3/-12.3/-12.3");
}

#[test]
fn update_tracks_bounds_sum_and_count() {
    let mut station = Station::from(5);
    station.update(-51);
    assert_eq!((station.min(), station.max()), (-51, 5));
    station.update(51);
    assert_eq!((station.min(), station.max()), (-51, 51));
    assert_eq!(station.sum(), 5);
    assert_eq!(station.count(), 3);
}

#[test]
fn empty_station_takes_its_first_value_like_a_seed() {
    let mut station = Station::new();
    assert_eq!(station.count(), 0);
    assert_eq!(station.sum(), 0);
    assert_eq!(station.min(), i64::MAX);
    assert_eq!(station.max(), i64::MIN);
    station.update(37);
    assert_eq!(station, Station::from(37));
}

#[test]
fn join_adds_sums_and_counts_and_widens_bounds() {
    let mut left = Station::from(10);
    left.update(30);
    let mut right = Station::from(-20);
    right.update(25);
    right.update(5);
    left.join(&right);
    assert_eq!(left.min(), -20);
    assert_eq!(left.max(), 30);
    assert_eq!(left.sum(), 50);
    assert_eq!(left.count(), 5);
    assert_eq!(left.mean(), 10);
}

#[test]
fn join_is_commutative_on_examples() {
    let mut a = Station::from(7);
    a.update(-3);
    let mut b = Station::from(40);
    b.update(41);
    let mut ab = a;
    ab.join(&b);
    let mut ba = b;
    ba.join(&a);
    assert_eq!(ab, ba);
}

#[test]
fn join_is_associative_on_examples() {
    let a = Station::from(7);
    let b = Station::from(-40);
    let mut c = Station::from(12);
    c.update(13);
    let mut left = a;
    left.join(&b);
    left.join(&c);
    let mut bc = b;
    bc.join(&c);
    let mut right = a;
    right.join(&bc);
    assert_eq!(left, right);
}

#[test]
fn join_with_an_empty_station_changes_nothing() {
    let mut a = Station::from(7);
    a.update(9);
    let before = a;
    a.join(&Station::new());
    assert_eq!(a, before);
    let mut empty = Station::new();
    empty.join(&before);
    assert_eq!(empty, before);
}

#[test]
fn mean_rounds_to_the_nearest_tenth() {
    // 5 tenths over 3 values: 1.67 tenths, which is 2.
    let mut station = Station::from(5);
    station.update(0);
    station.update(0);
    assert_eq!(station.mean(), 2);
    // 4 tenths over 3 values: 1.33 tenths, which is 1.
    let mut station = Station::from(4);
    station.update(0);
    station.update(0);
    assert_eq!(station.mean(), 1);
    // -4 tenths over 3 values: -1.33 tenths, which is -1.
    let mut station = Station::from(-4);
    station.update(0);
    station.update(0);
    assert_eq!(station.mean(), -1);
    // -5 tenths over 3 values: -1.67 tenths, which is -2.
    let mut station = Station::from(-5);
    station.update(0);
    station.update(0);
    assert_eq!(station.mean(), -2);
}

#[test]
fn mean_rounds_a_tie_upwards() {
    let mut station = Station::from(1);
    station.update(2);
    assert_eq!(station.mean(), 2);
    let mut station = Station::from(-1);
    station.update(-2);
    assert_eq!(station.mean(), -1);
    let mut station = Station::from(-1);
    station.update(0);
    assert_eq!(station.mean(), 0);
    assert_eq!(station.drain(), "=-0.1/0.0/0.0");
}

#[test]
fn mean_of_extreme_values_stays_in_range() {
    let mut station = Station::from(i64::MAX);
    station.update(i64::MAX);
    station.update(i64::MAX);
    assert_eq!(station.mean(), i64::MAX);
    let mut station = Station::from(i64::MIN);
    station.update(i64::MIN);
    assert_eq!(station.mean(), i64::MIN);
    assert_eq!(station.sum(), 2 * (i64::MIN as i128));
}

#[test]
fn render_appends_to_what_is_there() {
    let mut station = Station::from(10);
    station.update(30);
    let mut out = b"a".to_vec();
    station.render(&mut out);
    assert_eq!(out, b"a=1.0/2.0/3.0".to_vec());
}

#[test]
fn drain_spells_each_byte_as_a_character() {
    let station = Station::from(i64::MIN);
    assert_eq!(
        station.drain(),
        "=-922337203685477580.8/-922337203685477580.8/-922337203685477580.8"
    );
}
