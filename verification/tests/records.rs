use station_stats::error::Error;
use station_stats::record::{find_byte, process_buffer, process_line};
use station_stats::report::summary;
use station_stats::station::Station;
use station_stats::table::StationMap;

fn line_of(map: &mut StationMap) -> String {
    String::from_utf8(summary(map)).unwrap()
}

#[test]
fn finds_the_first_occurrence() {
    assert_eq!(find_byte(b"a;b;c", 0, b';'), 1);
    assert_eq!(find_byte(b"a;b;c", 1, b';'), 1);
    assert_eq!(find_byte(b"a;b;c", 2, b';'), 3);
    assert_eq!(find_byte(b"a;b;c", 4, b';'), 5);
    assert_eq!(find_byte(b"a;b;c", 5, b';'), 5);
    assert_eq!(find_byte(b"", 0, b';'), 0);
}

#[test]
fn a_line_is_split_at_its_first_separator() {
    let mut map = StationMap::new();
    assert_eq!(process_line(b"Hamburg;12.0", &mut map), Ok(()));
    assert_eq!(map.get(b"Hamburg"), Some(Station::from(120)));
    assert_eq!(map.readings(), 1);
    assert_eq!(process_line(b"a;1.0;2.0", &mut map), Err(Error::MalformedValue));
    assert_eq!(map.get(b"a"), None);
    assert_eq!(map.readings(), 1);
}

#[test]
fn a_line_without_separator_is_a_malformed_record() {
    let mut map = StationMap::new();
    assert_eq!(process_line(b"Hamburg", &mut map), Err(Error::MalformedRecord));
    assert_eq!(process_line(b"", &mut map), Err(Error::MalformedRecord));
    assert_eq!(process_line(b"12.0", &mut map), Err(Error::MalformedRecord));
    assert_eq!(map.readings(), 0);
    assert_eq!(line_of(&mut map), "{  }");
}

#[test]
fn a_value_that_is_no_number_is_a_malformed_value() {
    let mut map = StationMap::new();
    assert_eq!(process_buffer(b"a;xx\n", &mut map), Err(Error::MalformedValue));
    assert_eq!(map.get(b"a"), None);
    assert_eq!(map.readings(), 0);
    assert_eq!(process_line(b"a;", &mut map), Err(Error::MalformedValue));
    assert_eq!(process_line(b"a;1.0\r", &mut map), Err(Error::MalformedValue));
}

#[test]
fn an_empty_name_is_a_name() {
    let mut map = StationMap::new();
    assert_eq!(process_line(b";1.5", &mut map), Ok(()));
    assert_eq!(map.get(b""), Some(Station::from(15)));
}

#[test]
fn one_worker_three_records() {
    let mut map = StationMap::new();
    assert_eq!(process_buffer(b"a;0.5\na;-5.1\na;5.1\n", &mut map), Ok(()));
    let station = map.get(b"a").unwrap();
    assert_eq!(station.finalize(), (-51, 2, 51));
    assert_eq!(station.min(), -51);
    assert_eq!(station.max(), 51);
    assert_eq!(station.mean(), 2);
    assert_eq!(map.readings(), 3);
    assert_eq!(line_of(&mut map), "{ a=-5.1/0.2/5.1 }");
}

#[test]
fn the_last_line_may_go_without_terminator() {
    let mut with = StationMap::new();
    assert_eq!(process_buffer(b"a;1.0\nb;2.0\n", &mut with), Ok(()));
    let mut without = StationMap::new();
    assert_eq!(process_buffer(b"a;1.0\nb;2.0", &mut without), Ok(()));
    assert_eq!(line_of(&mut with), line_of(&mut without));
}

#[test]
fn an_empty_buffer_holds_no_record() {
    let mut map = StationMap::new();
    assert_eq!(process_buffer(b"", &mut map), Ok(()));
    assert_eq!(map.readings(), 0);
}

#[test]
fn a_blank_line_is_a_malformed_record() {
    let mut map = StationMap::new();
    assert_eq!(process_buffer(b"\n", &mut map), Err(Error::MalformedRecord));
    let mut map = StationMap::new();
    assert_eq!(process_buffer(b"a;1.0\n\nb;2.0\n", &mut map), Err(Error::MalformedRecord));
    assert_eq!(map.get(b"a"), Some(Station::from(10)));
    assert_eq!(map.get(b"b"), None);
    assert_eq!(map.readings(), 1);
}

#[test]
fn processing_stops_at_the_first_bad_line() {
    let mut map = StationMap::new();
    let outcome = process_buffer(b"a;1.0\nb;2.0\nc;x\nd\ne;5.0\n", &mut map);
    assert_eq!(outcome, Err(Error::MalformedValue));
    assert_eq!(map.readings(), 2);
    assert_eq!(line_of(&mut map), "{ a=1.0/1.0/1.0, b=2.0/2.0/2.0 }");
    let mut map = StationMap::new();
    let outcome = process_buffer(b"a;1.0\nd\nc;x\n", &mut map);
    assert_eq!(outcome, Err(Error::MalformedRecord));
    assert_eq!(map.readings(), 1);
}

#[test]
fn buffers_add_up_in_one_map() {
    let mut map = StationMap::new();
    assert_eq!(process_buffer(b"a;1.0\nb;2.0\n", &mut map), Ok(()));
    assert_eq!(process_buffer(b"a;3.0\n", &mut map), Ok(()));
    assert_eq!(map.readings(), 3);
    assert_eq!(line_of(&mut map), "{ a=1.0/2.0/3.0, b=2.0/2.0/2.0 }");
}
