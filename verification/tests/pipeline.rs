use station_stats::cursor::Step;
use station_stats::error::Error;
use station_stats::pipeline::{process, split, summarize, work};
use station_stats::record::process_buffer;
use station_stats::report::summary;
use station_stats::table::StationMap;

const SAMPLE: &[u8] = b"Hamburg;12.0\nBulawayo;8.9\nPalembang;38.8\nHamburg;34.2\nSt. John's;15.2\nCracow;12.6\nBulawayo;-3.1\nHamburg;0.0\n";

fn line_of(map: &mut StationMap) -> String {
    String::from_utf8(summary(map)).unwrap()
}

fn whole(source: &[u8]) -> (Result<(), Error>, u64, String) {
    let mut map = StationMap::new();
    let outcome = process_buffer(source, &mut map);
    let readings = map.readings();
    (outcome, readings, line_of(&mut map))
}

fn blockwise(source: &[u8], block_size: usize) -> (Result<(), Error>, u64, String) {
    let mut map = StationMap::new();
    let outcome = process(source, block_size, &mut map);
    let readings = map.readings();
    (outcome, readings, line_of(&mut map))
}

#[test]
fn chunks_put_end_to_end_are_the_source() {
    for block_size in 1..40 {
        let chunks = split(SAMPLE, block_size, usize::MAX).unwrap();
        assert_eq!(chunks.concat(), SAMPLE.to_vec());
        for (i, chunk) in chunks.iter().enumerate() {
            assert!(!chunk.is_empty());
            if i + 1 < chunks.len() {
                assert_eq!(chunk.last(), Some(&b'\n'));
            }
        }
    }
}

#[test]
fn chunks_are_cut_behind_the_last_terminator_of_each_block() {
    let chunks = split(b"a;1.0\nb;2.0\na;3.0\n", 8, 64).unwrap();
    assert_eq!(chunks, vec![b"a;1.0\n".to_vec(), b"b;2.0\n".to_vec(), b"a;3.0\n".to_vec()]);
    let chunks = split(b"a;1.0\nb;2.0\na;3.0\n", 13, 64).unwrap();
    assert_eq!(chunks, vec![b"a;1.0\nb;2.0\n".to_vec(), b"a;3.0\n".to_vec()]);
    let chunks = split(b"a;1.0\nb;2.0\na;3.0\n", 100, 64).unwrap();
    assert_eq!(chunks, vec![b"a;1.0\nb;2.0\na;3.0\n".to_vec()]);
    let chunks = split(b"a;1.0\nb;2.0\na;3.0", 2, 64).unwrap();
    assert_eq!(chunks, vec![b"a;1.0\n".to_vec(), b"b;2.0\n".to_vec(), b"a;3.0".to_vec()]);
}

#[test]
fn a_single_record_without_terminator_is_one_chunk() {
    assert_eq!(split(b"a;1.0", 2, 64), Ok(vec![b"a;1.0".to_vec()]));
    assert_eq!(split(b"a;1.0", 100, 64), Ok(vec![b"a;1.0".to_vec()]));
    assert_eq!(blockwise(b"a;1.0", 2), (Ok(()), 1, String::from("{ a=1.0/1.0/1.0 }")));
}

#[test]
fn an_empty_source_has_no_chunk() {
    assert_eq!(split(b"", 4, 0), Ok(Vec::new()));
    assert_eq!(blockwise(b"", 4), (Ok(()), 0, String::from("{  }")));
}

#[test]
fn splitting_fails_where_a_line_outgrows_the_limit() {
    assert_eq!(split(b"abcdefgh;1.0\n", 4, 8), Err(Error::ChunkAlignmentFailure));
    assert_eq!(split(b"abcdefgh;1.0\n", 4, 12), Ok(vec![b"abcdefgh;1.0\n".to_vec()]));
    assert_eq!(split(b"abcdefgh;1.0\n", 13, 2), Ok(vec![b"abcdefgh;1.0\n".to_vec()]));
    assert_eq!(split(b"a;1.0\nabcdefgh;1.0", 6, 4), Err(Error::ChunkAlignmentFailure));
}

#[test]
fn the_block_size_does_not_show_in_the_result() {
    let expected = whole(SAMPLE);
    assert_eq!(expected.0, Ok(()));
    assert_eq!(expected.1, 8);
    assert_eq!(
        expected.2,
        "{ Bulawayo=-3.1/2.9/8.9, Cracow=12.6/12.6/12.6, Hamburg=0.0/15.4/34.2, Palembang=38.8/38.8/38.8, St. John's=15.2/15.2/15.2 }"
    );
    for block_size in 1..130 {
        assert_eq!(blockwise(SAMPLE, block_size), expected);
    }
}

#[test]
fn a_bad_line_stops_the_run_at_the_same_place_for_every_block_size() {
    let source = b"a;1.0\nb;2.0\nc;xx\nd;4.0\ne\n";
    let expected = whole(source);
    assert_eq!(expected.0, Err(Error::MalformedValue));
    assert_eq!(expected.1, 2);
    for block_size in 1..30 {
        assert_eq!(blockwise(source, block_size), expected);
    }
    let source = b"a;1.0\n\nb;2.0\n";
    let expected = whole(source);
    assert_eq!(expected.0, Err(Error::MalformedRecord));
    for block_size in 1..16 {
        assert_eq!(blockwise(source, block_size), expected);
    }
}

#[test]
fn two_workers_merge_into_what_one_worker_finds() {
    let mut first = StationMap::new();
    assert_eq!(process_buffer(b"a;1.0\nb;2.0\n", &mut first), Ok(()));
    let mut second = StationMap::new();
    assert_eq!(process_buffer(b"a;3.0\n", &mut second), Ok(()));
    first.merge_in(second);
    let merged = line_of(&mut first);
    assert_eq!(merged, "{ a=1.0/2.0/3.0, b=2.0/2.0/2.0 }");
    assert_eq!(whole(b"a;1.0\nb;2.0\na;3.0\n").2, merged);
}

#[test]
fn chunks_dealt_out_to_workers_merge_into_the_whole() {
    let expected = whole(SAMPLE).2;
    for workers in 1..5 {
        for block_size in [1usize, 7, 20, 64] {
            let chunks = split(SAMPLE, block_size, usize::MAX).unwrap();
            let mut maps: Vec<StationMap> = (0..workers).map(|_| StationMap::new()).collect();
            for (i, chunk) in chunks.iter().enumerate() {
                assert_eq!(process_buffer(chunk, &mut maps[i % workers]), Ok(()));
            }
            let mut global = StationMap::new();
            for map in maps {
                global.merge_in(map);
            }
            assert_eq!(global.readings(), 8);
            assert_eq!(line_of(&mut global), expected);
        }
    }
}

#[test]
fn the_order_of_arrival_does_not_show_in_the_result() {
    let parts: [&[u8]; 3] = [b"a;1.0\nb;2.0\n", b"a;3.0\nc;-4.5\n", b"c;0.5\nb;9.9\n"];
    let orders = [[0, 1, 2], [0, 2, 1], [1, 0, 2], [1, 2, 0], [2, 0, 1], [2, 1, 0]];
    let mut lines = Vec::new();
    for order in orders {
        let mut global = StationMap::new();
        for index in order {
            let mut partial = StationMap::new();
            assert_eq!(process_buffer(parts[index], &mut partial), Ok(()));
            global.merge_in(partial);
        }
        lines.push(line_of(&mut global));
    }
    assert_eq!(lines[0], "{ a=1.0/2.0/3.0, b=2.0/6.0/9.9, c=-4.5/-2.0/0.5 }");
    for line in &lines {
        assert_eq!(line, &lines[0]);
    }
}

#[test]
fn a_worker_takes_chunks_until_the_stream_ends() {
    let mut map = StationMap::new();
    assert_eq!(work(&Step::Chunk(b"a;1.0\nb;2.0\n".to_vec()), &mut map), Ok(true));
    assert_eq!(work(&Step::More, &mut map), Ok(true));
    assert_eq!(map.readings(), 2);
    assert_eq!(work(&Step::Chunk(b"a;3.0\n".to_vec()), &mut map), Ok(true));
    assert_eq!(work(&Step::End, &mut map), Ok(false));
    assert_eq!(map.readings(), 3);
    assert_eq!(line_of(&mut map), "{ a=1.0/2.0/3.0, b=2.0/2.0/2.0 }");
}

#[test]
fn a_worker_fails_on_a_bad_chunk() {
    let mut map = StationMap::new();
    assert_eq!(work(&Step::Chunk(b"a;xx\n".to_vec()), &mut map), Err(Error::MalformedValue));
    assert_eq!(work(&Step::Chunk(b"a\n".to_vec()), &mut map), Err(Error::MalformedRecord));
    assert_eq!(map.readings(), 0);
}

#[test]
fn the_whole_run_is_the_same_for_every_block_size_and_worker_count() {
    let expected = whole(SAMPLE).2.into_bytes();
    for workers in 1..6 {
        for block_size in [1usize, 2, 13, 14, 50, 1000] {
            assert_eq!(summarize(SAMPLE, block_size, workers), Ok(expected.clone()));
        }
    }
}

#[test]
fn the_whole_run_of_small_inputs() {
    assert_eq!(summarize(b"", 8, 3), Ok(b"{  }".to_vec()));
    assert_eq!(summarize(b"a;0.5\na;-5.1\na;5.1\n", 8, 1), Ok(b"{ a=-5.1/0.2/5.1 }".to_vec()));
    assert_eq!(
        summarize(b"a;1.0\nb;2.0\na;3.0\n", 12, 2),
        Ok(b"{ a=1.0/2.0/3.0, b=2.0/2.0/2.0 }".to_vec())
    );
    assert_eq!(summarize(b"a;1.0", 2, 2), Ok(b"{ a=1.0/1.0/1.0 }".to_vec()));
}

#[test]
fn the_whole_run_fails_on_the_first_bad_line() {
    for workers in 1..4 {
        for block_size in 1..20 {
            assert_eq!(summarize(b"a;xx\n", block_size, workers), Err(Error::MalformedValue));
            assert_eq!(
                summarize(b"a;1.0\nb\nc;xx\n", block_size, workers),
                Err(Error::MalformedRecord)
            );
            assert_eq!(
                summarize(b"a;1.0\nc;xx\nb\n", block_size, workers),
                Err(Error::MalformedValue)
            );
        }
    }
}
