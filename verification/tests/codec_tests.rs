use raftstore::codec::bin_to_id;
use raftstore::codec::id_to_bin;
use raftstore::codec::read_chars;
use raftstore::codec::read_opt_log_id;
use raftstore::codec::read_pair_list;
use raftstore::codec::read_u64;
use raftstore::codec::read_u64_list;
use raftstore::codec::write_chars;
use raftstore::codec::write_opt_log_id;
use raftstore::codec::write_pair_list;
use raftstore::codec::write_u64;
use raftstore::codec::write_u64_list;
use raftstore::types::LogId;

#[test]
fn id_bytes_are_big_endian() {
    assert_eq!(id_to_bin(1), vec![0, 0, 0, 0, 0, 0, 0, 1]);
    assert_eq!(id_to_bin(0x0102_0304_0506_0708), vec![1, 2, 3, 4, 5, 6, 7, 8]);
    assert_eq!(id_to_bin(u64::MAX), vec![0xff; 8]);
}

#[test]
fn id_round_trips_through_bytes() {
    for id in [0u64, 1, 9, 255, 256, 0xdead_beef, u64::MAX] {
        let b = id_to_bin(id);
        assert_eq!(bin_to_id(&b), id);
    }
}

#[test]
fn big_endian_keys_sort_numerically() {
    // The point of the big-endian key encoding: lexicographic byte order
    // equals numeric index order in an ordered key-value store.
    let mut keys: Vec<Vec<u8>> = [300u64, 5, 0, 65536, 255, 256].iter().map(|&i| id_to_bin(i)).collect();
    keys.sort();
    let ids: Vec<u64> = keys.iter().map(|k| bin_to_id(k)).collect();
    assert_eq!(ids, vec![0, 5, 255, 256, 300, 65536]);
}

#[test]
fn u64_round_trips() {
    let mut buf = Vec::new();
    write_u64(&mut buf, 42);
    write_u64(&mut buf, u64::MAX);
    let (a, p) = read_u64(&buf, 0).unwrap();
    let (b, q) = read_u64(&buf, p).unwrap();
    assert_eq!((a, b), (42, u64::MAX));
    assert_eq!(q, 16);
    assert!(read_u64(&buf, q).is_none());
}

#[test]
fn chars_round_trip_including_unicode() {
    let mut buf = Vec::new();
    write_chars(&mut buf, &String::from("héllo ✓ wörld"));
    write_chars(&mut buf, &String::from(""));
    let (s1, p) = read_chars(&buf, 0).unwrap();
    assert_eq!(s1, "héllo ✓ wörld");
    let (s2, q) = read_chars(&buf, p).unwrap();
    assert_eq!(s2, "");
    assert_eq!(q, buf.len());
}

#[test]
fn chars_reject_invalid_utf8() {
    let mut buf = Vec::new();
    write_u64(&mut buf, 2);
    buf.push(0xff);
    buf.push(0xfe);
    assert!(read_chars(&buf, 0).is_none());
}

#[test]
fn chars_reject_truncated_buffer() {
    let mut buf = Vec::new();
    write_chars(&mut buf, &String::from("abcdef"));
    buf.truncate(buf.len() - 1);
    assert!(read_chars(&buf, 0).is_none());
}

#[test]
fn opt_log_id_round_trips() {
    let mut buf = Vec::new();
    write_opt_log_id(&mut buf, &None);
    write_opt_log_id(&mut buf, &Some(LogId { term: 3, index: 77 }));
    let (a, p) = read_opt_log_id(&buf, 0).unwrap();
    assert_eq!(a, None);
    let (b, q) = read_opt_log_id(&buf, p).unwrap();
    assert_eq!(b, Some(LogId { term: 3, index: 77 }));
    assert_eq!(q, buf.len());
    // A bad presence tag is refused.
    let bad = vec![9u8];
    assert!(read_opt_log_id(&bad, 0).is_none());
}

#[test]
fn u64_list_round_trips() {
    let mut buf = Vec::new();
    write_u64_list(&mut buf, &vec![7, 1, 9]);
    write_u64_list(&mut buf, &vec![]);
    let (a, p) = read_u64_list(&buf, 0).unwrap();
    assert_eq!(a, vec![7, 1, 9]);
    let (b, q) = read_u64_list(&buf, p).unwrap();
    assert_eq!(b, Vec::<u64>::new());
    assert_eq!(q, buf.len());
}

#[test]
fn pair_list_round_trips() {
    let pairs = vec![
        (String::from("k1"), String::from("v1")),
        (String::from(""), String::from("empty key")),
        (String::from("käse"), String::from("")),
    ];
    let mut buf = Vec::new();
    write_pair_list(&mut buf, &pairs);
    let (got, q) = read_pair_list(&buf, 0).unwrap();
    assert_eq!(got, pairs);
    assert_eq!(q, buf.len());
}

#[test]
fn pair_list_with_overlong_count_is_refused() {
    let mut buf = Vec::new();
    write_u64(&mut buf, 3);
    write_chars(&mut buf, &String::from("only"));
    write_chars(&mut buf, &String::from("one"));
    assert!(read_pair_list(&buf, 0).is_none());
}
