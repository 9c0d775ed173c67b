use man_search::io_util::{
    length_field, read_str, read_tf_map, read_u32, read_u64, u32_at, write_str, write_tf_map,
    write_u32, write_u64, ByteReader, ReadError,
};
use man_search::strmap::StrMap;

#[test]
fn u32_is_written_little_endian() {
    let mut w = vec![0xaau8];
    write_u32(&mut w, 0x0403_0201);
    assert_eq!(w, vec![0xaa, 1, 2, 3, 4]);
    let mut w = Vec::new();
    write_u32(&mut w, u32::MAX);
    assert_eq!(w, vec![255, 255, 255, 255]);
    assert_eq!(w, u32::MAX.to_le_bytes().to_vec());
}

#[test]
fn u64_is_written_little_endian() {
    let mut w = Vec::new();
    write_u64(&mut w, 0x0807_0605_0403_0201);
    assert_eq!(w, vec![1, 2, 3, 4, 5, 6, 7, 8]);
    let mut w = Vec::new();
    write_u64(&mut w, 300);
    assert_eq!(w, 300u64.to_le_bytes().to_vec());
}

#[test]
fn str_is_length_prefixed_utf8() {
    let mut w = Vec::new();
    write_str(&mut w, "ls");
    assert_eq!(w, vec![2, 0, 0, 0, b'l', b's']);
    let mut w = Vec::new();
    write_str(&mut w, "é");
    assert_eq!(w, vec![2, 0, 0, 0, 0xc3, 0xa9]);
    let mut w = Vec::new();
    write_str(&mut w, "");
    assert_eq!(w, vec![0, 0, 0, 0]);
}

#[test]
fn length_field_keeps_small_lengths() {
    assert_eq!(length_field(0), 0);
    assert_eq!(length_field(70_000), 70_000);
}

#[test]
fn read_u32_reads_what_was_written() {
    let mut w = Vec::new();
    write_u32(&mut w, 0xdead_beef);
    write_u32(&mut w, 7);
    let mut r = ByteReader::new(&w);
    assert_eq!(read_u32(&mut r), Ok(0xdead_beef));
    assert_eq!(r.position(), 4);
    assert_eq!(read_u32(&mut r), Ok(7));
    assert_eq!(read_u32(&mut r), Err(ReadError::UnexpectedEof));
    assert_eq!(r.position(), 8);
}

#[test]
fn read_u64_reads_what_was_written() {
    let mut w = Vec::new();
    write_u64(&mut w, u64::MAX - 5);
    let mut r = ByteReader::new(&w);
    assert_eq!(read_u64(&mut r), Ok(u64::MAX - 5));
    let short = [1u8, 2, 3, 4, 5, 6, 7];
    let mut r = ByteReader::new(&short);
    assert_eq!(read_u64(&mut r), Err(ReadError::UnexpectedEof));
    assert_eq!(r.position(), 0);
}

#[test]
fn u32_at_reads_in_place() {
    let data = [9u8, 1, 0, 0, 0, 9];
    assert_eq!(u32_at(&data, 1), 1);
    assert_eq!(u32_at(&data, 2), 0x0900_0000);
}

#[test]
fn read_str_reads_what_was_written() {
    let mut w = Vec::new();
    write_str(&mut w, "list directory contents");
    write_str(&mut w, "naïve – café");
    let mut r = ByteReader::new(&w);
    assert_eq!(read_str(&mut r).unwrap(), "list directory contents");
    assert_eq!(read_str(&mut r).unwrap(), "naïve – café");
    assert_eq!(r.position(), w.len());
}

#[test]
fn read_str_replaces_invalid_utf8() {
    let data = [3u8, 0, 0, 0, b'a', 0xff, b'b'];
    let mut r = ByteReader::new(&data);
    assert_eq!(read_str(&mut r).unwrap(), "a\u{fffd}b");
}

#[test]
fn read_str_fails_on_truncation_and_stays() {
    let data = [5u8, 0, 0, 0, b'a', b'b'];
    let mut r = ByteReader::new(&data);
    assert!(matches!(read_str(&mut r), Err(ReadError::UnexpectedEof)));
    assert_eq!(r.position(), 0);
    let data = [5u8, 0];
    let mut r = ByteReader::new(&data);
    assert!(matches!(read_str(&mut r), Err(ReadError::UnexpectedEof)));
}

#[test]
fn tf_map_round_trip_keeps_order_and_counts() {
    let mut m: StrMap<u32> = StrMap::new();
    m.insert("list".to_string(), 2);
    m.insert("directori".to_string(), 1);
    m.insert("content".to_string(), 7);
    let mut w = Vec::new();
    write_tf_map(&mut w, &m);
    assert_eq!(&w[..4], &[3, 0, 0, 0]);
    let mut r = ByteReader::new(&w);
    let back = read_tf_map(&mut r).ok().unwrap();
    assert_eq!(r.position(), w.len());
    assert_eq!(back.len(), 3);
    assert_eq!(back.key(0), "list");
    assert_eq!(*back.value(0), 2);
    assert_eq!(back.key(1), "directori");
    assert_eq!(*back.value(1), 1);
    assert_eq!(back.key(2), "content");
    assert_eq!(*back.value(2), 7);
}

#[test]
fn tf_map_read_lets_a_repeated_word_replace_its_count() {
    let mut w = Vec::new();
    write_u32(&mut w, 2);
    write_str(&mut w, "copi");
    write_u32(&mut w, 1);
    write_str(&mut w, "copi");
    write_u32(&mut w, 5);
    let mut r = ByteReader::new(&w);
    let m = read_tf_map(&mut r).ok().unwrap();
    assert_eq!(m.len(), 1);
    assert_eq!(m.get("copi"), Some(&5));
}

#[test]
fn tf_map_read_fails_when_entries_are_missing() {
    let mut w = Vec::new();
    write_u32(&mut w, 2);
    write_str(&mut w, "copi");
    write_u32(&mut w, 1);
    let mut r = ByteReader::new(&w);
    assert!(read_tf_map(&mut r).is_err());
    assert_eq!(r.position(), 0);
}

#[test]
fn strmap_insert_get_and_bump() {
    let mut m: StrMap<u32> = StrMap::new();
    assert_eq!(m.len(), 0);
    assert_eq!(m.get("a"), None);
    m.bump("a");
    m.bump("b");
    m.bump("a");
    assert_eq!(m.get("a"), Some(&2));
    assert_eq!(m.get("b"), Some(&1));
    assert_eq!(m.find("b"), Some(1));
    assert_eq!(m.find("c"), None);
    m.insert("a".to_string(), 9);
    assert_eq!(m.len(), 2);
    assert_eq!(m.get("a"), Some(&9));
    m.set(1, 4);
    assert_eq!(m.get("b"), Some(&4));
    m.keys_distinct();
}

#[test]
fn strmap_push_item_appends_to_lists() {
    let mut m: StrMap<Vec<u32>> = StrMap::new();
    m.push_item("ls", 0);
    m.push_item("cp", 1);
    m.push_item("ls", 2);
    assert_eq!(m.len(), 2);
    assert_eq!(m.get("ls"), Some(&vec![0, 2]));
    assert_eq!(m.get("cp"), Some(&vec![1]));
}
