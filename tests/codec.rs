use logkv::codec::{decode, encode};
use logkv::segment::{build_index, Lookup, Segment};
use logkv::StoreError;

#[test]
fn encode_joins_key_and_value() {
    assert_eq!(encode(b"a", b"1"), Ok(b"a,1".to_vec()));
    assert_eq!(encode(b"key", b""), Ok(b"key,".to_vec()));
}

#[test]
fn encode_rejects_separator_in_key() {
    assert_eq!(encode(b"a,b", b"1"), Err(StoreError::InvalidKey));
    assert_eq!(encode(b"a\nb", b"1"), Err(StoreError::InvalidKey));
}

#[test]
fn encode_rejects_line_break_in_value() {
    assert_eq!(encode(b"a", b"1\n2"), Err(StoreError::InvalidValue));
}

#[test]
fn decode_splits_at_first_separator() {
    assert_eq!(decode(b"a,1,2"), Ok((b"a".to_vec(), b"1,2".to_vec())));
    assert_eq!(decode(b"a,"), Ok((b"a".to_vec(), b"".to_vec())));
}

#[test]
fn decode_without_separator_is_corruption() {
    assert_eq!(decode(b"abc"), Err(StoreError::Corruption));
}

#[test]
fn build_index_points_at_last_records() {
    let data = b"a,1\nbb,2\na,33\n".to_vec();
    let index = build_index(&data).ok().unwrap();
    assert_eq!(index.len(), 2);
    assert_eq!(index.get(b"a"), Some(&9usize));
    assert_eq!(index.get(b"bb"), Some(&4usize));
    assert_eq!(index.get(b"c"), None);
}

#[test]
fn build_index_detects_missing_separator() {
    assert_eq!(build_index(b"a,1\nbroken\nb,2\n").err(), Some(StoreError::Corruption));
    assert_eq!(build_index(b"a,1\nb,2").err(), Some(StoreError::Corruption));
}

#[test]
fn segment_reads_what_it_appends() {
    let mut s = Segment::empty("db.current".to_string());
    let line = s.save_data(&"a".to_string(), &"1".to_string()).unwrap();
    assert_eq!(line, b"a,1\n".to_vec());
    s.save_data(&"b".to_string(), &"22".to_string()).unwrap();
    s.save_data(&"a".to_string(), &"333".to_string()).unwrap();
    assert_eq!(s.size(), 15);
    assert_eq!(s.data(), &b"a,1\nb,22\na,333\n".to_vec());
    assert_eq!(s.get_data(&"a".to_string()), Ok(Lookup::Found("333".to_string())));
    assert_eq!(s.get_data(&"b".to_string()), Ok(Lookup::Found("22".to_string())));
    assert_eq!(s.get_data(&"c".to_string()), Ok(Lookup::NotFound));
}

#[test]
fn segment_reports_deletion() {
    let mut s = Segment::empty("db.current".to_string());
    s.save_data(&"a".to_string(), &"1".to_string()).unwrap();
    s.save_data(&"a".to_string(), &"".to_string()).unwrap();
    assert_eq!(s.get_data(&"a".to_string()), Ok(Lookup::Deleted));
}

#[test]
fn segment_rebuilt_from_bytes() {
    let s = Segment::new("db.00001".to_string(), b"x,1\ny,2\nx,3\n".to_vec()).ok().unwrap();
    assert_eq!(s.size(), 12);
    assert_eq!(s.get_data(&"x".to_string()), Ok(Lookup::Found("3".to_string())));
    assert_eq!(s.get_data(&"y".to_string()), Ok(Lookup::Found("2".to_string())));
    assert_eq!(s.records().len(), 3);
}

#[test]
fn segment_value_with_separator_reads_back() {
    let mut s = Segment::empty("db.current".to_string());
    s.save_data(&"k".to_string(), &"x,y".to_string()).unwrap();
    assert_eq!(s.get_data(&"k".to_string()), Ok(Lookup::Found("x,y".to_string())));
}

#[test]
fn segment_non_ascii_text_reads_back() {
    let mut s = Segment::empty("db.current".to_string());
    s.save_data(&"clé".to_string(), &"héllo wörld".to_string()).unwrap();
    assert_eq!(s.get_data(&"clé".to_string()), Ok(Lookup::Found("héllo wörld".to_string())));
}

#[test]
fn segment_value_not_utf8_is_an_encoding_error() {
    let s = Segment::new("db.00001".to_string(), vec![b'k', b',', 0xff, 0xfe, b'\n']).ok().unwrap();
    assert_eq!(s.get_data(&"k".to_string()), Err(StoreError::Encoding));
}

#[test]
fn segment_save_rejects_bad_key() {
    let mut s = Segment::empty("db.current".to_string());
    assert_eq!(s.save_data(&"a,b".to_string(), &"1".to_string()), Err(StoreError::InvalidKey));
    assert_eq!(s.size(), 0);
}
