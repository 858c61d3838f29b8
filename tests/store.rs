use logkv::naming::{active_name, is_segment_file, parse_sequence, sealed_name};
use logkv::segment::Lookup;
use logkv::store::{Environment, FileOp, SEGMENT_THRESHOLD};
use logkv::StoreError;

fn s(x: &str) -> String {
    x.to_string()
}

fn open_empty() -> Environment {
    Environment::new(&s("./data/"), &s("db"), &vec![]).ok().unwrap()
}

fn get(env: &Environment, key: &str) -> Result<Lookup, StoreError> {
    env.get_data(&s(key))
}

fn found(v: &str) -> Result<Lookup, StoreError> {
    Ok(Lookup::Found(s(v)))
}

#[test]
fn round_trip() {
    let mut env = open_empty();
    env.set_data(&s("k"), &s("v")).unwrap();
    assert_eq!(get(&env, "k"), found("v"));
}

#[test]
fn last_write_wins() {
    let mut env = open_empty();
    env.set_data(&s("k"), &s("v1")).unwrap();
    env.set_data(&s("k"), &s("v2")).unwrap();
    assert_eq!(get(&env, "k"), found("v2"));
}

#[test]
fn tombstone_semantics() {
    let mut env = open_empty();
    env.set_data(&s("k"), &s("v")).unwrap();
    env.delete_data(&s("k")).unwrap();
    assert_eq!(get(&env, "k"), Ok(Lookup::Deleted));
    assert_eq!(get(&env, "never"), Ok(Lookup::NotFound));
}

#[test]
fn rotation_transparency() {
    let mut env = open_empty();
    let mut count = env.sealed_count();
    for i in 0..200 {
        env.set_data(&format!("key{}", i), &format!("value{}", i)).unwrap();
        assert!(env.sealed_count() >= count);
        count = env.sealed_count();
    }
    assert!(env.sealed_count() >= 3);
    for i in 0..200 {
        assert_eq!(get(&env, &format!("key{}", i)), found(&format!("value{}", i)));
    }
    assert_eq!(env.sealed_segment(0).file_path(), &s("db.00001"));
    assert_eq!(env.sealed_segment(1).file_path(), &s("db.00002"));
}

#[test]
fn set_reports_append_then_rename_when_rotating() {
    let mut env = open_empty();
    let ops = env.set_data(&s("a"), &s("1")).unwrap();
    assert_eq!(ops, vec![FileOp::Append { file: s("db.current"), bytes: b"a,1\n".to_vec() }]);
    let long = "x".repeat(SEGMENT_THRESHOLD);
    env.set_data(&s("b"), &long).unwrap();
    let ops = env.set_data(&s("c"), &s("3")).unwrap();
    assert_eq!(
        ops,
        vec![
            FileOp::Rename { from: s("db.current"), to: s("db.00001") },
            FileOp::Append { file: s("db.current"), bytes: b"c,3\n".to_vec() },
        ]
    );
    assert_eq!(env.sealed_count(), 1);
    assert_eq!(get(&env, "a"), found("1"));
    assert_eq!(get(&env, "c"), found("3"));
}

#[test]
fn set_rejects_invalid_key_without_change() {
    let mut env = open_empty();
    assert_eq!(env.set_data(&s("a,b"), &s("1")), Err(StoreError::InvalidKey));
    assert_eq!(env.set_data(&s("a"), &s("1\n")), Err(StoreError::InvalidValue));
    assert_eq!(env.active_segment().size(), 0);
}

fn fill(env: &mut Environment, n: usize) {
    for i in 0..n {
        env.set_data(&format!("k{}", i % 7), &format!("value-{}", i)).unwrap();
        if i % 5 == 0 {
            env.delete_data(&format!("k{}", (i + 3) % 7)).unwrap();
        }
    }
}

#[test]
fn compaction_equivalence_and_idempotence() {
    let mut env = open_empty();
    fill(&mut env, 120);
    assert!(env.sealed_count() >= 2);
    let keys: Vec<String> = (0..8).map(|i| format!("k{}", i)).collect();
    let live = |env: &Environment| -> Vec<Option<String>> {
        keys.iter()
            .map(|k| match env.get_data(k) {
                Ok(Lookup::Found(v)) => Some(v),
                Ok(_) => None,
                Err(e) => panic!("{:?}", e),
            })
            .collect()
    };
    let before = live(&env);
    env.compact_segments().unwrap();
    let after_one = live(&env);
    assert_eq!(before, after_one);
    let results: Vec<_> = keys.iter().map(|k| env.get_data(k)).collect();
    env.compact_segments().unwrap();
    assert_eq!(live(&env), after_one);
    let again: Vec<_> = keys.iter().map(|k| env.get_data(k)).collect();
    assert_eq!(results, again);
}

#[test]
fn compaction_reports_writes_then_removes() {
    let mut env = open_empty();
    let long = "y".repeat(SEGMENT_THRESHOLD);
    env.set_data(&s("a"), &long).unwrap();
    env.set_data(&s("b"), &s("2")).unwrap();
    env.delete_data(&s("a")).unwrap();
    env.set_data(&s("c"), &long).unwrap();
    env.set_data(&s("d"), &s("4")).unwrap();
    assert_eq!(env.sealed_count(), 2);
    let ops = env.compact_segments().unwrap();
    assert_eq!(env.sealed_count(), 1);
    assert_eq!(ops.len(), 3);
    assert_eq!(
        ops[0],
        FileOp::Write { file: s("db.00003"), bytes: format!("b,2\nc,{}\n", long).into_bytes() }
    );
    assert_eq!(ops[1], FileOp::Remove { file: s("db.00001") });
    assert_eq!(ops[2], FileOp::Remove { file: s("db.00002") });
    assert_eq!(get(&env, "a"), Ok(Lookup::NotFound));
    assert_eq!(get(&env, "b"), found("2"));
    assert_eq!(get(&env, "c"), found(&long));
    assert_eq!(get(&env, "d"), found("4"));
}

#[test]
fn compaction_of_no_sealed_segment_writes_one_empty_file() {
    let mut env = open_empty();
    let ops = env.compact_segments().unwrap();
    assert_eq!(ops, vec![FileOp::Write { file: s("db.00001"), bytes: vec![] }]);
    assert_eq!(env.sealed_count(), 1);
}

#[test]
fn corruption_detection() {
    let files = vec![(s("db.00001"), b"a,1\nno separator here\nb,2\n".to_vec())];
    assert_eq!(Environment::new(&s("./data/"), &s("db"), &files).err(), Some(StoreError::Corruption));
    let files = vec![(s("db.current"), b"broken\n".to_vec())];
    assert_eq!(Environment::new(&s("./data/"), &s("db"), &files).err(), Some(StoreError::Corruption));
}

#[test]
fn scenario_set_delete_compact() {
    let mut env = open_empty();
    env.set_data(&s("a"), &s("1")).unwrap();
    env.set_data(&s("b"), &s("2")).unwrap();
    env.set_data(&s("a"), &s("3")).unwrap();
    env.delete_data(&s("b")).unwrap();
    env.compact_segments().unwrap();
    assert_eq!(get(&env, "a"), found("3"));
    assert_eq!(get(&env, "b"), Ok(Lookup::Deleted));
}

#[test]
fn scenario_after_sealing() {
    let mut env = open_empty();
    env.set_data(&s("a"), &s("1")).unwrap();
    env.set_data(&s("b"), &s("2")).unwrap();
    env.set_data(&s("a"), &s("3")).unwrap();
    env.delete_data(&s("b")).unwrap();
    let long = "z".repeat(SEGMENT_THRESHOLD);
    env.set_data(&s("pad"), &long).unwrap();
    env.set_data(&s("x"), &s("1")).unwrap();
    assert_eq!(env.sealed_count(), 1);
    env.compact_segments().unwrap();
    assert_eq!(get(&env, "a"), found("3"));
    assert_eq!(get(&env, "b"), Ok(Lookup::NotFound));
    let mut records = Vec::new();
    for i in 0..env.sealed_count() {
        records.extend(env.sealed_segment(i).records());
    }
    let a: Vec<_> = records.iter().filter(|r| r.0 == b"a".to_vec()).collect();
    assert_eq!(a.len(), 1);
    assert_eq!(a[0].1, b"3".to_vec());
    assert!(records.iter().all(|r| r.0 != b"b".to_vec()));
    assert!(records.iter().all(|r| !r.1.is_empty()));
}

#[test]
fn open_orders_sealed_segments_by_sequence() {
    let files = vec![
        (s("db.00010"), b"k,new\n".to_vec()),
        (s("other.txt"), b"whatever".to_vec()),
        (s("db.00002"), b"k,old\nj,1\n".to_vec()),
        (s("db.current"), b"c,x\n".to_vec()),
    ];
    let env = Environment::new(&s("./data/"), &s("db"), &files).ok().unwrap();
    assert_eq!(env.sealed_count(), 2);
    assert_eq!(env.sealed_segment(0).file_path(), &s("db.00002"));
    assert_eq!(env.sealed_segment(1).file_path(), &s("db.00010"));
    assert_eq!(get(&env, "k"), found("new"));
    assert_eq!(get(&env, "j"), found("1"));
    assert_eq!(get(&env, "c"), found("x"));
    assert_eq!(env.next_file_name(), s("db.00011"));
}

#[test]
fn open_rejects_bad_names() {
    let files = vec![(s("db.abc"), b"".to_vec())];
    assert_eq!(Environment::new(&s("d"), &s("db"), &files).err(), Some(StoreError::InvalidFileName));
    let files = vec![(s("db.7"), b"".to_vec())];
    assert_eq!(Environment::new(&s("d"), &s("db"), &files).err(), Some(StoreError::InvalidFileName));
}

#[test]
fn sequence_exhausted_when_rotating_past_the_last_number() {
    let files = vec![(s("db.18446744073709551615"), b"a,1\n".to_vec())];
    let mut env = Environment::new(&s("d"), &s("db"), &files).ok().unwrap();
    let long = "q".repeat(SEGMENT_THRESHOLD);
    env.set_data(&s("b"), &long).unwrap();
    assert_eq!(env.set_data(&s("c"), &s("1")), Err(StoreError::SequenceExhausted));
    assert_eq!(env.compact_segments(), Err(StoreError::SequenceExhausted));
    assert_eq!(get(&env, "a"), found("1"));
}

#[test]
fn next_file_name_starts_at_one() {
    let env = open_empty();
    assert_eq!(env.next_file_name(), s("db.00001"));
}

#[test]
fn names_are_zero_padded() {
    assert_eq!(sealed_name(&s("db"), 42), s("db.00042"));
    assert_eq!(sealed_name(&s("db"), 0), s("db.00000"));
    assert_eq!(sealed_name(&s("db"), 1234567), s("db.1234567"));
    assert_eq!(active_name(&s("db")), s("db.current"));
}

#[test]
fn names_parse_back() {
    assert_eq!(parse_sequence(&s("db"), &s("db.00042")), Some(42));
    assert_eq!(parse_sequence(&s("db"), &s("db.")), None);
    assert_eq!(parse_sequence(&s("db"), &s("db.4x")), None);
    assert_eq!(parse_sequence(&s("db"), &s("dc.00042")), None);
    assert_eq!(parse_sequence(&s("db"), &s("db.99999999999999999999")), None);
    assert!(is_segment_file(&s("db"), &s("db.current")));
    assert!(!is_segment_file(&s("db"), &s("dbx.00001")));
}

#[test]
fn retire_write_segment_seals_active() {
    let mut env = open_empty();
    env.set_data(&s("a"), &s("1")).unwrap();
    let op = env.retire_write_segment().unwrap();
    assert_eq!(op, FileOp::Rename { from: s("db.current"), to: s("db.00001") });
    assert_eq!(env.sealed_count(), 1);
    assert_eq!(env.active_segment().size(), 0);
    assert_eq!(get(&env, "a"), found("1"));
}

#[test]
fn next_file_name_is_one_past_the_greatest() {
    let files = vec![
        (s("db.00003"), b"".to_vec()),
        (s("db.00001"), b"".to_vec()),
        (s("db.00002"), b"".to_vec()),
    ];
    let env = Environment::new(&s("./data/"), &s("db"), &files).ok().unwrap();
    assert_eq!(env.next_file_name(), s("db.00004"));
    let files = vec![(s("db.00009"), b"".to_vec())];
    let env = Environment::new(&s("./data/"), &s("db"), &files).ok().unwrap();
    assert_eq!(env.next_file_name(), s("db.00010"));
}

#[test]
fn open_rejects_repeated_names() {
    let files = vec![(s("db.00001"), b"a,1\n".to_vec()), (s("db.00001"), b"a,2\n".to_vec())];
    assert_eq!(Environment::new(&s("d"), &s("db"), &files).err(), Some(StoreError::InvalidFileName));
}

#[test]
fn open_reports_corruption_among_good_names() {
    let files = vec![
        (s("db.00001"), b"a,1\n".to_vec()),
        (s("db.00002"), b"bad line\n".to_vec()),
        (s("db.current"), b"c,3\n".to_vec()),
    ];
    assert_eq!(Environment::new(&s("d"), &s("db"), &files).err(), Some(StoreError::Corruption));
}

#[test]
fn compaction_numbers_and_fills_segments_in_turn() {
    let mut env = open_empty();
    for i in 0..60 {
        env.set_data(&format!("key{:02}", i), &format!("value{:02}", i)).unwrap();
    }
    let before = env.sealed_count();
    assert!(before >= 2);
    env.compact_segments().unwrap();
    let n = env.sealed_count();
    assert!(n >= 2);
    for x in 0..n {
        let seg = env.sealed_segment(x);
        assert_eq!(seg.file_path(), &sealed_name(&s("db"), (before + 1 + x) as u64));
        if x + 1 < n {
            assert!(seg.size() > SEGMENT_THRESHOLD);
        }
        let recs = seg.records();
        let last = recs.last().unwrap();
        assert!(seg.size() - (last.0.len() + last.1.len() + 2) <= SEGMENT_THRESHOLD);
    }
    assert_eq!(env.next_file_name(), sealed_name(&s("db"), (before + n + 1) as u64));
    env.compact_segments().unwrap();
    for i in 0..60 {
        assert_eq!(get(&env, &format!("key{:02}", i)), found(&format!("value{:02}", i)));
    }
}
