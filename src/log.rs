//! What a segment's bytes mean: a sequence of records, the value each key
//! had last, and where each key's last record starts.
use vstd::prelude::*;

use crate::codec::{
    decode_spec, encode_spec, find_from, has_byte, lemma_decode_encode, lemma_find_from,
    lemma_find_from_is, line_spec, valid_record, SEPARATOR, TERMINATOR,
};

verus! {

/// A record: a key and its value; an empty value marks the key deleted.
pub type Record = (Seq<u8>, Seq<u8>);

/// Every record of the log can stand as one line.
pub open spec fn valid_log(log: Seq<Record>) -> bool {
    forall|i: int| 0 <= i < log.len() ==> valid_record(#[trigger] log[i].0, log[i].1)
}

/// The bytes of a log: its records' lines, oldest first.
pub open spec fn serialize(log: Seq<Record>) -> Seq<u8>
    decreases log.len(),
{
    if log.len() == 0 {
        Seq::empty()
    } else {
        serialize(log.drop_last()) + line_spec(log.last().0, log.last().1)
    }
}

/// The value that each key has last in the log.
pub open spec fn log_map(log: Seq<Record>) -> Map<Seq<u8>, Seq<u8>>
    decreases log.len(),
{
    if log.len() == 0 {
        Map::empty()
    } else {
        log_map(log.drop_last()).insert(log.last().0, log.last().1)
    }
}

/// Where each key's last record starts in `serialize(log)`.
pub open spec fn index_of(log: Seq<Record>) -> Map<Seq<u8>, usize>
    decreases log.len(),
{
    if log.len() == 0 {
        Map::empty()
    } else {
        index_of(log.drop_last()).insert(log.last().0, serialize(log.drop_last()).len() as usize)
    }
}

/// `Some(a + t)` where `rest` is `Some(t)`; `None` where it is `None`.
pub open spec fn prepend(a: Seq<Record>, rest: Option<Seq<Record>>) -> Option<Seq<Record>> {
    match rest {
        Some(t) => Some(a + t),
        None => None,
    }
}

/// The records of `data` from byte `pos` on: complete lines, each split at
/// its first separator; `None` where a line has no separator or the bytes
/// end inside a line.
pub open spec fn parse_from(data: Seq<u8>, pos: int) -> Option<Seq<Record>>
    decreases data.len() - pos,
{
    if pos >= data.len() {
        Some(Seq::empty())
    } else {
        let e = find_from(data, TERMINATOR, pos);
        if e < pos || e >= data.len() {
            None
        } else {
            match decode_spec(data.subrange(pos, e)) {
                None => None,
                Some(r) => prepend(seq![r], parse_from(data, e + 1)),
            }
        }
    }
}

/// The records of a whole segment.
pub open spec fn parse(data: Seq<u8>) -> Option<Seq<Record>> {
    parse_from(data, 0)
}

pub proof fn lemma_serialize_push(log: Seq<Record>, r: Record)
    ensures
        serialize(log.push(r)) == serialize(log) + line_spec(r.0, r.1),
{
    assert(log.push(r).drop_last() =~= log);
}

/// The first record's line stands at the front.
pub proof fn lemma_serialize_front(log: Seq<Record>)
    requires
        log.len() > 0,
    ensures
        serialize(log) == line_spec(log[0].0, log[0].1) + serialize(log.subrange(1, log.len() as int)),
    decreases log.len(),
{
    if log.len() == 1 {
        assert(log.drop_last() =~= Seq::<Record>::empty());
        assert(log.subrange(1, 1) =~= Seq::<Record>::empty());
        assert(serialize(Seq::<Record>::empty()) == Seq::<u8>::empty());
        assert(serialize(log) =~= line_spec(log[0].0, log[0].1));
    } else {
        let d = log.drop_last();
        lemma_serialize_front(d);
        assert(d.subrange(1, d.len() as int) =~= log.subrange(1, log.len() as int).drop_last());
        assert(log.subrange(1, log.len() as int).last() == log.last());
        assert(d[0] == log[0]);
    }
}

/// The bytes of a prefix of the log are a prefix of its bytes.
pub proof fn lemma_serialize_prefix(log: Seq<Record>, j: int)
    requires
        0 <= j <= log.len(),
    ensures
        serialize(log.subrange(0, j)).len() <= serialize(log).len(),
        serialize(log).subrange(0, serialize(log.subrange(0, j)).len() as int) == serialize(
            log.subrange(0, j),
        ),
    decreases log.len() - j,
{
    if j == log.len() {
        assert(log.subrange(0, j) =~= log);
        assert(serialize(log).subrange(0, serialize(log).len() as int) =~= serialize(log));
    } else {
        lemma_serialize_prefix(log, j + 1);
        let a = log.subrange(0, j);
        let b = log.subrange(0, j + 1);
        assert(b.drop_last() =~= a);
        let sb = serialize(b);
        let sa = serialize(a);
        assert(sb.subrange(0, sa.len() as int) =~= sa);
        assert(serialize(log).subrange(0, sa.len() as int) =~= sb.subrange(0, sa.len() as int));
    }
}

/// Facts about one line as it stands in a segment.
pub proof fn lemma_line_facts(key: Seq<u8>, value: Seq<u8>)
    requires
        valid_record(key, value),
    ensures
        forall|j: int| 0 <= j < encode_spec(key, value).len() ==> line_spec(key, value)[j] != TERMINATOR,
        line_spec(key, value)[encode_spec(key, value).len() as int] == TERMINATOR,
        line_spec(key, value).len() == encode_spec(key, value).len() + 1,
{
    let l = encode_spec(key, value);
    assert forall|j: int| 0 <= j < l.len() implies line_spec(key, value)[j] != TERMINATOR by {
        assert(line_spec(key, value)[j] == l[j]);
        if j < key.len() {
            assert(l[j] == key[j]);
        } else if j > key.len() {
            assert(l[j] == value[j - key.len() - 1]);
        }
    }
}

/// Parsing bytes that begin, at `pos`, with the lines of a valid log gives
/// that log followed by what the rest parses to.
pub proof fn lemma_parse_serialized(data: Seq<u8>, pos: int, log: Seq<Record>)
    requires
        valid_log(log),
        0 <= pos,
        pos + serialize(log).len() <= data.len(),
        data.subrange(pos, pos + serialize(log).len()) == serialize(log),
    ensures
        parse_from(data, pos) == prepend(log, parse_from(data, pos + serialize(log).len())),
    decreases log.len(),
{
    if log.len() == 0 {
        assert(Seq::<Record>::empty() + Seq::<Record>::empty() =~= Seq::<Record>::empty());
        match parse_from(data, pos) {
            Some(t) => {
                assert(log + t =~= t);
            },
            None => {},
        }
    } else {
        let r = log[0];
        let tail = log.subrange(1, log.len() as int);
        lemma_serialize_front(log);
        lemma_line_facts(r.0, r.1);
        let l = line_spec(r.0, r.1);
        let e = pos + l.len() - 1;
        assert forall|j: int| pos <= j < e implies data[j] != TERMINATOR by {
            assert(data[j] == data.subrange(pos, pos + serialize(log).len())[j - pos]);
            assert(serialize(log)[j - pos] == l[j - pos]);
        }
        assert(data[e] == serialize(log)[e - pos]);
        lemma_find_from_is(data, TERMINATOR, pos, e);
        assert(data.subrange(pos, e) =~= encode_spec(r.0, r.1));
        lemma_decode_encode(r.0, r.1);
        assert(valid_log(tail)) by {
            assert forall|i: int| 0 <= i < tail.len() implies valid_record(
                #[trigger] tail[i].0,
                tail[i].1,
            ) by {
                assert(tail[i] == log[i + 1]);
            }
        }
        assert(data.subrange(e + 1, e + 1 + serialize(tail).len()) =~= serialize(tail)) by {
            assert forall|j: int| 0 <= j < serialize(tail).len() implies data.subrange(
                e + 1,
                e + 1 + serialize(tail).len(),
            )[j] == serialize(tail)[j] by {
                assert(serialize(log)[l.len() + j] == serialize(tail)[j]);
                assert(data[pos + l.len() + j] == serialize(log)[l.len() + j]);
            }
        }
        lemma_parse_serialized(data, e + 1, tail);
        match parse_from(data, e + 1 + serialize(tail).len()) {
            Some(t) => {
                assert(seq![r] + (tail + t) =~= log + t);
            },
            None => {},
        }
    }
}

/// A valid log's bytes parse back to the log.
pub proof fn lemma_parse_serialize(log: Seq<Record>)
    requires
        valid_log(log),
    ensures
        parse(serialize(log)) == Some(log),
{
    let d = serialize(log);
    assert(d.subrange(0, d.len() as int) =~= d);
    lemma_parse_serialized(d, 0, log);
    assert(log + Seq::<Record>::empty() =~= log);
}

/// What parses is the bytes of a valid log.
pub proof fn lemma_parsed_is_serialized(data: Seq<u8>, pos: int)
    requires
        0 <= pos <= data.len(),
        parse_from(data, pos) is Some,
    ensures
        valid_log(parse_from(data, pos)->Some_0),
        serialize(parse_from(data, pos)->Some_0) == data.subrange(pos, data.len() as int),
    decreases data.len() - pos,
{
    if pos == data.len() {
        assert(data.subrange(pos, pos) =~= Seq::<u8>::empty());
    } else {
        let e = find_from(data, TERMINATOR, pos);
        lemma_find_from(data, TERMINATOR, pos);
        let line = data.subrange(pos, e);
        let r = decode_spec(line)->Some_0;
        let i = find_from(line, SEPARATOR, 0);
        lemma_find_from(line, SEPARATOR, 0);
        lemma_parsed_is_serialized(data, e + 1);
        let tail = parse_from(data, e + 1)->Some_0;
        let log = seq![r] + tail;
        assert(line =~= encode_spec(r.0, r.1));
        assert(!has_byte(r.0, SEPARATOR)) by {
            if has_byte(r.0, SEPARATOR) {
                let j = choose|j: int| 0 <= j < r.0.len() && r.0[j] == SEPARATOR;
                assert(line[j] == SEPARATOR);
            }
        }
        assert(!has_byte(r.0, TERMINATOR)) by {
            if has_byte(r.0, TERMINATOR) {
                let j = choose|j: int| 0 <= j < r.0.len() && r.0[j] == TERMINATOR;
                assert(data[pos + j] == TERMINATOR);
            }
        }
        assert(!has_byte(r.1, TERMINATOR)) by {
            if has_byte(r.1, TERMINATOR) {
                let j = choose|j: int| 0 <= j < r.1.len() && r.1[j] == TERMINATOR;
                assert(data[pos + i + 1 + j] == TERMINATOR);
            }
        }
        assert(valid_log(log)) by {
            assert forall|k: int| 0 <= k < log.len() implies valid_record(#[trigger] log[k].0, log[k].1) by {
                if k > 0 {
                    assert(log[k] == tail[k - 1]);
                }
            }
        }
        lemma_serialize_front(log);
        assert(log.subrange(1, log.len() as int) =~= tail);
        assert(serialize(log) =~= data.subrange(pos, data.len() as int));
    }
}

/// The last value of each key, and where its last record starts, are those
/// of one record of the log.
pub proof fn lemma_index_of(log: Seq<Record>, key: Seq<u8>)
    requires
        log_map(log).contains_key(key),
    ensures
        index_of(log).contains_key(key),
        exists|j: int|
            0 <= j < log.len() && #[trigger] log[j].0 == key && log[j].1 == log_map(log)[key]
                && index_of(log)[key] == serialize(log.subrange(0, j)).len() as usize,
    decreases log.len(),
{
    let d = log.drop_last();
    if log.last().0 == key {
        let j = log.len() - 1;
        assert(log.subrange(0, j) =~= d);
        assert(log[j].0 == key);
    } else {
        lemma_index_of(d, key);
        let j = choose|j: int|
            0 <= j < d.len() && #[trigger] d[j].0 == key && d[j].1 == log_map(d)[key]
                && index_of(d)[key] == serialize(d.subrange(0, j)).len() as usize;
        assert(d.subrange(0, j) =~= log.subrange(0, j));
        assert(log[j] == d[j]);
    }
}

/// The keys of `index_of` are those of `log_map`.
pub proof fn lemma_index_dom(log: Seq<Record>)
    ensures
        index_of(log).dom() == log_map(log).dom(),
    decreases log.len(),
{
    if log.len() > 0 {
        lemma_index_dom(log.drop_last());
    }
    assert(index_of(log).dom() =~= log_map(log).dom());
}

/// The line that starts where the index points for `key` ends where its
/// first line break is, and decodes to `key` and its last value.
pub proof fn lemma_line_at(log: Seq<Record>, key: Seq<u8>)
    requires
        valid_log(log),
        log_map(log).contains_key(key),
        serialize(log).len() <= usize::MAX,
    ensures
        index_of(log).contains_key(key),
        ({
            let d = serialize(log);
            let o = index_of(log)[key] as int;
            let e = find_from(d, TERMINATOR, o);
            &&& 0 <= o <= e < d.len()
            &&& decode_spec(d.subrange(o, e)) == Some((key, log_map(log)[key]))
        }),
{
    lemma_index_of(log, key);
    let j = choose|j: int|
        0 <= j < log.len() && #[trigger] log[j].0 == key && log[j].1 == log_map(log)[key]
            && index_of(log)[key] == serialize(log.subrange(0, j)).len() as usize;
    let d = serialize(log);
    let a = log.subrange(0, j);
    let b = log.subrange(0, j + 1);
    assert(b.drop_last() =~= a);
    assert(b.last() == log[j]);
    lemma_serialize_prefix(log, j + 1);
    lemma_serialize_push(a, log[j]);
    assert(a.push(log[j]) =~= b);
    let sa = serialize(a);
    let o = sa.len() as int;
    let r = log[j];
    assert(valid_record(r.0, r.1));
    lemma_line_facts(r.0, r.1);
    let l = line_spec(r.0, r.1);
    let e = o + l.len() - 1;
    assert(index_of(log)[key] as int == o);
    assert forall|i: int| 0 <= i < l.len() implies d[o + i] == l[i] by {
        assert(d[o + i] == d.subrange(0, serialize(b).len() as int)[o + i]);
        assert(serialize(b)[o + i] == l[i]);
    }
    assert forall|i: int| o <= i < e implies d[i] != TERMINATOR by {
        assert(d[i] == l[i - o]);
    }
    assert(d[e] == l[e - o]);
    lemma_find_from_is(d, TERMINATOR, o, e);
    assert(d.subrange(o, e) =~= encode_spec(r.0, r.1)) by {
        assert forall|i: int| 0 <= i < e - o implies d.subrange(o, e)[i] == encode_spec(r.0, r.1)[i] by {
            assert(d[o + i] == l[i]);
        }
    }
    lemma_decode_encode(r.0, r.1);
}

} // verus!
