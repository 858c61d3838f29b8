//! What holds of the store across operations.
use vstd::prelude::*;
use vstd::utf8::{decode_utf8, encode_utf8_decode_utf8, encode_utf8_valid_utf8};

use crate::codec::{
    find_from, has_byte, lemma_find_from, lemma_find_from_is, SEPARATOR, TERMINATOR,
};
use crate::log::{lemma_parse_serialized, parse, parse_from, serialize, valid_log, Record};
use crate::segment::{lookup_result, text_bytes, Lookup};
use crate::store::{compact_effect, live, set_effect, Environment, FileOp};
use crate::StoreError;

verus! {

/// Text is told apart by its bytes, and non-empty text has non-empty bytes.
proof fn lemma_text_bytes(a: Seq<char>, b: Seq<char>)
    ensures
        text_bytes(a) == text_bytes(b) ==> a == b,
        a.len() > 0 ==> text_bytes(a).len() > 0,
{
    encode_utf8_decode_utf8(a);
    encode_utf8_decode_utf8(b);
    if a.len() > 0 && text_bytes(a).len() == 0 {
        assert(text_bytes(a) =~= Seq::<u8>::empty());
        assert(decode_utf8(Seq::<u8>::empty()) =~= Seq::<char>::empty());
    }
}

/// A lookup of a key whose last value is the non-empty text `value` finds
/// that text.
proof fn lemma_found(value: Seq<char>, r: Result<Lookup, StoreError>)
    requires
        value.len() > 0,
        lookup_result(Some(text_bytes(value)), r),
    ensures
        r matches Ok(Lookup::Found(s)) && s@ == value,
{
    lemma_text_bytes(value, value);
    encode_utf8_valid_utf8(value);
    if let Ok(Lookup::Found(s)) = r {
        lemma_text_bytes(s@, value);
    }
}

/// After a successful write of a non-empty `value` for `key`, a lookup of
/// `key` finds `value`.
pub proof fn lemma_round_trip(
    before: Environment,
    after: Environment,
    key: Seq<char>,
    value: Seq<char>,
    ops: Vec<FileOp>,
    r: Result<Lookup, StoreError>,
)
    requires
        value.len() > 0,
        set_effect(before, after, text_bytes(key), text_bytes(value), Ok(ops)),
        lookup_result(after.contents().get(text_bytes(key)), r),
    ensures
        r matches Ok(Lookup::Found(s)) && s@ == value,
{
    lemma_found(value, r);
}

/// Of two successful writes for one key, a lookup finds the second value.
pub proof fn lemma_last_write_wins(
    first: Environment,
    second: Environment,
    third: Environment,
    key: Seq<char>,
    v1: Seq<char>,
    v2: Seq<char>,
    ops1: Vec<FileOp>,
    ops2: Vec<FileOp>,
    r: Result<Lookup, StoreError>,
)
    requires
        v2.len() > 0,
        set_effect(first, second, text_bytes(key), text_bytes(v1), Ok(ops1)),
        set_effect(second, third, text_bytes(key), text_bytes(v2), Ok(ops2)),
        lookup_result(third.contents().get(text_bytes(key)), r),
    ensures
        r matches Ok(Lookup::Found(s)) && s@ == v2,
{
    lemma_found(v2, r);
}

/// After a write and then a deletion of a key, a lookup of it reports the
/// deletion; a key with no record reports that nothing was found, which is
/// another outcome.
pub proof fn lemma_tombstone(
    first: Environment,
    second: Environment,
    third: Environment,
    key: Seq<char>,
    value: Seq<char>,
    ops1: Vec<FileOp>,
    ops2: Vec<FileOp>,
    r: Result<Lookup, StoreError>,
    other: Seq<char>,
    r_other: Result<Lookup, StoreError>,
)
    requires
        set_effect(first, second, text_bytes(key), text_bytes(value), Ok(ops1)),
        set_effect(second, third, text_bytes(key), Seq::<u8>::empty(), Ok(ops2)),
        lookup_result(third.contents().get(text_bytes(key)), r),
        !third.contents().contains_key(text_bytes(other)),
        lookup_result(third.contents().get(text_bytes(other)), r_other),
    ensures
        r == Ok::<Lookup, StoreError>(Lookup::Deleted),
        r_other == Ok::<Lookup, StoreError>(Lookup::NotFound),
        r != r_other,
{
}

/// A successful write leaves the value of every other key as it was, and
/// the number of sealed segments never goes down.
pub proof fn lemma_rotation_transparent(
    before: Environment,
    after: Environment,
    key: Seq<u8>,
    value: Seq<u8>,
    ops: Vec<FileOp>,
)
    requires
        set_effect(before, after, key, value, Ok(ops)),
    ensures
        forall|k: Seq<u8>| k != key ==> #[trigger] after.contents().get(k) == before.contents().get(k),
        after.sealed_logs().len() >= before.sealed_logs().len(),
{
    assert forall|k: Seq<u8>| k != key implies #[trigger] after.contents().get(k) == before.contents().get(k) by {
        assert(after.contents().contains_key(k) == before.contents().contains_key(k));
    }
}

/// Compaction keeps every value that a lookup can find, and a second
/// compaction right after the first changes nothing that lookups see.
pub proof fn lemma_compaction_equivalent(
    before: Environment,
    mid: Environment,
    after: Environment,
    ops1: Vec<FileOp>,
    ops2: Vec<FileOp>,
)
    requires
        compact_effect(before, mid, Ok(ops1)),
        compact_effect(mid, after, Ok(ops2)),
    ensures
        live(mid.contents()) == live(before.contents()),
        after.contents() == mid.contents(),
{
    assert(live(mid.contents()) =~= live(before.contents()));
    assert(live(live(before.sealed_map())) =~= live(before.sealed_map()));
    assert(after.contents() =~= mid.contents());
}

/// Segment bytes in which a line has no separator do not parse: the index
/// build, and with it opening the segment, fails with `Corruption`.
pub proof fn lemma_line_without_separator(log: Seq<Record>, line: Seq<u8>, rest: Seq<u8>)
    requires
        valid_log(log),
        !has_byte(line, SEPARATOR),
        !has_byte(line, TERMINATOR),
    ensures
        parse(serialize(log) + line + seq![TERMINATOR] + rest) is None,
{
    let s = serialize(log);
    let data = s + line + seq![TERMINATOR] + rest;
    assert(data.subrange(0, s.len() as int) =~= s);
    lemma_parse_serialized(data, 0, log);
    let p = s.len() as int;
    let e = p + line.len();
    assert forall|j: int| p <= j < e implies data[j] != TERMINATOR by {
        assert(data[j] == line[j - p]);
    }
    lemma_find_from_is(data, TERMINATOR, p, e);
    assert(data.subrange(p, e) =~= line);
    lemma_find_from(line, SEPARATOR, 0);
    if find_from(line, SEPARATOR, 0) < line.len() {
        assert(has_byte(line, SEPARATOR));
    }
    assert(parse_from(data, p) is None);
}

} // verus!
