//! The record format: one `key,value` line per record, an empty value
//! marking a deleted key.
use vstd::prelude::*;

use crate::StoreError;

verus! {

/// Byte between a record's key and its value.
pub const SEPARATOR: u8 = 44;

/// Byte that ends every record line.
pub const TERMINATOR: u8 = 10;

/// Whether `b` occurs in `s`.
pub open spec fn has_byte(s: Seq<u8>, b: u8) -> bool {
    exists|i: int| 0 <= i < s.len() && s[i] == b
}

/// First position at or after `i` that holds `b`, or `s.len()` if none does.
pub open spec fn find_from(s: Seq<u8>, b: u8, i: int) -> int
    decreases s.len() - i,
{
    if i >= s.len() {
        s.len() as int
    } else if s[i] == b {
        i
    } else {
        find_from(s, b, i + 1)
    }
}

/// A record's line without its terminator.
pub open spec fn encode_spec(key: Seq<u8>, value: Seq<u8>) -> Seq<u8> {
    key + seq![SEPARATOR] + value
}

/// A record's line with its terminator, as it stands in a segment.
pub open spec fn line_spec(key: Seq<u8>, value: Seq<u8>) -> Seq<u8> {
    encode_spec(key, value) + seq![TERMINATOR]
}

/// A line split at its first separator; `None` where it has none.
pub open spec fn decode_spec(line: Seq<u8>) -> Option<(Seq<u8>, Seq<u8>)> {
    let i = find_from(line, SEPARATOR, 0);
    if i < line.len() {
        Some((line.subrange(0, i), line.subrange(i + 1, line.len() as int)))
    } else {
        None
    }
}

/// A record that can stand as one line: no separator or line break in the
/// key, no line break in the value.
pub open spec fn valid_record(key: Seq<u8>, value: Seq<u8>) -> bool {
    &&& !has_byte(key, SEPARATOR)
    &&& !has_byte(key, TERMINATOR)
    &&& !has_byte(value, TERMINATOR)
}

/// `find_from` returns the first occurrence at or after `i`.
pub proof fn lemma_find_from(s: Seq<u8>, b: u8, i: int)
    requires
        0 <= i <= s.len(),
    ensures
        i <= find_from(s, b, i) <= s.len(),
        find_from(s, b, i) < s.len() ==> s[find_from(s, b, i)] == b,
        forall|j: int| i <= j < find_from(s, b, i) ==> s[j] != b,
    decreases s.len() - i,
{
    if i < s.len() && s[i] != b {
        lemma_find_from(s, b, i + 1);
    }
}

/// Any first occurrence at or after `i` is what `find_from` returns.
pub proof fn lemma_find_from_is(s: Seq<u8>, b: u8, i: int, r: int)
    requires
        0 <= i <= r <= s.len(),
        r < s.len() ==> s[r] == b,
        forall|j: int| i <= j < r ==> s[j] != b,
    ensures
        find_from(s, b, i) == r,
{
    lemma_find_from(s, b, i);
    let f = find_from(s, b, i);
    if f < r {
        assert(s[f] != b);
    } else if f > r {
        assert(s[r] != b);
    }
}

/// Decoding an encoded record gives the record back.
pub proof fn lemma_decode_encode(key: Seq<u8>, value: Seq<u8>)
    requires
        !has_byte(key, SEPARATOR),
    ensures
        decode_spec(encode_spec(key, value)) == Some((key, value)),
{
    let line = encode_spec(key, value);
    assert forall|j: int| 0 <= j < key.len() implies line[j] != SEPARATOR by {
        assert(line[j] == key[j]);
    }
    lemma_find_from_is(line, SEPARATOR, 0, key.len() as int);
    assert(line.subrange(0, key.len() as int) =~= key);
    assert(line.subrange(key.len() + 1int, line.len() as int) =~= value);
}

/// A line that decodes is the encoding of what it decodes to.
pub proof fn lemma_decoded_is_encoded(line: Seq<u8>)
    requires
        decode_spec(line) is Some,
    ensures
        line == encode_spec(decode_spec(line)->Some_0.0, decode_spec(line)->Some_0.1),
{
    lemma_find_from(line, SEPARATOR, 0);
    let (k, v) = decode_spec(line)->Some_0;
    assert(line =~= encode_spec(k, v));
}

/// Whether `b` occurs in `s`.
pub fn contains_byte(s: &[u8], b: u8) -> (r: bool)
    ensures
        r == has_byte(s@, b),
{
    let mut i: usize = 0;
    while i < s.len()
        invariant
            0 <= i <= s@.len(),
            forall|j: int| 0 <= j < i ==> s@[j] != b,
        decreases s@.len() - i,
    {
        if s[i] == b {
            return true;
        }
        i = i + 1;
    }
    false
}

/// First position at or after `from` that holds `b`, or `s.len()`.
pub fn find_byte(s: &[u8], b: u8, from: usize) -> (r: usize)
    requires
        from <= s@.len(),
    ensures
        r == find_from(s@, b, from as int),
        from <= r <= s@.len(),
{
    let mut i: usize = from;
    while i < s.len()
        invariant
            from <= i <= s@.len(),
            forall|j: int| from <= j < i ==> s@[j] != b,
        decreases s@.len() - i,
    {
        if s[i] == b {
            proof {
                lemma_find_from_is(s@, b, from as int, i as int);
            }
            return i;
        }
        i = i + 1;
    }
    proof {
        lemma_find_from_is(s@, b, from as int, i as int);
    }
    i
}

/// The bytes `s[from..to]` as a vector.
pub fn copy_range(s: &[u8], from: usize, to: usize) -> (r: Vec<u8>)
    requires
        from <= to <= s@.len(),
    ensures
        r@ == s@.subrange(from as int, to as int),
{
    let mut r: Vec<u8> = Vec::new();
    let mut i: usize = from;
    while i < to
        invariant
            from <= i <= to <= s@.len(),
            r@ == s@.subrange(from as int, i as int),
        decreases to - i,
    {
        r.push(s[i]);
        i = i + 1;
        assert(r@ =~= s@.subrange(from as int, i as int));
    }
    r
}

/// Whether two byte strings are equal.
pub fn bytes_eq(a: &[u8], b: &[u8]) -> (r: bool)
    ensures
        r == (a@ == b@),
{
    if a.len() != b.len() {
        return false;
    }
    let mut i: usize = 0;
    while i < a.len()
        invariant
            a@.len() == b@.len(),
            0 <= i <= a@.len(),
            forall|j: int| 0 <= j < i ==> a@[j] == b@[j],
        decreases a@.len() - i,
    {
        if a[i] != b[i] {
            return false;
        }
        i = i + 1;
    }
    assert(a@ =~= b@);
    true
}

/// Encodes a record as its line `key,value`, without the terminator.
/// Refuses a key that holds the separator or a line break, and a value that
/// holds a line break: either would break the one-line-per-record format.
pub fn encode(key: &[u8], value: &[u8]) -> (r: Result<Vec<u8>, StoreError>)
    ensures
        match r {
            Ok(line) => valid_record(key@, value@) && line@ == encode_spec(key@, value@),
            Err(e) => {
                &&& (has_byte(key@, SEPARATOR) || has_byte(key@, TERMINATOR)) ==> e
                    == StoreError::InvalidKey
                &&& !(has_byte(key@, SEPARATOR) || has_byte(key@, TERMINATOR)) ==> e
                    == StoreError::InvalidValue && has_byte(value@, TERMINATOR)
            },
        },
{
    if contains_byte(key, SEPARATOR) || contains_byte(key, TERMINATOR) {
        return Err(StoreError::InvalidKey);
    }
    if contains_byte(value, TERMINATOR) {
        return Err(StoreError::InvalidValue);
    }
    let mut line = copy_range(key, 0, key.len());
    line.push(SEPARATOR);
    let mut i: usize = 0;
    while i < value.len()
        invariant
            0 <= i <= value@.len(),
            line@ == key@ + seq![SEPARATOR] + value@.subrange(0, i as int),
        decreases value@.len() - i,
    {
        line.push(value[i]);
        i = i + 1;
        assert(line@ =~= key@ + seq![SEPARATOR] + value@.subrange(0, i as int));
    }
    assert(value@.subrange(0, value@.len() as int) =~= value@);
    Ok(line)
}

/// Splits a line at its first separator into key and value; the value may
/// hold further separators. A line without a separator is corrupt.
pub fn decode(line: &[u8]) -> (r: Result<(Vec<u8>, Vec<u8>), StoreError>)
    ensures
        match r {
            Ok((k, v)) => decode_spec(line@) == Some((k@, v@)),
            Err(e) => e == StoreError::Corruption && decode_spec(line@) is None,
        },
{
    let i = find_byte(line, SEPARATOR, 0);
    if i == line.len() {
        return Err(StoreError::Corruption);
    }
    let k = copy_range(line, 0, i);
    let v = copy_range(line, i + 1, line.len());
    Ok((k, v))
}

} // verus!
