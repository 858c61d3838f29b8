//! A segment: the bytes of one append-only file, an index from each key to
//! the offset of its last record there, and the file's size.
use vstd::prelude::*;
use vstd::utf8::{encode_utf8, valid_utf8};

use crate::codec::{
    copy_range, decode, encode, find_byte, has_byte, line_spec, valid_record, SEPARATOR,
    TERMINATOR,
};
use crate::log::{
    index_of, lemma_line_at, lemma_parse_serialize, lemma_parsed_is_serialized, lemma_serialize_push,
    log_map, parse, parse_from, prepend, serialize, valid_log, Record,
};
use crate::table::KeyTable;
use crate::StoreError;

verus! {

/// What a lookup finds.
#[derive(Debug, PartialEq, Eq)]
pub enum Lookup {
    /// The key's last value.
    Found(String),
    /// The key's last record is a deletion.
    Deleted,
    /// No record of the key was written.
    NotFound,
}

/// The bytes of a text: its UTF-8 encoding.
pub open spec fn text_bytes(s: Seq<char>) -> Seq<u8> {
    encode_utf8(s)
}

/// What a lookup returns for a key whose last value is `v` (`None`: no
/// record of it). An empty value is a deletion; a value that is not UTF-8
/// text cannot be handed out.
pub open spec fn lookup_result(v: Option<Seq<u8>>, r: Result<Lookup, StoreError>) -> bool {
    match v {
        None => r == Ok::<Lookup, StoreError>(Lookup::NotFound),
        Some(b) => if b.len() == 0 {
            r == Ok::<Lookup, StoreError>(Lookup::Deleted)
        } else if valid_utf8(b) {
            r matches Ok(Lookup::Found(s)) && text_bytes(s@) == b
        } else {
            r == Err::<Lookup, StoreError>(StoreError::Encoding)
        },
    }
}

/// Relies on `String::from_utf8`: it succeeds exactly on valid UTF-8, and the
/// text it returns is encoded by those bytes.
#[verifier::external_body]
fn text_from_bytes(b: Vec<u8>) -> (r: Option<String>)
    ensures
        match r {
            Some(s) => valid_utf8(b@) && encode_utf8(s@) == b@,
            None => !valid_utf8(b@),
        },
{
    String::from_utf8(b).ok()
}

/// The bytes of a text, as a vector.
pub fn bytes_of(s: &String) -> (r: Vec<u8>)
    ensures
        r@ == text_bytes(s@),
{
    let b = s.as_str().as_bytes();
    let r = copy_range(b, 0, b.len());
    assert(r@ =~= b@);
    r
}

/// Turns the value of a key's last record into the outcome of a lookup.
pub fn lookup_of(v: Option<Vec<u8>>) -> (r: Result<Lookup, StoreError>)
    ensures
        lookup_result(
            match v {
                Some(b) => Some(b@),
                None => None,
            },
            r,
        ),
{
    match v {
        None => Ok(Lookup::NotFound),
        Some(b) => {
            if b.len() == 0 {
                Ok(Lookup::Deleted)
            } else {
                match text_from_bytes(b) {
                    Some(s) => Ok(Lookup::Found(s)),
                    None => Err(StoreError::Encoding),
                }
            }
        },
    }
}

/// Replays a segment's bytes from the start and maps each key to the offset
/// of its last record. Fails with `Corruption` where a line has no
/// separator or the bytes end inside a line.
pub fn build_index(data: &[u8]) -> (r: Result<KeyTable<usize>, StoreError>)
    ensures
        match r {
            Ok(t) => parse(data@) is Some && t.wf() && t@ == index_of(parse(data@)->Some_0),
            Err(e) => e == StoreError::Corruption && parse(data@) is None,
        },
{
    let mut index: KeyTable<usize> = KeyTable::new();
    let ghost mut acc: Seq<Record> = Seq::empty();
    let mut pos: usize = 0;
    assert(prepend(acc, parse_from(data@, 0)) == parse_from(data@, 0)) by {
        match parse_from(data@, 0) {
            Some(t) => {
                assert(acc + t =~= t);
            },
            None => {},
        }
    }
    while pos < data.len()
        invariant
            0 <= pos <= data@.len(),
            index.wf(),
            index@ == index_of(acc),
            serialize(acc).len() == pos,
            parse(data@) == prepend(acc, parse_from(data@, pos as int)),
        decreases data@.len() - pos,
    {
        let e = find_byte(data, TERMINATOR, pos);
        if e == data.len() {
            return Err(StoreError::Corruption);
        }
        let line = copy_range(data, pos, e);
        match decode(line.as_slice()) {
            Err(_) => {
                return Err(StoreError::Corruption);
            },
            Ok((k, v)) => {
                let ghost r: Record = (k@, v@);
                proof {
                    crate::codec::lemma_decoded_is_encoded(line@);
                    let rest = parse_from(data@, e + 1);
                    match rest {
                        Some(t) => {
                            assert(acc + (seq![r] + t) =~= acc.push(r) + t);
                        },
                        None => {},
                    }
                    lemma_serialize_push(acc, r);
                    assert(acc.push(r).drop_last() =~= acc);
                    acc = acc.push(r);
                }
                index.insert(k, pos);
                pos = e + 1;
            },
        }
    }
    proof {
        assert(acc + Seq::<Record>::empty() =~= acc);
    }
    Ok(index)
}

/// The view of a vector of records.
pub open spec fn records_view(v: Seq<(Vec<u8>, Vec<u8>)>) -> Seq<Record> {
    v.map_values(|e: (Vec<u8>, Vec<u8>)| (e.0@, e.1@))
}

/// Replays a segment's bytes from the start into its records, oldest first.
/// Fails with `Corruption` where `build_index` does.
pub fn read_records(data: &[u8]) -> (r: Result<Vec<(Vec<u8>, Vec<u8>)>, StoreError>)
    ensures
        match r {
            Ok(v) => parse(data@) == Some(records_view(v@)),
            Err(e) => e == StoreError::Corruption && parse(data@) is None,
        },
{
    let mut out: Vec<(Vec<u8>, Vec<u8>)> = Vec::new();
    let mut pos: usize = 0;
    assert(prepend(records_view(out@), parse_from(data@, 0)) == parse_from(data@, 0)) by {
        match parse_from(data@, 0) {
            Some(t) => {
                assert(records_view(out@) + t =~= t);
            },
            None => {},
        }
    }
    while pos < data.len()
        invariant
            0 <= pos <= data@.len(),
            parse(data@) == prepend(records_view(out@), parse_from(data@, pos as int)),
        decreases data@.len() - pos,
    {
        let e = find_byte(data, TERMINATOR, pos);
        if e == data.len() {
            return Err(StoreError::Corruption);
        }
        let line = copy_range(data, pos, e);
        match decode(line.as_slice()) {
            Err(_) => {
                return Err(StoreError::Corruption);
            },
            Ok((k, v)) => {
                let ghost r: Record = (k@, v@);
                let ghost before = records_view(out@);
                out.push((k, v));
                proof {
                    assert(records_view(out@) =~= before.push(r));
                    match parse_from(data@, e + 1) {
                        Some(t) => {
                            assert(before + (seq![r] + t) =~= before.push(r) + t);
                        },
                        None => {},
                    }
                }
                pos = e + 1;
            },
        }
    }
    proof {
        assert(records_view(out@) + Seq::<Record>::empty() =~= records_view(out@));
    }
    Ok(out)
}

/// One append-only file's bytes with the index of its records.
pub struct Segment {
    file_path: String,
    data: Vec<u8>,
    index: KeyTable<usize>,
    size: usize,
    log: Ghost<Seq<Record>>,
}

impl Segment {
    /// The records of the segment, oldest first.
    pub closed spec fn log(&self) -> Seq<Record> {
        self.log@
    }

    /// The name of the segment's file.
    pub closed spec fn path(&self) -> Seq<char> {
        self.file_path@
    }

    /// The segment's bytes.
    pub closed spec fn bytes(&self) -> Seq<u8> {
        self.data@
    }

    /// The size counter.
    pub closed spec fn size_spec(&self) -> nat {
        self.size as nat
    }

    /// The value each key has last in this segment.
    pub open spec fn contents(&self) -> Map<Seq<u8>, Seq<u8>> {
        log_map(self.log())
    }

    /// The bytes are the lines of the records, the index points at each
    /// key's last record, and the size is the number of bytes.
    pub closed spec fn wf(&self) -> bool {
        &&& valid_log(self.log@)
        &&& self.data@ == serialize(self.log@)
        &&& self.index.wf()
        &&& self.index@ == index_of(self.log@)
        &&& self.size == self.data@.len()
    }

    /// What well-formedness says of the records, bytes and size.
    pub proof fn lemma_wf(&self)
        requires
            self.wf(),
        ensures
            valid_log(self.log()),
            self.bytes() == serialize(self.log()),
            self.size_spec() == self.bytes().len(),
    {
    }

    /// A segment over a file's bytes, its index rebuilt from them. Fails with
    /// `Corruption` where the bytes are not a sequence of records.
    pub fn new(file_path: String, data: Vec<u8>) -> (r: Result<Segment, StoreError>)
        ensures
            match r {
                Ok(s) => {
                    &&& parse(data@) is Some
                    &&& s.wf()
                    &&& s.log() == parse(data@)->Some_0
                    &&& s.bytes() == data@
                    &&& s.path() == file_path@
                },
                Err(e) => e == StoreError::Corruption && parse(data@) is None,
            },
    {
        match build_index(data.as_slice()) {
            Err(e) => Err(e),
            Ok(index) => {
                proof {
                    lemma_parsed_is_serialized(data@, 0);
                    assert(data@.subrange(0, data@.len() as int) =~= data@);
                }
                let size = data.len();
                Ok(Segment { file_path, data, index, size, log: Ghost(parse(data@)->Some_0) })
            },
        }
    }

    /// A segment with no records.
    pub fn empty(file_path: String) -> (r: Segment)
        ensures
            r.wf(),
            r.log() == Seq::<Record>::empty(),
            r.path() == file_path@,
    {
        Segment {
            file_path,
            data: Vec::new(),
            index: KeyTable::new(),
            size: 0,
            log: Ghost(Seq::empty()),
        }
    }

    /// Gives the segment the name its file was renamed to.
    pub fn rename(&mut self, file_path: String)
        requires
            old(self).wf(),
        ensures
            final(self).wf(),
            final(self).path() == file_path@,
            final(self).log() == old(self).log(),
            final(self).bytes() == old(self).bytes(),
    {
        self.file_path = file_path;
    }

    /// The segment's records, oldest first, replayed from its bytes.
    pub fn records(&self) -> (r: Vec<(Vec<u8>, Vec<u8>)>)
        requires
            self.wf(),
        ensures
            records_view(r@) == self.log(),
    {
        proof {
            lemma_parse_serialize(self.log@);
        }
        match read_records(self.data.as_slice()) {
            Ok(v) => v,
            Err(_) => Vec::new(),
        }
    }

    /// The name of the segment's file.
    pub fn file_path(&self) -> (r: &String)
        ensures
            r@ == self.path(),
    {
        &self.file_path
    }

    /// The segment's bytes, as its file holds them.
    pub fn data(&self) -> (r: &Vec<u8>)
        ensures
            r@ == self.bytes(),
    {
        &self.data
    }

    /// The number of bytes in the segment.
    pub fn size(&self) -> (r: usize)
        ensures
            r == self.size_spec(),
    {
        self.size
    }

    /// The value of the last record of `key`, read at the offset that the
    /// index holds for it. A record there of another key is index
    /// corruption, which a well-formed segment never shows.
    pub fn get_record(&self, key: &[u8]) -> (r: Result<Option<Vec<u8>>, StoreError>)
        requires
            self.wf(),
        ensures
            r matches Ok(v) && match v {
                Some(b) => self.contents().contains_key(key@) && b@ == self.contents()[key@],
                None => !self.contents().contains_key(key@),
            },
    {
        match self.index.get(key) {
            None => {
                proof {
                    crate::log::lemma_index_dom(self.log@);
                    assert(!index_of(self.log@).dom().contains(key@));
                }
                Ok(None)
            },
            Some(offset) => {
                let o = *offset;
                proof {
                    crate::log::lemma_index_dom(self.log@);
                    assert(index_of(self.log@).dom().contains(key@));
                    lemma_line_at(self.log@, key@);
                }
                let e = find_byte(self.data.as_slice(), TERMINATOR, o);
                let line = copy_range(self.data.as_slice(), o, e);
                match decode(line.as_slice()) {
                    Err(e) => Err(e),
                    Ok((k, v)) => {
                        if crate::codec::bytes_eq(k.as_slice(), key) {
                            Ok(Some(v))
                        } else {
                            Err(StoreError::IndexCorruption)
                        }
                    },
                }
            },
        }
    }

    /// Looks `key` up: its last value, `Deleted` where its last record is a
    /// deletion, `NotFound` where the segment holds no record of it.
    pub fn get_data(&self, key: &String) -> (r: Result<Lookup, StoreError>)
        requires
            self.wf(),
        ensures
            lookup_result(self.contents().get(text_bytes(key@)), r),
    {
        let k = bytes_of(key);
        match self.get_record(k.as_slice()) {
            Ok(v) => lookup_of(v),
            Err(e) => Err(e),
        }
    }

    /// Appends the record `key,value` and points the index at it. Returns
    /// the bytes appended, the line and its terminator.
    pub fn append_record(&mut self, key: &[u8], value: &[u8]) -> (r: Result<Vec<u8>, StoreError>)
        requires
            old(self).wf(),
        ensures
            final(self).wf(),
            final(self).path() == old(self).path(),
            match r {
                Ok(line) => {
                    &&& valid_record(key@, value@)
                    &&& line@ == line_spec(key@, value@)
                    &&& final(self).log() == old(self).log().push((key@, value@))
                    &&& final(self).bytes() == old(self).bytes() + line@
                },
                Err(e) => {
                    &&& !valid_record(key@, value@)
                    &&& e == if has_byte(key@, SEPARATOR) || has_byte(key@, TERMINATOR) {
                        StoreError::InvalidKey
                    } else {
                        StoreError::InvalidValue
                    }
                    &&& *final(self) == *old(self)
                },
            },
    {
        let mut line = match encode(key, value) {
            Ok(l) => l,
            Err(e) => {
                return Err(e);
            },
        };
        line.push(TERMINATOR);
        assert(line@ =~= line_spec(key@, value@));
        let offset = self.data.len();
        let ghost r: Record = (key@, value@);
        let mut i: usize = 0;
        while i < line.len()
            invariant
                0 <= i <= line@.len(),
                self.data@ == old(self).data@ + line@.subrange(0, i as int),
                self.index == old(self).index,
                self.log == old(self).log,
                self.file_path == old(self).file_path,
                old(self).wf(),
            decreases line@.len() - i,
        {
            self.data.push(line[i]);
            i = i + 1;
            assert(self.data@ =~= old(self).data@ + line@.subrange(0, i as int));
        }
        assert(line@.subrange(0, line@.len() as int) =~= line@);
        let k: Vec<u8> = copy_range(key, 0, key.len());
        assert(k@ =~= key@);
        self.index.insert(k, offset);
        self.size = self.data.len();
        proof {
            lemma_serialize_push(self.log@, r);
            assert(self.log@.push(r).drop_last() =~= self.log@);
            let nl = self.log@.push(r);
            assert forall|j: int| 0 <= j < nl.len() implies valid_record(#[trigger] nl[j].0, nl[j].1) by {
                if j < self.log@.len() {
                    assert(nl[j] == self.log@[j]);
                }
            }
            self.log = Ghost(nl);
            assert(self.data@ == serialize(nl));
            assert(nl.drop_last() == old(self).log@);
            assert(nl.last() == r);
            assert(offset == serialize(old(self).log@).len());
            assert(index_of(nl) == index_of(old(self).log@).insert(key@, offset));
            assert(self.index@ == index_of(nl));
            assert(valid_log(nl));
        }
        Ok(line)
    }

    /// Appends the record `key,value` (an empty value marks the key deleted)
    /// and returns the bytes to append to the segment's file.
    pub fn save_data(&mut self, key: &String, value: &String) -> (r: Result<Vec<u8>, StoreError>)
        requires
            old(self).wf(),
        ensures
            final(self).wf(),
            final(self).path() == old(self).path(),
            match r {
                Ok(line) => {
                    &&& valid_record(text_bytes(key@), text_bytes(value@))
                    &&& line@ == line_spec(text_bytes(key@), text_bytes(value@))
                    &&& final(self).log() == old(self).log().push((text_bytes(key@), text_bytes(value@)))
                    &&& final(self).bytes() == old(self).bytes() + line@
                },
                Err(e) => {
                    &&& !valid_record(text_bytes(key@), text_bytes(value@))
                    &&& e == if has_byte(text_bytes(key@), SEPARATOR) || has_byte(text_bytes(key@), TERMINATOR) {
                        StoreError::InvalidKey
                    } else {
                        StoreError::InvalidValue
                    }
                    &&& *final(self) == *old(self)
                },
            },
    {
        let k = bytes_of(key);
        let v = bytes_of(value);
        self.append_record(k.as_slice(), v.as_slice())
    }
}

} // verus!
