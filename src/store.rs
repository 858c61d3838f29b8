//! The store: one active segment that takes every write, sealed segments
//! ordered by sequence number, rotation of the active segment past a size
//! threshold, and compaction of the sealed segments.
use vstd::prelude::*;

use crate::codec::{copy_range, encode, has_byte, line_spec, valid_record, SEPARATOR, TERMINATOR};
use crate::log::{log_map, parse, serialize, valid_log, Record};
use crate::naming::{
    active_name, current_name, is_segment_file, lemma_names_distinct, names_segment, parse_sequence,
    sealed_name, segment_name, sequence_of,
};
use crate::segment::{bytes_of, lookup_of, lookup_result, records_view, text_bytes, Lookup, Segment};
use crate::table::KeyTable;
use crate::StoreError;

verus! {

/// Size in bytes past which the active segment is sealed before a write.
pub const SEGMENT_THRESHOLD: usize = 256;

/// A change that the store's files must undergo to match the store.
#[derive(Debug, PartialEq, Eq)]
pub enum FileOp {
    /// Append `bytes` to `file`, creating it if absent.
    Append { file: String, bytes: Vec<u8> },
    /// Rename `from` to `to`.
    Rename { from: String, to: String },
    /// Create `file` with `bytes` as its contents.
    Write { file: String, bytes: Vec<u8> },
    /// Delete `file`.
    Remove { file: String },
}

/// `op` appends `bytes` to `file`.
pub open spec fn is_append(op: FileOp, file: Seq<char>, bytes: Seq<u8>) -> bool {
    op matches FileOp::Append { file: f, bytes: b } && f@ == file && b@ == bytes
}

/// `op` renames `from` to `to`.
pub open spec fn is_rename(op: FileOp, from: Seq<char>, to: Seq<char>) -> bool {
    op matches FileOp::Rename { from: f, to: t } && f@ == from && t@ == to
}

/// `op` creates `file` holding `bytes`.
pub open spec fn is_write(op: FileOp, file: Seq<char>, bytes: Seq<u8>) -> bool {
    op matches FileOp::Write { file: f, bytes: b } && f@ == file && b@ == bytes
}

/// `op` deletes `file`.
pub open spec fn is_remove(op: FileOp, file: Seq<char>) -> bool {
    op matches FileOp::Remove { file: f } && f@ == file
}

/// The value each key has last across logs given oldest first.
pub open spec fn merge_logs(logs: Seq<Seq<Record>>) -> Map<Seq<u8>, Seq<u8>>
    decreases logs.len(),
{
    if logs.len() == 0 {
        Map::empty()
    } else {
        merge_logs(logs.drop_last()).union_prefer_right(log_map(logs.last()))
    }
}

/// The keys whose value is not a deletion, with their values.
pub open spec fn live(m: Map<Seq<u8>, Seq<u8>>) -> Map<Seq<u8>, Seq<u8>> {
    Map::new(|k: Seq<u8>| m.contains_key(k) && m[k].len() > 0, |k: Seq<u8>| m[k])
}

/// The number of records in all the logs.
pub open spec fn record_count(logs: Seq<Seq<Record>>) -> nat
    decreases logs.len(),
{
    if logs.len() == 0 {
        0
    } else {
        record_count(logs.drop_last()) + logs.last().len()
    }
}

/// The log was at or below the threshold before its last record.
pub open spec fn filled_in_turn(log: Seq<Record>) -> bool {
    log.len() > 0 ==> serialize(log.drop_last()).len() <= SEGMENT_THRESHOLD
}

/// No record of the logs is a deletion.
pub open spec fn no_deletions(logs: Seq<Seq<Record>>) -> bool {
    forall|x: int, a: int| 0 <= x < logs.len() && 0 <= a < logs[x].len() ==> (#[trigger] logs[x][a]).1.len() > 0
}

/// A table of byte vectors holds the keys and values of `m`.
pub open spec fn same_values(t: Map<Seq<u8>, Vec<u8>>, m: Map<Seq<u8>, Seq<u8>>) -> bool {
    &&& t.dom() == m.dom()
    &&& forall|k: Seq<u8>| #[trigger] t.contains_key(k) ==> t[k]@ == m[k]
}

/// Every record of every log can stand as one line.
pub open spec fn valid_logs(logs: Seq<Seq<Record>>) -> bool {
    forall|i: int| 0 <= i < logs.len() ==> valid_log(#[trigger] logs[i])
}

/// Every entry of `m` can stand as one line.
pub open spec fn valid_map(m: Map<Seq<u8>, Seq<u8>>) -> bool {
    forall|k: Seq<u8>| #[trigger] m.contains_key(k) ==> valid_record(k, m[k])
}

/// The last values of a valid log can stand as lines.
pub proof fn lemma_log_map_valid(log: Seq<Record>)
    requires
        valid_log(log),
    ensures
        valid_map(log_map(log)),
    decreases log.len(),
{
    if log.len() > 0 {
        let d = log.drop_last();
        assert(valid_log(d)) by {
            assert forall|i: int| 0 <= i < d.len() implies valid_record(#[trigger] d[i].0, d[i].1) by {
                assert(d[i] == log[i]);
            }
        }
        lemma_log_map_valid(d);
        assert(valid_record(log[log.len() - 1].0, log[log.len() - 1].1));
    }
}

/// The last values across valid logs can stand as lines.
pub proof fn lemma_merge_valid(logs: Seq<Seq<Record>>)
    requires
        valid_logs(logs),
    ensures
        valid_map(merge_logs(logs)),
    decreases logs.len(),
{
    if logs.len() > 0 {
        let d = logs.drop_last();
        assert(valid_logs(d)) by {
            assert forall|i: int| 0 <= i < d.len() implies valid_log(#[trigger] d[i]) by {
                assert(d[i] == logs[i]);
            }
        }
        lemma_merge_valid(d);
        lemma_log_map_valid(logs[logs.len() - 1]);
    }
}

/// Dropping deleted keys after a write: a deletion drops the key, any other
/// value keeps it with that value.
pub proof fn lemma_live_insert(m: Map<Seq<u8>, Seq<u8>>, k: Seq<u8>, v: Seq<u8>)
    ensures
        live(m.insert(k, v)) == if v.len() == 0 {
            live(m).remove(k)
        } else {
            live(m).insert(k, v)
        },
{
    if v.len() == 0 {
        assert(live(m.insert(k, v)) =~= live(m).remove(k));
    } else {
        assert(live(m.insert(k, v)) =~= live(m).insert(k, v));
    }
}

/// Writes the entries of `t` into fresh segments named from sequence
/// number `first` on, starting a new segment whenever the current one has
/// grown past the threshold. Fails where the sequence numbers run out.
fn write_compacted(prefix: &String, t: &KeyTable<Vec<u8>>, first: u64) -> (r: Result<
    (Vec<Segment>, Vec<u64>),
    StoreError,
>)
    requires
        t.wf(),
        forall|k: Seq<u8>| #[trigger] t@.contains_key(k) ==> valid_record(k, t@[k]@) && t@[k]@.len() > 0,
    ensures
        match r {
            Ok((segs, seqs)) => {
                &&& segs@.len() == seqs@.len()
                &&& segs@.len() >= 1
                &&& forall|x: int| 0 <= x < segs@.len() ==> {
                    &&& (#[trigger] segs@[x]).wf()
                    &&& segs@[x].path() == segment_name(prefix@, seqs@[x] as nat)
                }
                &&& forall|x: int| 0 <= x < seqs@.len() ==> first <= #[trigger] seqs@[x]
                &&& forall|x: int, y: int| 0 <= x < y < seqs@.len() ==> seqs@[x] < seqs@[y]
                &&& same_values(t@, merge_logs(segs@.map_values(|s: Segment| s.log())))
                &&& record_count(segs@.map_values(|s: Segment| s.log())) == t.key_seq().len()
                &&& no_deletions(segs@.map_values(|s: Segment| s.log()))
                &&& forall|x: int| 0 <= x < seqs@.len() ==> #[trigger] seqs@[x] == first + x
                &&& forall|x: int| 0 <= x < segs@.len() - 1 ==> (#[trigger] segs@[x]).bytes().len() > SEGMENT_THRESHOLD
                &&& forall|x: int| 0 <= x < segs@.len() ==> filled_in_turn(#[trigger] segs@[x].log())
            },
            Err(e) => e == StoreError::SequenceExhausted && first as int + t.key_seq().len() > u64::MAX,
        },
{
    let n = t.len();
    proof {
        t.lemma_key_seq();
    }
    let mut segs: Vec<Segment> = Vec::new();
    let mut seqs: Vec<u64> = Vec::new();
    let mut seq: u64 = first;
    let mut cur = Segment::empty(sealed_name(prefix, seq));
    let mut i: usize = 0;
    proof {
        assert(segs@.map_values(|s: Segment| s.log()).push(cur.log()).drop_last() =~= Seq::<Seq<Record>>::empty());
        assert(log_map(cur.log()) == Map::<Seq<u8>, Seq<u8>>::empty());
        assert(merge_logs(Seq::<Seq<Record>>::empty()) == Map::<Seq<u8>, Seq<u8>>::empty());
        assert(merge_logs(segs@.map_values(|s: Segment| s.log()).push(cur.log())) =~= Map::<Seq<u8>, Seq<u8>>::empty());
        assert(record_count(Seq::<Seq<Record>>::empty()) == 0);
    }
    while i < n
        invariant
            t.wf(),
            n == t.key_seq().len(),
            forall|k: Seq<u8>| #[trigger] t@.contains_key(k) ==> valid_record(k, t@[k]@) && t@[k]@.len() > 0,
            record_count(segs@.map_values(|s: Segment| s.log()).push(cur.log())) == i,
            no_deletions(segs@.map_values(|s: Segment| s.log()).push(cur.log())),
            forall|a: int, b: int| 0 <= a < b < t.key_seq().len() ==> t.key_seq()[a] != t.key_seq()[b],
            forall|a: int| 0 <= a < t.key_seq().len() ==> t@.contains_key(#[trigger] t.key_seq()[a]),
            0 <= i <= n,
            segs@.len() == seqs@.len(),
            forall|x: int| 0 <= x < segs@.len() ==> {
                &&& (#[trigger] segs@[x]).wf()
                &&& segs@[x].path() == segment_name(prefix@, seqs@[x] as nat)
            },
            forall|x: int| 0 <= x < seqs@.len() ==> first <= #[trigger] seqs@[x] < seq,
            forall|x: int, y: int| 0 <= x < y < seqs@.len() ==> seqs@[x] < seqs@[y],
            first <= seq,
            seq == first + seqs@.len(),
            forall|x: int| 0 <= x < seqs@.len() ==> #[trigger] seqs@[x] == first + x,
            forall|x: int| 0 <= x < segs@.len() ==> (#[trigger] segs@[x]).bytes().len() > SEGMENT_THRESHOLD,
            forall|x: int| 0 <= x < segs@.len() ==> filled_in_turn(#[trigger] segs@[x].log()),
            filled_in_turn(cur.log()),
            cur.wf(),
            cur.path() == segment_name(prefix@, seq as nat),
            seq as int - first as int + (if cur.log().len() > 0 { 1int } else { 0int }) <= i,
            ({
                let w = merge_logs(segs@.map_values(|s: Segment| s.log()).push(cur.log()));
                &&& forall|k: Seq<u8>| #[trigger] w.contains_key(k) <==> exists|a: int| 0 <= a < i && t.key_seq()[a] == k
                &&& forall|k: Seq<u8>| #[trigger] w.contains_key(k) ==> w[k] == t@[k]@
            }),
        decreases n - i,
    {
        if cur.size() > SEGMENT_THRESHOLD {
            proof {
                cur.lemma_wf();
                if cur.log().len() == 0 {
                    assert(serialize(cur.log()) == Seq::<u8>::empty());
                }
            }
            if seq == u64::MAX {
                return Err(StoreError::SequenceExhausted);
            }
            let ghost before = segs@.map_values(|s: Segment| s.log()).push(cur.log());
            let mut full = Segment::empty(sealed_name(prefix, seq + 1));
            std::mem::swap(&mut full, &mut cur);
            let ghost old_seqs = seqs@;
            let ghost old_segs = segs@;
            segs.push(full);
            seqs.push(seq);
            seq = seq + 1;
            proof {
                full.lemma_wf();
                assert forall|x: int| 0 <= x < segs@.len() implies (#[trigger] segs@[x]).bytes().len() > SEGMENT_THRESHOLD
                    && filled_in_turn(segs@[x].log()) by {
                    if x < old_segs.len() {
                        assert(segs@[x] == old_segs[x]);
                    }
                }
                assert forall|x: int| 0 <= x < seqs@.len() implies #[trigger] seqs@[x] == first + x by {
                    if x < old_seqs.len() {
                        assert(seqs@[x] == old_seqs[x]);
                    }
                }
                assert forall|x: int, y: int| 0 <= x < y < seqs@.len() implies seqs@[x] < seqs@[y] by {
                    if y < old_seqs.len() {
                        assert(old_seqs[x] < old_seqs[y]);
                    } else {
                        assert(seqs@[x] == old_seqs[x]);
                        assert(first <= old_seqs[x] < seq - 1);
                    }
                }
                let after = segs@.map_values(|s: Segment| s.log());
                assert(after =~= before);
                assert(after.push(cur.log()).drop_last() =~= after);
                assert(log_map(cur.log()) == Map::<Seq<u8>, Seq<u8>>::empty());
                assert(merge_logs(after.push(cur.log())) =~= merge_logs(after));
                assert(record_count(after.push(cur.log())) == record_count(after));
                assert(no_deletions(after.push(cur.log()))) by {
                    assert forall|x: int, a: int| 0 <= x < after.push(cur.log()).len() && 0 <= a < after.push(cur.log())[x].len()
                        implies (#[trigger] after.push(cur.log())[x][a]).1.len() > 0 by {
                        assert(after.push(cur.log())[x] == before[x]);
                    }
                }
            }
        }
        let key = t.key_at(i);
        let value = t.value_at(i);
        let ghost before = segs@.map_values(|s: Segment| s.log());
        let ghost w0 = merge_logs(before.push(cur.log()));
        let ghost old_cur = cur.log();
        proof {
            cur.lemma_wf();
        }
        assert(valid_record(key@, value@));
        let _ = cur.append_record(key.as_slice(), value.as_slice());
        proof {
            let after = before.push(cur.log());
            assert(after.drop_last() =~= before);
            assert(before.push(old_cur).drop_last() =~= before);
            assert(cur.log().drop_last() =~= old_cur);
            let w = merge_logs(after);
            assert(w =~= w0.insert(key@, value@));
            assert(filled_in_turn(cur.log()));
            assert(record_count(after) == record_count(before) + cur.log().len());
            assert(record_count(before.push(old_cur)) == record_count(before) + old_cur.len());
            assert(no_deletions(after)) by {
                assert forall|x: int, a: int| 0 <= x < after.len() && 0 <= a < after[x].len()
                    implies (#[trigger] after[x][a]).1.len() > 0 by {
                    if x < before.len() {
                        assert(after[x] == before.push(old_cur)[x]);
                    } else if a < old_cur.len() {
                        assert(after[x][a] == before.push(old_cur)[x][a]);
                    }
                }
            }
            assert forall|k: Seq<u8>| #[trigger] w.contains_key(k) implies exists|a: int|
                0 <= a < i + 1 && t.key_seq()[a] == k by {
                if k != key@ {
                    assert(w0.contains_key(k));
                }
            }
            assert forall|k: Seq<u8>| (exists|a: int| 0 <= a < i + 1 && t.key_seq()[a] == k) implies #[trigger] w.contains_key(k) by {
                let a = choose|a: int| 0 <= a < i + 1 && t.key_seq()[a] == k;
                if a < i {
                    assert(w0.contains_key(k));
                }
            }
            assert forall|k: Seq<u8>| #[trigger] w.contains_key(k) implies w[k] == t@[k]@ by {
                if k != key@ {
                    assert(w0.contains_key(k));
                }
            }
        }
        i = i + 1;
    }
    let ghost before = segs@.map_values(|s: Segment| s.log()).push(cur.log());
    let ghost old_seqs = seqs@;
    let ghost old_segs = segs@;
    segs.push(cur);
    seqs.push(seq);
    proof {
        assert forall|x: int, y: int| 0 <= x < y < seqs@.len() implies seqs@[x] < seqs@[y] by {
            if y < old_seqs.len() {
                assert(old_seqs[x] < old_seqs[y]);
            } else {
                assert(seqs@[x] == old_seqs[x]);
                assert(first <= old_seqs[x] < seq);
            }
        }
        assert forall|x: int| 0 <= x < segs@.len() implies {
            &&& (#[trigger] segs@[x]).wf()
            &&& segs@[x].path() == segment_name(prefix@, seqs@[x] as nat)
            &&& filled_in_turn(segs@[x].log())
            &&& seqs@[x] == first + x
            &&& (x < segs@.len() - 1 ==> segs@[x].bytes().len() > SEGMENT_THRESHOLD)
        } by {
            if x < old_segs.len() {
                assert(segs@[x] == old_segs[x]);
                assert(seqs@[x] == old_seqs[x]);
            }
        }
        let all = segs@.map_values(|s: Segment| s.log());
        assert(all =~= before);
        let w = merge_logs(all);
        assert forall|k: Seq<u8>| #[trigger] t@.contains_key(k) implies w.contains_key(k) by {
            let a = choose|a: int| 0 <= a < t.key_seq().len() && t.key_seq()[a] == k;
        }
        assert(t@.dom() =~= w.dom());
    }
    Ok((segs, seqs))
}

/// One of the first `n` of `files` is named `path` and holds the bytes of
/// `log`.
pub open spec fn from_files(files: Seq<(String, Vec<u8>)>, n: int, path: Seq<char>, log: Seq<Record>) -> bool {
    exists|j: int| 0 <= j < n && files[j].0@ == path && parse(files[j].1@) == Some(log)
}

/// File `j` is one of the store's and does not hold a sequence of records.
pub open spec fn corrupt_file(prefix: Seq<char>, files: Seq<(String, Vec<u8>)>, j: int) -> bool {
    names_segment(prefix, files[j].0@) && parse(files[j].1@) is None
}

/// File `j` is one of the store's, is not the active one, and is not named
/// `{prefix}.` and a zero-padded sequence number, or another file has its
/// name.
pub open spec fn misnamed_file(prefix: Seq<char>, files: Seq<(String, Vec<u8>)>, j: int) -> bool {
    let name = files[j].0@;
    &&& names_segment(prefix, name)
    &&& name != current_name(prefix)
    &&& (sequence_of(prefix, name) is None || segment_name(prefix, sequence_of(prefix, name)->Some_0) != name
        || exists|j2: int| 0 <= j2 < files.len() && j2 != j && files[j2].0@ == name)
}

/// The store holds a sealed segment named `path` with the records `log`.
pub open spec fn has_sealed(env: Environment, path: Seq<char>, log: Seq<Record>) -> bool {
    exists|i: int| 0 <= i < env.sealed_logs().len() && env.sealed_paths()[i] == path && env.sealed_logs()[i] == log
}

/// A store: sealed segments, oldest first, and the active segment.
pub struct Environment {
    data_path: String,
    file_prefix: String,
    segments: Vec<Segment>,
    sequences: Vec<u64>,
    last_sequence: u64,
    write_segment: Segment,
}

impl Environment {
    /// The records of each sealed segment, oldest segment first.
    pub closed spec fn sealed_logs(&self) -> Seq<Seq<Record>> {
        self.segments@.map_values(|s: Segment| s.log())
    }

    /// The file names of the sealed segments, oldest first.
    pub closed spec fn sealed_paths(&self) -> Seq<Seq<char>> {
        self.segments@.map_values(|s: Segment| s.path())
    }

    /// The bytes of the sealed segments, oldest first.
    pub closed spec fn sealed_bytes(&self) -> Seq<Seq<u8>> {
        self.segments@.map_values(|s: Segment| s.bytes())
    }

    /// The sequence numbers of the sealed segments, oldest first.
    pub closed spec fn sequences(&self) -> Seq<u64> {
        self.sequences@
    }

    /// The records of the active segment.
    pub closed spec fn active_log(&self) -> Seq<Record> {
        self.write_segment.log()
    }

    /// The size counter of the active segment.
    pub closed spec fn active_size(&self) -> nat {
        self.write_segment.size_spec()
    }

    /// The prefix of the store's file names.
    pub closed spec fn prefix(&self) -> Seq<char> {
        self.file_prefix@
    }

    /// The directory of the store's files.
    pub closed spec fn dir(&self) -> Seq<char> {
        self.data_path@
    }

    /// The greatest sequence number given out so far (0 before the first).
    pub closed spec fn last_sequence(&self) -> u64 {
        self.last_sequence
    }

    /// The value each key has last in the sealed segments.
    pub open spec fn sealed_map(&self) -> Map<Seq<u8>, Seq<u8>> {
        merge_logs(self.sealed_logs())
    }

    /// The value each key has last in the active segment.
    pub open spec fn active_map(&self) -> Map<Seq<u8>, Seq<u8>> {
        log_map(self.active_log())
    }

    /// The value each key has last in the store: the active segment's where
    /// it has one, else the sealed segments'.
    pub open spec fn contents(&self) -> Map<Seq<u8>, Seq<u8>> {
        self.sealed_map().union_prefer_right(self.active_map())
    }

    /// Segments well formed, sealed ones named by strictly increasing
    /// sequence numbers not above the last one given out, the active one
    /// named `{prefix}.current`.
    pub closed spec fn wf(&self) -> bool {
        &&& self.segments@.len() == self.sequences@.len()
        &&& forall|i: int| 0 <= i < self.segments@.len() ==> {
            &&& (#[trigger] self.segments@[i]).wf()
            &&& self.segments@[i].path() == segment_name(self.file_prefix@, self.sequences@[i] as nat)
            &&& self.sequences@[i] <= self.last_sequence
        }
        &&& forall|i: int, j: int| 0 <= i < j < self.sequences@.len() ==> self.sequences@[i] < self.sequences@[j]
        &&& self.write_segment.wf()
        &&& self.write_segment.path() == current_name(self.file_prefix@)
        &&& self.last_is_greatest()
    }

    /// The last sequence number given out is that of the newest sealed
    /// segment, or 0 where there is none.
    pub open spec fn last_is_greatest(&self) -> bool {
        if self.sequences().len() == 0 {
            self.last_sequence() == 0
        } else {
            self.last_sequence() == self.sequences().last()
        }
    }

    /// What well-formedness says of the sealed segments: each is named by
    /// its sequence number, the numbers strictly increase oldest to newest,
    /// none exceeds the last one given out; the active segment is named
    /// `{prefix}.current`.
    pub proof fn lemma_wf(&self)
        requires
            self.wf(),
        ensures
            self.sealed_paths().len() == self.sequences().len(),
            self.sealed_logs().len() == self.sequences().len(),
            self.sealed_bytes().len() == self.sequences().len(),
            forall|i: int| 0 <= i < self.sequences().len() ==> #[trigger] self.sealed_paths()[i]
                == segment_name(self.prefix(), self.sequences()[i] as nat),
            forall|i: int, j: int| 0 <= i < j < self.sequences().len() ==> self.sequences()[i]
                < self.sequences()[j],
            forall|i: int| 0 <= i < self.sequences().len() ==> #[trigger] self.sequences()[i]
                <= self.last_sequence(),
            self.last_is_greatest(),
    {
        assert forall|i: int| 0 <= i < self.sequences().len() implies #[trigger] self.sealed_paths()[i]
            == segment_name(self.prefix(), self.sequences()[i] as nat) by {
            assert(self.segments@[i].wf());
        }
        assert forall|i: int| 0 <= i < self.sequences().len() implies #[trigger] self.sequences()[i]
            <= self.last_sequence() by {
            assert(self.segments@[i].wf());
        }
    }

    /// No two sealed segments share a name, and none is named like the
    /// active segment.
    pub proof fn lemma_sealed_names_distinct(&self)
        requires
            self.wf(),
        ensures
            forall|i: int, j: int| 0 <= i < j < self.sealed_paths().len() ==> self.sealed_paths()[i]
                != self.sealed_paths()[j],
            forall|i: int| 0 <= i < self.sealed_paths().len() ==> #[trigger] self.sealed_paths()[i]
                != current_name(self.prefix()),
    {
        self.lemma_wf();
        assert forall|i: int, j: int| 0 <= i < j < self.sealed_paths().len() implies self.sealed_paths()[i]
            != self.sealed_paths()[j] by {
            lemma_names_distinct(self.prefix(), self.sequences()[i] as nat, self.sequences()[j] as nat);
        }
        assert forall|i: int| 0 <= i < self.sealed_paths().len() implies #[trigger] self.sealed_paths()[i]
            != current_name(self.prefix()) by {
            lemma_names_distinct(self.prefix(), self.sequences()[i] as nat, 0);
        }
    }

    /// The name `next_file_name` gives is that of no sealed segment and not
    /// that of the active one.
    pub proof fn lemma_next_name_fresh(&self)
        requires
            self.wf(),
            self.last_sequence() < u64::MAX,
        ensures
            forall|i: int| 0 <= i < self.sealed_paths().len() ==> #[trigger] self.sealed_paths()[i]
                != segment_name(self.prefix(), self.last_sequence() as nat + 1),
            segment_name(self.prefix(), self.last_sequence() as nat + 1) != current_name(self.prefix()),
    {
        self.lemma_wf();
        let n = self.last_sequence() as nat + 1;
        assert forall|i: int| 0 <= i < self.sealed_paths().len() implies #[trigger] self.sealed_paths()[i]
            != segment_name(self.prefix(), n) by {
            lemma_names_distinct(self.prefix(), self.sequences()[i] as nat, n);
        }
        lemma_names_distinct(self.prefix(), n, n);
    }

    /// The number of sealed segments.
    pub fn sealed_count(&self) -> (r: usize)
        ensures
            r == self.sealed_logs().len(),
    {
        self.segments.len()
    }

    /// The sealed segment at position `i`, oldest first.
    pub fn sealed_segment(&self, i: usize) -> (r: &Segment)
        requires
            self.wf(),
            i < self.sealed_logs().len(),
        ensures
            r.wf(),
            r.log() == self.sealed_logs()[i as int],
            r.path() == self.sealed_paths()[i as int],
            r.bytes() == self.sealed_bytes()[i as int],
    {
        &self.segments[i]
    }

    /// The active segment.
    pub fn active_segment(&self) -> (r: &Segment)
        requires
            self.wf(),
        ensures
            r.wf(),
            r.log() == self.active_log(),
            r.path() == current_name(self.prefix()),
    {
        &self.write_segment
    }

    /// The directory of the store's files.
    pub fn data_path(&self) -> (r: &String)
        ensures
            r@ == self.dir(),
    {
        &self.data_path
    }

    /// A store with no sealed segment and an empty active segment.
    pub fn empty(data_path: &String, prefix: &String) -> (r: Environment)
        ensures
            r.wf(),
            r.prefix() == prefix@,
            r.dir() == data_path@,
            r.sealed_logs() == Seq::<Seq<Record>>::empty(),
            r.active_log() == Seq::<Record>::empty(),
            r.last_sequence() == 0,
            r.sequences().len() == 0,
    {
        let r = Environment {
            data_path: data_path.clone(),
            file_prefix: prefix.clone(),
            segments: Vec::new(),
            sequences: Vec::new(),
            last_sequence: 0,
            write_segment: Environment::new_write_segment(prefix),
        };
        assert(r.sealed_logs() =~= Seq::<Seq<Record>>::empty());
        r
    }

    /// Opens a store from the files of its directory, each given by name
    /// and contents. Files whose names do not begin with `prefix` and a dot
    /// are left alone; `{prefix}.current` becomes the active segment (an
    /// empty one where there is no such file); every other file becomes a
    /// sealed segment, ordered by its sequence number. Fails with
    /// `InvalidFileName` on a name that is not `{prefix}.` and a sequence
    /// number zero-padded to five digits, or that repeats one, and with
    /// `Corruption` on contents that are not a sequence of records.
    pub fn new(data_path: &String, prefix: &String, files: &Vec<(String, Vec<u8>)>) -> (r: Result<Environment, StoreError>)
        ensures
            match r {
                Ok(env) => {
                    &&& env.wf()
                    &&& env.prefix() == prefix@
                    &&& env.dir() == data_path@
                    &&& env.last_is_greatest()
                    &&& forall|i: int| 0 <= i < env.sealed_logs().len() ==> from_files(
                        files@, files@.len() as int, #[trigger] env.sealed_paths()[i], env.sealed_logs()[i])
                    &&& env.active_log() == Seq::<Record>::empty() || from_files(
                        files@, files@.len() as int, current_name(prefix@), env.active_log())
                    &&& forall|j: int| 0 <= j < files@.len() && names_segment(prefix@, #[trigger] files@[j].0@)
                        && files@[j].0@ != current_name(prefix@) ==> has_sealed(
                        env, files@[j].0@, parse(files@[j].1@)->Some_0)
                    &&& (exists|j: int| 0 <= j < files@.len() && #[trigger] files@[j].0@ == current_name(prefix@))
                        ==> from_files(files@, files@.len() as int, current_name(prefix@), env.active_log())
                },
                Err(e) => {
                    &&& e == StoreError::Corruption ==> exists|j: int|
                        0 <= j < files@.len() && #[trigger] corrupt_file(prefix@, files@, j)
                    &&& e == StoreError::InvalidFileName ==> exists|j: int|
                        0 <= j < files@.len() && #[trigger] misnamed_file(prefix@, files@, j)
                    &&& e == StoreError::Corruption || e == StoreError::InvalidFileName
                },
            },
    {
        let ghost orig = files@;
        let mut k: usize = 0;
        let mut env = Environment::empty(data_path, prefix);
        let current = active_name(prefix);
        assert(names_segment(prefix@, current_name(prefix@))) by {
            assert(current_name(prefix@).subrange(0, prefix@.len() as int) =~= prefix@);
        }
        while k < files.len()
            invariant
                env.wf(),
                env.prefix() == prefix@,
                env.dir() == data_path@,
                current@ == current_name(prefix@),
                names_segment(prefix@, current_name(prefix@)),
                orig == files@,
                0 <= k <= orig.len(),
                env.last_is_greatest(),
                forall|i: int| 0 <= i < env.sealed_logs().len() ==> from_files(
                    orig, k as int, #[trigger] env.sealed_paths()[i], env.sealed_logs()[i]),
                env.active_log() == Seq::<Record>::empty() || from_files(
                    orig, k as int, current_name(prefix@), env.active_log()),
                forall|j: int| 0 <= j < k && names_segment(prefix@, #[trigger] orig[j].0@)
                    && orig[j].0@ != current_name(prefix@) ==> has_sealed(env, orig[j].0@, parse(orig[j].1@)->Some_0),
                (exists|j: int| 0 <= j < k && #[trigger] orig[j].0@ == current_name(prefix@))
                    ==> from_files(orig, k as int, current_name(prefix@), env.active_log()),
            decreases orig.len() - k,
        {
            let ghost at = k as int;
            let ghost env0 = env;
            assert((exists|j: int| 0 <= j < at && #[trigger] orig[j].0@ == current_name(prefix@))
                ==> from_files(orig, at, current_name(prefix@), env0.active_log()));
            assert(forall|i: int| 0 <= i < env0.sealed_logs().len() ==> from_files(
                orig, at, #[trigger] env0.sealed_paths()[i], env0.sealed_logs()[i]));
            let name = files[k].0.clone();
            let data = copy_range(files[k].1.as_slice(), 0, files[k].1.len());
            assert(data@ =~= orig[at].1@);
            k = k + 1;
            if is_segment_file(prefix, &name) {
                if name == current {
                    match Segment::new(name, data) {
                        Ok(seg) => {
                            let ghost before = env;
                            env.write_segment = seg;
                            assert(env.sealed_paths() == before.sealed_paths());
                            assert(env.sealed_logs() == before.sealed_logs());
                            assert forall|j: int| 0 <= j < k && names_segment(prefix@, #[trigger] orig[j].0@)
                                && orig[j].0@ != current_name(prefix@) implies has_sealed(env, orig[j].0@, parse(orig[j].1@)->Some_0) by {
                                if j < at {
                                    assert(has_sealed(before, orig[j].0@, parse(orig[j].1@)->Some_0));
                                    let w = choose|w: int| 0 <= w < before.sealed_logs().len() && before.sealed_paths()[w] == orig[j].0@
                                        && before.sealed_logs()[w] == parse(orig[j].1@)->Some_0;
                                    assert(env.sealed_paths()[w] == orig[j].0@);
                                }
                            }
                            assert(from_files(orig, k as int, current_name(prefix@), env.active_log()));
                        },
                        Err(e) => {
                            assert(corrupt_file(prefix@, orig, at));
                            return Err(e);
                        },
                    }
                } else {
                    let seq = match parse_sequence(prefix, &name) {
                        Some(n) => n,
                        None => {
                            assert(misnamed_file(prefix@, orig, at));
                            return Err(StoreError::InvalidFileName);
                        },
                    };
                    let canonical = sealed_name(prefix, seq);
                    if canonical != name {
                        assert(misnamed_file(prefix@, orig, at));
                        return Err(StoreError::InvalidFileName);
                    }
                    let seg = match Segment::new(name, data) {
                        Ok(seg) => seg,
                        Err(e) => {
                            assert(corrupt_file(prefix@, orig, at));
                            return Err(e);
                        },
                    };
                    let ghost before = env;
                    let ghost seg_log = seg.log();
                    let ins = match env.insert_sealed(seq, seg) {
                        Ok(ins) => ins,
                        Err(e) => {
                            proof {
                                env.lemma_wf();
                                let i = choose|i: int| 0 <= i < env.sequences().len() && env.sequences()[i] == seq;
                                assert(env.sealed_paths()[i] == orig[at].0@);
                                assert(from_files(orig, at, env.sealed_paths()[i], env.sealed_logs()[i]));
                                let j2 = choose|j2: int| 0 <= j2 < at && orig[j2].0@ == env.sealed_paths()[i]
                                    && parse(orig[j2].1@) == Some(env.sealed_logs()[i]);
                                assert(misnamed_file(prefix@, orig, at));
                            }
                            return Err(e);
                        },
                    };
                    proof {
                        assert forall|i: int| 0 <= i < env.sealed_logs().len() implies from_files(
                            orig, k as int, #[trigger] env.sealed_paths()[i], env.sealed_logs()[i]) by {
                            if i < ins {
                                assert(env.sealed_paths()[i] == before.sealed_paths()[i]);
                                assert(env.sealed_logs()[i] == before.sealed_logs()[i]);
                            } else if i > ins {
                                assert(env.sealed_paths()[i] == before.sealed_paths()[i - 1]);
                                assert(env.sealed_logs()[i] == before.sealed_logs()[i - 1]);
                            } else {
                                assert(orig[at].0@ == env.sealed_paths()[i]);
                                assert(parse(orig[at].1@) == Some(seg_log));
                                assert(from_files(orig, k as int, env.sealed_paths()[i], env.sealed_logs()[i]));
                            }
                        }
                        assert forall|j: int| 0 <= j < k && names_segment(prefix@, #[trigger] orig[j].0@)
                            && orig[j].0@ != current_name(prefix@) implies has_sealed(env, orig[j].0@, parse(orig[j].1@)->Some_0) by {
                            if j < at {
                                assert(has_sealed(before, orig[j].0@, parse(orig[j].1@)->Some_0));
                                let w = choose|w: int| 0 <= w < before.sealed_logs().len() && before.sealed_paths()[w] == orig[j].0@
                                    && before.sealed_logs()[w] == parse(orig[j].1@)->Some_0;
                                if w < ins {
                                    assert(env.sealed_paths()[w] == orig[j].0@);
                                    assert(env.sealed_logs()[w] == parse(orig[j].1@)->Some_0);
                                } else {
                                    assert(env.sealed_paths()[w + 1] == orig[j].0@);
                                    assert(env.sealed_logs()[w + 1] == parse(orig[j].1@)->Some_0);
                                }
                            } else {
                                assert(env.sealed_paths()[ins as int] == orig[j].0@);
                                assert(env.sealed_logs()[ins as int] == parse(orig[j].1@)->Some_0);
                            }
                        }
                        assert(env.active_log() == before.active_log());
                    }
                }
            }
            assert(env.active_log() == env0.active_log() || from_files(orig, k as int, current_name(prefix@), env.active_log()));
            assert(orig[at].0@ == current_name(prefix@) ==> from_files(orig, k as int, current_name(prefix@), env.active_log()));
            proof {
                if exists|j: int| 0 <= j < k && #[trigger] orig[j].0@ == current_name(prefix@) {
                    let j = choose|j: int| 0 <= j < k && #[trigger] orig[j].0@ == current_name(prefix@);
                    if j < at {
                        assert(from_files(orig, at, current_name(prefix@), env0.active_log()));
                    }
                }
            }
        }
        Ok(env)
    }

    /// Places a sealed segment among the others by its sequence number and
    /// returns its position. Fails with `InvalidFileName` where that number
    /// is taken.
    fn insert_sealed(&mut self, seq: u64, seg: Segment) -> (r: Result<usize, StoreError>)
        requires
            old(self).wf(),
            seg.wf(),
            seg.path() == segment_name(old(self).prefix(), seq as nat),
            old(self).last_is_greatest(),
        ensures
            final(self).prefix() == old(self).prefix(),
            final(self).dir() == old(self).dir(),
            final(self).active_log() == old(self).active_log(),
            final(self).wf(),
            final(self).last_is_greatest(),
            match r {
                Ok(j) => {
                    &&& j <= old(self).sealed_logs().len()
                    &&& final(self).sealed_logs() == old(self).sealed_logs().insert(j as int, seg.log())
                    &&& final(self).sealed_paths() == old(self).sealed_paths().insert(j as int, seg.path())
                },
                Err(e) => {
                    &&& e == StoreError::InvalidFileName
                    &&& *final(self) == *old(self)
                    &&& exists|i: int| 0 <= i < old(self).sequences().len() && old(self).sequences()[i] == seq
                },
            },
    {
        let mut j: usize = 0;
        while j < self.sequences.len() && self.sequences[j] < seq
            invariant
                self.wf(),
                *self == *old(self),
                0 <= j <= self.sequences@.len(),
                forall|a: int| 0 <= a < j ==> self.sequences@[a] < seq,
            decreases self.sequences@.len() - j,
        {
            j = j + 1;
        }
        if j < self.sequences.len() && self.sequences[j] == seq {
            assert(self.sequences()[j as int] == seq);
            return Err(StoreError::InvalidFileName);
        }
        proof {
            if self.sequences@.len() > 0 && seq > self.last_sequence {
                assert(j == self.sequences@.len()) by {
                    if j < self.sequences@.len() {
                        assert(self.segments@[j as int].wf());
                        assert(self.sequences@[j as int] <= self.last_sequence);
                    }
                }
            }
            if seq < self.last_sequence {
                assert(self.sequences@.len() > 0);
                let n = self.sequences@.len() - 1;
                assert(j <= n) by {
                    if j > n {
                        assert(self.sequences@[n] < seq);
                    }
                }
            }
            if seq == self.last_sequence && self.sequences@.len() > 0 {
                let n = self.sequences@.len() - 1;
                assert(j <= n) by {
                    if j > n {
                        assert(self.sequences@[n] < seq);
                    }
                }
                assert(false) by {
                    if j < n {
                        assert(self.sequences@[j as int] < self.sequences@[n]);
                    }
                }
            }
        }
        let ghost old_segs = self.segments@;
        let ghost old_seqs = self.sequences@;
        let ghost seg_v = seg;
        self.segments.insert(j, seg);
        self.sequences.insert(j, seq);
        if seq > self.last_sequence {
            self.last_sequence = seq;
        }
        proof {
            assert forall|a: int, b: int| 0 <= a < b < self.sequences@.len() implies self.sequences@[a] < self.sequences@[b] by {
                if b < j {
                } else if a > j {
                    assert(old_seqs[a - 1] < old_seqs[b - 1]);
                } else if a == j {
                    assert(old_seqs[b - 1] > seq);
                } else {
                    if b == j {
                    } else {
                        assert(old_seqs[a] < old_seqs[b - 1]);
                    }
                }
            }
            assert forall|a: int| 0 <= a < self.segments@.len() implies {
                &&& (#[trigger] self.segments@[a]).wf()
                &&& self.segments@[a].path() == segment_name(self.file_prefix@, self.sequences@[a] as nat)
                &&& self.sequences@[a] <= self.last_sequence
            } by {
                if a < j {
                    assert(self.segments@[a] == old_segs[a]);
                } else if a > j {
                    assert(self.segments@[a] == old_segs[a - 1]);
                    assert(self.sequences@[a] == old_seqs[a - 1]);
                }
            }
            assert(self.sealed_logs() =~= old(self).sealed_logs().insert(j as int, seg_v.log()));
            assert(self.sealed_paths() =~= old(self).sealed_paths().insert(j as int, seg_v.path()));
        }
        Ok(j)
    }

    /// The name for the next sealed segment: one past the greatest sequence
    /// number given out so far, zero-padded.
    pub fn next_file_name(&self) -> (r: String)
        requires
            self.last_sequence() < u64::MAX,
        ensures
            r@ == segment_name(self.prefix(), self.last_sequence() as nat + 1),
    {
        sealed_name(&self.file_prefix, self.last_sequence + 1)
    }

    /// A new, empty active segment for `file_prefix`.
    pub fn new_write_segment(file_prefix: &String) -> (r: Segment)
        ensures
            r.wf(),
            r.log() == Seq::<Record>::empty(),
            r.path() == current_name(file_prefix@),
    {
        Segment::empty(active_name(file_prefix))
    }

    /// Seals the active segment under the next sequence number and starts a
    /// new, empty one; returns the rename its file must undergo. Fails, and
    /// changes nothing, where no sequence number is left.
    pub fn retire_write_segment(&mut self) -> (r: Result<FileOp, StoreError>)
        requires
            old(self).wf(),
        ensures
            final(self).wf(),
            final(self).prefix() == old(self).prefix(),
            final(self).dir() == old(self).dir(),
            final(self).contents() == old(self).contents(),
            match r {
                Ok(op) => {
                    &&& old(self).last_sequence() < u64::MAX
                    &&& is_rename(
                        op,
                        current_name(old(self).prefix()),
                        segment_name(old(self).prefix(), old(self).last_sequence() as nat + 1),
                    )
                    &&& final(self).sealed_logs() == old(self).sealed_logs().push(old(self).active_log())
                    &&& final(self).sealed_paths() == old(self).sealed_paths().push(
                        segment_name(old(self).prefix(), old(self).last_sequence() as nat + 1),
                    )
                    &&& final(self).sequences() == old(self).sequences().push(
                        (old(self).last_sequence() + 1) as u64,
                    )
                    &&& final(self).active_log() == Seq::<Record>::empty()
                    &&& final(self).last_sequence() == old(self).last_sequence() + 1
                    &&& final(self).last_is_greatest()
                },
                Err(e) => {
                    &&& e == StoreError::SequenceExhausted
                    &&& old(self).last_sequence() == u64::MAX
                    &&& *final(self) == *old(self)
                },
            },
    {
        if self.last_sequence == u64::MAX {
            return Err(StoreError::SequenceExhausted);
        }
        let next = self.next_file_name();
        let seq = self.last_sequence + 1;
        let mut sealed = Environment::new_write_segment(&self.file_prefix);
        std::mem::swap(&mut sealed, &mut self.write_segment);
        let from = sealed.file_path().clone();
        sealed.rename(next.clone());
        let ghost old_logs = self.sealed_logs();
        let ghost old_paths = self.sealed_paths();
        self.segments.push(sealed);
        self.sequences.push(seq);
        self.last_sequence = seq;
        proof {
            assert(self.sealed_logs() =~= old_logs.push(sealed.log()));
            assert(self.sealed_paths() =~= old_paths.push(sealed.path()));
            assert(self.sealed_logs().drop_last() =~= old_logs);
            assert(log_map(Seq::<Record>::empty()) == Map::<Seq<u8>, Seq<u8>>::empty());
            assert(self.contents() =~= old(self).contents());
        }
        Ok(FileOp::Rename { from, to: next })
    }

    /// Looks `key` up: the active segment first, then the sealed segments
    /// newest first; the first segment that holds a record of the key
    /// decides, a deletion included.
    pub fn get_data(&self, key: &String) -> (r: Result<Lookup, StoreError>)
        requires
            self.wf(),
        ensures
            lookup_result(self.contents().get(text_bytes(key@)), r),
    {
        let k = bytes_of(key);
        match self.write_segment.get_record(k.as_slice()) {
            Ok(Some(v)) => {
                return lookup_of(Some(v));
            },
            Ok(None) => {},
            Err(e) => {
                return Err(e);
            },
        }
        let ghost logs = self.sealed_logs();
        assert(logs.subrange(0, logs.len() as int) =~= logs);
        let mut i: usize = self.segments.len();
        while i > 0
            invariant
                self.wf(),
                k@ == text_bytes(key@),
                logs == self.sealed_logs(),
                0 <= i <= logs.len(),
                self.contents().get(k@) == merge_logs(logs.subrange(0, i as int)).get(k@),
            decreases i,
        {
            let ghost sub = logs.subrange(0, i as int);
            assert(sub.drop_last() =~= logs.subrange(0, i - 1));
            assert(sub.last() == self.segments@[i - 1].log());
            match self.segments[i - 1].get_record(k.as_slice()) {
                Ok(Some(v)) => {
                    return lookup_of(Some(v));
                },
                Ok(None) => {},
                Err(e) => {
                    return Err(e);
                },
            }
            i = i - 1;
        }
        lookup_of(None)
    }

    /// Writes `value` for `key`, sealing the active segment first where it
    /// has grown past the threshold. Returns the changes the files must
    /// undergo. An empty value marks the key deleted.
    pub fn set_data(&mut self, key: &String, value: &String) -> (r: Result<Vec<FileOp>, StoreError>)
        requires
            old(self).wf(),
        ensures
            final(self).wf(),
            final(self).prefix() == old(self).prefix(),
            final(self).dir() == old(self).dir(),
            set_effect(*old(self), *final(self), text_bytes(key@), text_bytes(value@), r),
    {
        let k = bytes_of(key);
        let v = bytes_of(value);
        self.write_record(k.as_slice(), v.as_slice())
    }

    /// Marks `key` deleted: writes an empty value for it.
    pub fn delete_data(&mut self, key: &String) -> (r: Result<Vec<FileOp>, StoreError>)
        requires
            old(self).wf(),
        ensures
            final(self).wf(),
            final(self).prefix() == old(self).prefix(),
            final(self).dir() == old(self).dir(),
            set_effect(*old(self), *final(self), text_bytes(key@), Seq::<u8>::empty(), r),
    {
        let k = bytes_of(key);
        let v: Vec<u8> = Vec::new();
        self.write_record(k.as_slice(), v.as_slice())
    }

    /// Replays the sealed segments oldest first into one table: a record
    /// sets its key's value, a deletion removes the key.
    fn merge_sealed(&self) -> (t: KeyTable<Vec<u8>>)
        requires
            self.wf(),
        ensures
            t.wf(),
            same_values(t@, live(self.sealed_map())),
            t.key_seq().len() <= record_count(self.sealed_logs()),
    {
        let ghost logs = self.sealed_logs();
        let mut t: KeyTable<Vec<u8>> = KeyTable::new();
        let mut i: usize = 0;
        proof {
            assert(logs.subrange(0, 0) =~= Seq::<Seq<Record>>::empty());
            assert(merge_logs(Seq::<Seq<Record>>::empty()) == Map::<Seq<u8>, Seq<u8>>::empty());
            assert(live(merge_logs(logs.subrange(0, 0))) =~= Map::<Seq<u8>, Seq<u8>>::empty());
            assert(record_count(Seq::<Seq<Record>>::empty()) == 0);
        }
        while i < self.segments.len()
            invariant
                self.wf(),
                logs == self.sealed_logs(),
                0 <= i <= logs.len(),
                t.wf(),
                same_values(t@, live(merge_logs(logs.subrange(0, i as int)))),
                t.key_seq().len() <= record_count(logs.subrange(0, i as int)),
            decreases logs.len() - i,
        {
            let recs = self.segments[i].records();
            let ghost base = merge_logs(logs.subrange(0, i as int));
            let ghost rv = records_view(recs@);
            let mut j: usize = 0;
            proof {
                assert(rv.subrange(0, 0) =~= Seq::<Record>::empty());
                assert(base.union_prefer_right(log_map(rv.subrange(0, 0))) =~= base);
            }
            while j < recs.len()
                invariant
                    t.wf(),
                    rv == records_view(recs@),
                    0 <= j <= recs@.len(),
                    same_values(t@, live(base.union_prefer_right(log_map(rv.subrange(0, j as int))))),
                    t.key_seq().len() <= record_count(logs.subrange(0, i as int)) + j,
                decreases recs@.len() - j,
            {
                let k = &recs[j].0;
                let v = &recs[j].1;
                let ghost m0 = base.union_prefer_right(log_map(rv.subrange(0, j as int)));
                proof {
                    assert(rv.subrange(0, j + 1).drop_last() =~= rv.subrange(0, j as int));
                    assert(rv[j as int] == (k@, v@));
                    assert(base.union_prefer_right(log_map(rv.subrange(0, j + 1))) =~= m0.insert(k@, v@));
                    lemma_live_insert(m0, k@, v@);
                }
                if v.len() == 0 {
                    t.remove(k.as_slice());
                } else {
                    let kk = copy_range(k.as_slice(), 0, k.len());
                    let vv = copy_range(v.as_slice(), 0, v.len());
                    assert(kk@ =~= k@);
                    assert(vv@ =~= v@);
                    t.insert(kk, vv);
                }
                proof {
                    let m1 = live(base.union_prefer_right(log_map(rv.subrange(0, j + 1))));
                    assert(t@.dom() =~= m1.dom());
                }
                j = j + 1;
            }
            proof {
                assert(rv.subrange(0, j as int) =~= rv);
                let sub = logs.subrange(0, i + 1);
                assert(sub.drop_last() =~= logs.subrange(0, i as int));
                assert(sub.last() == rv);
                assert(record_count(sub) == record_count(logs.subrange(0, i as int)) + rv.len());
            }
            i = i + 1;
        }
        proof {
            assert(logs.subrange(0, logs.len() as int) =~= logs);
        }
        t
    }

    /// Merges the sealed segments into fresh ones that hold each key's last
    /// value once, deleted keys left out, and swaps them in. The active
    /// segment takes no part. Returns the file changes: the new files are
    /// written before any old one is removed. Fails, changing nothing, only
    /// where the sequence numbers run out.
    pub fn compact_segments(&mut self) -> (r: Result<Vec<FileOp>, StoreError>)
        requires
            old(self).wf(),
        ensures
            final(self).wf(),
            final(self).prefix() == old(self).prefix(),
            final(self).dir() == old(self).dir(),
            compact_effect(*old(self), *final(self), r),
    {
        let t = self.merge_sealed();
        proof {
            assert forall|i: int| 0 <= i < self.sealed_logs().len() implies valid_log(
                #[trigger] self.sealed_logs()[i],
            ) by {
                self.segments@[i].lemma_wf();
            }
            lemma_merge_valid(self.sealed_logs());
            assert forall|k: Seq<u8>| #[trigger] t@.contains_key(k) implies valid_record(k, t@[k]@) && t@[k]@.len() > 0 by {
                assert(live(self.sealed_map()).contains_key(k));
            }
        }
        if self.last_sequence == u64::MAX {
            return Err(StoreError::SequenceExhausted);
        }
        let (segs, seqs) = match write_compacted(&self.file_prefix, &t, self.last_sequence + 1) {
            Ok(x) => x,
            Err(e) => {
                return Err(e);
            },
        };
        let mut ops: Vec<FileOp> = Vec::new();
        let mut x: usize = 0;
        while x < segs.len()
            invariant
                0 <= x <= segs@.len(),
                ops@.len() == x,
                forall|a: int| 0 <= a < x ==> is_write(#[trigger] ops@[a], segs@[a].path(), segs@[a].bytes()),
            decreases segs@.len() - x,
        {
            let file = segs[x].file_path().clone();
            let data = segs[x].data();
            let bytes = copy_range(data.as_slice(), 0, data.len());
            assert(bytes@ =~= segs@[x as int].bytes());
            ops.push(FileOp::Write { file, bytes });
            x = x + 1;
        }
        let mut y: usize = 0;
        while y < self.segments.len()
            invariant
                0 <= y <= self.segments@.len(),
                ops@.len() == segs@.len() + y,
                forall|a: int| 0 <= a < segs@.len() ==> is_write(#[trigger] ops@[a], segs@[a].path(), segs@[a].bytes()),
                forall|a: int| 0 <= a < y ==> is_remove(#[trigger] ops@[segs@.len() + a], self.segments@[a].path()),
            decreases self.segments@.len() - y,
        {
            let file = self.segments[y].file_path().clone();
            ops.push(FileOp::Remove { file });
            y = y + 1;
        }
        let last = seqs[seqs.len() - 1];
        let ghost old_paths = self.sealed_paths();
        self.segments = segs;
        self.sequences = seqs;
        self.last_sequence = last;
        proof {
            assert forall|a: int| 0 <= a < seqs@.len() implies seqs@[a] <= last by {
                if a < seqs@.len() - 1 {
                    assert(seqs@[a] < seqs@[seqs@.len() - 1]);
                }
            }
            assert forall|a: int| 0 <= a < segs@.len() implies is_write(#[trigger] ops@[a], self.sealed_paths()[a], self.sealed_bytes()[a]) by {}
            assert forall|a: int| 0 <= a < old_paths.len() implies is_remove(#[trigger] ops@[self.sealed_paths().len() + a], old_paths[a]) by {}
            assert(live(old(self).sealed_map()).dom() =~= t@.dom());
            assert(self.sealed_logs() =~= segs@.map_values(|s: Segment| s.log()));
            t.lemma_len();
            self.lemma_wf();
            self.lemma_sealed_names_distinct();
            assert(seqs@[seqs@.len() - 1] == old(self).last_sequence + 1 + (seqs@.len() - 1));
            assert forall|x: int| 0 <= x < self.sealed_logs().len() - 1 implies (#[trigger] self.sealed_bytes()[x]).len() > SEGMENT_THRESHOLD by {
                assert(self.sealed_bytes()[x] == segs@[x].bytes());
            }
            assert forall|x: int| 0 <= x < self.sealed_logs().len() implies filled_in_turn(#[trigger] self.sealed_logs()[x]) by {
                assert(self.sealed_logs()[x] == segs@[x].log());
            }
            assert(self.sealed_map() =~= live(old(self).sealed_map()));
        }
        Ok(ops)
    }

    /// `set_data` on bytes.
    fn write_record(&mut self, key: &[u8], value: &[u8]) -> (r: Result<Vec<FileOp>, StoreError>)
        requires
            old(self).wf(),
        ensures
            final(self).wf(),
            final(self).prefix() == old(self).prefix(),
            final(self).dir() == old(self).dir(),
            set_effect(*old(self), *final(self), key@, value@, r),
    {
        match encode(key, value) {
            Err(e) => {
                return Err(e);
            },
            Ok(_) => {},
        }
        let mut ops: Vec<FileOp> = Vec::new();
        if self.write_segment.size() > SEGMENT_THRESHOLD {
            match self.retire_write_segment() {
                Ok(op) => {
                    ops.push(op);
                },
                Err(e) => {
                    return Err(e);
                },
            }
        }
        let ghost mid = *self;
        let line = match self.write_segment.append_record(key, value) {
            Ok(line) => line,
            Err(e) => {
                return Err(e);
            },
        };
        proof {
            assert(self.sealed_logs() =~= mid.sealed_logs());
            let a = mid.active_log();
            assert(a.push((key@, value@)).drop_last() =~= a);
            assert(self.contents() =~= mid.contents().insert(key@, value@));
        }
        let file = self.write_segment.file_path().clone();
        ops.push(FileOp::Append { file, bytes: line });
        Ok(ops)
    }
}

/// What compaction does: on success the sealed segments hold each key's
/// last value from before, deleted keys dropped, in fresh files whose
/// sequence numbers follow all earlier ones; the active segment is
/// untouched; the file changes write each new file, then remove each old
/// one. It fails, changing nothing, only where the sequence numbers left
/// could not name one segment per record.
pub open spec fn compact_effect(old: Environment, new: Environment, r: Result<Vec<FileOp>, StoreError>) -> bool {
    match r {
        Ok(ops) => {
            &&& new.sealed_map() == live(old.sealed_map())
            &&& new.active_log() == old.active_log()
            &&& new.sealed_logs().len() >= 1
            &&& no_deletions(new.sealed_logs())
            &&& record_count(new.sealed_logs()) <= record_count(old.sealed_logs())
            &&& record_count(new.sealed_logs()) == live(old.sealed_map()).dom().len()
            &&& new.last_sequence() == old.last_sequence() + new.sealed_logs().len()
            &&& new.last_is_greatest()
            &&& forall|x: int| 0 <= x < new.sequences().len() ==> #[trigger] new.sequences()[x] == old.last_sequence() + 1 + x
            &&& forall|x: int| 0 <= x < new.sealed_logs().len() - 1 ==> (#[trigger] new.sealed_bytes()[x]).len() > SEGMENT_THRESHOLD
            &&& forall|x: int| 0 <= x < new.sealed_logs().len() ==> filled_in_turn(#[trigger] new.sealed_logs()[x])
            &&& forall|x: int| 0 <= x < new.sequences().len() ==> #[trigger] new.sealed_paths()[x]
                == segment_name(new.prefix(), new.sequences()[x] as nat)
            &&& forall|x: int, y: int| 0 <= x < y < new.sealed_paths().len() ==> new.sealed_paths()[x]
                != new.sealed_paths()[y]
            &&& forall|x: int| 0 <= x < new.sequences().len() ==> old.last_sequence() < #[trigger] new.sequences()[x]
            &&& ops@.len() == new.sealed_logs().len() + old.sealed_logs().len()
            &&& forall|a: int| 0 <= a < new.sealed_logs().len() ==> is_write(#[trigger] ops@[a], new.sealed_paths()[a], new.sealed_bytes()[a])
            &&& forall|a: int| 0 <= a < old.sealed_logs().len() ==> is_remove(#[trigger] ops@[new.sealed_logs().len() + a], old.sealed_paths()[a])
        },
        Err(e) => {
            &&& e == StoreError::SequenceExhausted
            &&& new == old
            &&& old.last_sequence() as int + record_count(old.sealed_logs()) + 1 > u64::MAX
        },
    }
}

/// What a write of `value` for `key` does: on success the store maps `key`
/// to `value` and nothing else changes; the active segment is sealed first
/// exactly where it had grown past the threshold; the file changes are
/// that rename, then the append of the record's line. It fails, changing
/// nothing, on a key with a separator or line break, on a value with a line
/// break, and where a seal is due and no sequence number is left.
pub open spec fn set_effect(
    old: Environment,
    new: Environment,
    key: Seq<u8>,
    value: Seq<u8>,
    r: Result<Vec<FileOp>, StoreError>,
) -> bool {
    let rotate = old.active_size() > SEGMENT_THRESHOLD;
    let cur = current_name(old.prefix());
    match r {
        Ok(ops) => {
            &&& valid_record(key, value)
            &&& new.contents() == old.contents().insert(key, value)
            &&& rotate ==> {
                &&& ops@.len() == 2
                &&& is_rename(ops@[0], cur, segment_name(old.prefix(), old.last_sequence() as nat + 1))
                &&& is_append(ops@[1], cur, line_spec(key, value))
                &&& new.sealed_logs() == old.sealed_logs().push(old.active_log())
                &&& new.active_log() == seq![(key, value)]
            }
            &&& !rotate ==> {
                &&& ops@.len() == 1
                &&& is_append(ops@[0], cur, line_spec(key, value))
                &&& new.sealed_logs() == old.sealed_logs()
                &&& new.active_log() == old.active_log().push((key, value))
            }
        },
        Err(e) => {
            &&& new == old
            &&& (has_byte(key, SEPARATOR) || has_byte(key, TERMINATOR)) ==> e == StoreError::InvalidKey
            &&& !(has_byte(key, SEPARATOR) || has_byte(key, TERMINATOR)) && has_byte(value, TERMINATOR)
                ==> e == StoreError::InvalidValue
            &&& valid_record(key, value) ==> e == StoreError::SequenceExhausted && rotate
                && old.last_sequence() == u64::MAX
        },
    }
}

} // verus!
