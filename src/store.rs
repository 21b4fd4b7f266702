//! The engine's decisions: which segment a record goes to, how the index and the
//! stale-record counter change, and when compaction is due. The bytes themselves are
//! written and read by the caller, which reports back through these methods.
use vstd::prelude::*;
use vstd::utf8::{char_is_scalar, encode_scalar, encode_utf8};
use vstd::string::*;
use crate::codec::{chars_of, string_of, LogHelper, Record, RecordView, decode, encode};
use crate::error::KvsError;
use crate::index::{FileIndex, Index};
use crate::model::{
    byte_len, step_index, makes_stale, step_count, read_result, key_of, record_views, lines_len,
    matches_keys, compacted_at, lemma_lines_len_mono, lemma_lines_len_step, placed,
    lemma_placed, replay_all, lines_of, lines_bytes, segment_ops, all_lines_decode,
    lemma_byte_len_push, lemma_byte_len_prefix, lemma_lines_keep,
};

verus! {

/// A segment longer than this many bytes is closed before the next write.
pub const MAX_SEGMENT_BYTES: u64 = 1048576;

/// Compaction is due when this many stale records have piled up.
pub const MAX_UNCOMPACTED: u64 = 1024;

/// The number of bytes of `c` in UTF-8.
fn char_width(c: char) -> (r: u64)
    ensures
        r == encode_scalar(c as u32).len(),
{
    proof {
        char_is_scalar(c);
    }
    let u = c as u32;
    if u < 0x80 {
        1
    } else if u < 0x800 {
        2
    } else if u < 0x10000 {
        3
    } else {
        4
    }
}

/// A record to be appended by the caller: its line goes at `offset` of segment `segment`.
pub struct Pending {
    pub segment: u64,
    pub offset: u64,
    /// Whether a new segment was opened for it; the caller creates that file.
    pub rotated: bool,
    pub record: Record,
    pub line: String,
}

impl Pending {
    /// The address of the pending record.
    pub open spec fn fi(&self) -> FileIndex {
        FileIndex { segment: self.segment, offset: self.offset }
    }

    /// The line is the record's.
    pub open spec fn wf(&self) -> bool {
        self.line@ == encode(self.record@)
    }
}

/// The engine's state: the index, the active segment and its length, and the number of
/// stale records since the last compaction.
pub struct LogStore {
    index: Index,
    active: u64,
    active_len: u64,
    uncompacted: u64,
    /// The records that this engine has seen in the log, by address.
    written: Ghost<Map<FileIndex, RecordView>>,
}

impl LogStore {
    /// The index: for each live key, where its latest `set` record starts.
    pub closed spec fn index_map(&self) -> Map<Seq<char>, FileIndex> {
        self.index@
    }

    /// The live keys, in the order in which compaction takes them.
    pub closed spec fn key_seq(&self) -> Seq<Seq<char>> {
        self.index.key_seq()
    }

    /// The number of the active segment.
    pub closed spec fn active_spec(&self) -> u64 {
        self.active
    }

    /// The length in bytes of the active segment.
    pub closed spec fn active_len_spec(&self) -> u64 {
        self.active_len
    }

    /// The number of stale records since the last compaction.
    pub closed spec fn uncompacted_spec(&self) -> u64 {
        self.uncompacted
    }

    /// The records of the log, by address, as far as this engine has read or written them.
    pub closed spec fn log(&self) -> Map<FileIndex, RecordView> {
        self.written@
    }

    /// The index is well formed, segments are numbered from 1, every record seen lies
    /// before the end of the active segment, and every key leads to a `set` record of it.
    pub closed spec fn wf(&self) -> bool {
        &&& self.index.wf()
        &&& self.active >= 1
        &&& forall|fi: FileIndex| #[trigger]
            self.written@.contains_key(fi) ==> fi.segment < self.active || (fi.segment
                == self.active && fi.offset < self.active_len)
        &&& forall|k: Seq<char>| #[trigger]
            self.index@.contains_key(k) ==> self.written@.contains_key(self.index@[k])
                && self.written@[self.index@[k]] is Put && key_of(
                self.written@[self.index@[k]],
            ) == k
    }

    /// The record that each live key leads to.
    pub open spec fn records_of(&self) -> Map<Seq<char>, RecordView> {
        Map::new(
            |k: Seq<char>| self.index_map().contains_key(k),
            |k: Seq<char>| self.log()[self.index_map()[k]],
        )
    }

    /// Whether `rs` are the records found at the live addresses, in the order of `key_seq`.
    pub open spec fn reads_live(&self, rs: Seq<RecordView>) -> bool {
        rs.len() == self.key_seq().len() && forall|i: int|
            0 <= i < rs.len() ==> #[trigger] rs[i] == self.records_of()[self.key_seq()[i]]
    }

    /// `key_seq` lists exactly the keys of the index, each once.
    pub proof fn lemma_key_seq(&self)
        requires
            self.wf(),
        ensures
            forall|k: Seq<char>|
                #![trigger self.index_map().contains_key(k)]
                self.index_map().contains_key(k) <==> exists|i: int|
                    0 <= i < self.key_seq().len() && self.key_seq()[i] == k,
            forall|i: int, j: int|
                0 <= i < j < self.key_seq().len() ==> self.key_seq()[i] != self.key_seq()[j],
    {
        self.index.lemma_key_seq();
    }

    /// Compacting twice with nothing in between: `compact` leaves the keys in the same
    /// order and every key with the same record, so the records read back at the live
    /// addresses are the ones the first compaction took, and the second puts every key at
    /// the same offset of its new segment, with the same lines.
    pub proof fn lemma_compaction_idempotent(
        before: &LogStore,
        after: &LogStore,
        first: Seq<RecordView>,
        second: Seq<RecordView>,
    )
        requires
            after.key_seq() == before.key_seq(),
            after.records_of() == before.records_of(),
            before.reads_live(first),
            after.reads_live(second),
        ensures
            second == first,
            forall|i: int, seg1: u64, seg2: u64|
                0 <= i < first.len() ==> #[trigger] compacted_at(second, seg2, i).offset
                    == #[trigger] compacted_at(first, seg1, i).offset,
    {
        assert(second =~= first);
    }

    /// Every key of the index leads to a `set` record of that key.
    pub proof fn lemma_index_points_to_sets(&self)
        requires
            self.wf(),
        ensures
            forall|k: Seq<char>| #[trigger]
                self.index_map().contains_key(k) ==> self.log().contains_key(self.index_map()[k])
                    && self.log()[self.index_map()[k]] is Put && key_of(
                    self.log()[self.index_map()[k]],
                ) == k,
    {
    }

    /// A store whose active segment is number `active` (1 when there is none yet) and
    /// holds `active_len` bytes; nothing has been replayed.
    pub fn new(active: u64, active_len: u64) -> (r: LogStore)
        ensures
            r.wf(),
            r.active_spec() == if active == 0 {
                1
            } else {
                active
            },
            r.active_len_spec() == active_len,
            r.uncompacted_spec() == 0,
            r.index_map() == Map::<Seq<char>, FileIndex>::empty(),
            r.log() == Map::<FileIndex, RecordView>::empty(),
    {
        let a = if active == 0 {
            1
        } else {
            active
        };
        LogStore {
            index: Index::new(),
            active: a,
            active_len,
            uncompacted: 0,
            written: Ghost(Map::empty()),
        }
    }

    /// The number of the active segment.
    pub fn active_segment(&self) -> (r: u64)
        ensures
            r == self.active_spec(),
    {
        self.active
    }

    /// The length in bytes of the active segment.
    pub fn active_len(&self) -> (r: u64)
        ensures
            r == self.active_len_spec(),
    {
        self.active_len
    }

    /// The number of stale records since the last compaction.
    pub fn uncompacted(&self) -> (r: u64)
        ensures
            r == self.uncompacted_spec(),
    {
        self.uncompacted
    }

    /// Where the latest `set` record of `key` starts, if `key` is present.
    pub fn lookup(&self, key: &String) -> (r: Option<FileIndex>)
        requires
            self.wf(),
        ensures
            r == (if self.index_map().contains_key(key@) {
                Some(self.index_map()[key@])
            } else {
                None
            }),
    {
        self.index.get(key)
    }

    /// Takes in a record found at `fi` while the log is replayed on opening.
    pub fn replay(&mut self, record: Record, fi: FileIndex)
        requires
            old(self).wf(),
            fi.segment < old(self).active_spec() || (fi.segment == old(self).active_spec()
                && fi.offset < old(self).active_len_spec()),
            !old(self).log().contains_key(fi),
        ensures
            final(self).wf(),
            final(self).index_map() == step_index(old(self).index_map(), record@, fi),
            final(self).uncompacted_spec() == step_count(
                old(self).index_map(),
                record@,
                old(self).uncompacted_spec(),
            ),
            final(self).log() == old(self).log().insert(fi, record@),
            final(self).active_spec() == old(self).active_spec(),
            final(self).active_len_spec() == old(self).active_len_spec(),
    {
        self.apply(record, fi);
    }


    /// Decodes the lines of segment `segment`, whose text is `text`, with their addresses;
    /// `DeserializeError` when a line does not decode.
    fn parse_segment(segment: u64, text: &str) -> (r: Result<Vec<(Record, FileIndex)>, KvsError>)
        ensures
            r is Err <==> !all_lines_decode(text@),
            r is Err ==> r == Err::<Vec<(Record, FileIndex)>, KvsError>(
                KvsError::DeserializeError,
            ),
            r is Ok ==> r.unwrap()@.len() == segment_ops(segment, text@).len() && forall|i: int|
                0 <= i < r.unwrap()@.len() ==> (#[trigger] r.unwrap()@[i]).0@ == segment_ops(
                    segment,
                    text@,
                )[i].0 && r.unwrap()@[i].1 == segment_ops(segment, text@)[i].1,
            r is Ok ==> forall|i: int|
                0 <= i < r.unwrap()@.len() ==> (#[trigger] r.unwrap()@[i]).1.offset < byte_len(
                    text@,
                ),
            r is Ok ==> forall|a: int, b: int|
                0 <= a < b < r.unwrap()@.len() ==> (#[trigger] r.unwrap()@[a]).1.offset
                    < (#[trigger] r.unwrap()@[b]).1.offset,
    {
        let cs = chars_of(text);
        let ghost s = text@;
        let total = text.as_bytes().len() as u64;
        let mut out: Vec<(Record, FileIndex)> = Vec::new();
        let ghost mut done: Seq<Seq<char>> = Seq::empty();
        let mut cur: Vec<char> = Vec::new();
        let mut offset: u64 = 0;
        let mut cur_bytes: u64 = 0;
        let mut i: usize = 0;
        assert(s.take(0) =~= Seq::<char>::empty());
        while i < cs.len()
            invariant
                s == text@,
                cs@ == s,
                total == byte_len(s),
                i <= cs@.len(),
                lines_of(s.take(i as int)) == if cur@.len() == 0 {
                    done
                } else {
                    done.push(cur@)
                },
                forall|j: int| 0 <= j < done.len() ==> #[trigger] done[j].len() > 0 && done[j].last() == '\n',
                forall|j: int| 0 <= j < cur@.len() ==> cur@[j] != '\n',
                offset == lines_bytes(done),
                cur_bytes == byte_len(cur@),
                byte_len(s.take(i as int)) == offset + cur_bytes,
                out@.len() == done.len(),
                forall|j: int| 0 <= j < done.len() ==> #[trigger] decode(done[j]) is Some,
                forall|j: int|
                    0 <= j < out@.len() ==> (#[trigger] out@[j]).0@ == decode(done[j])->0
                        && out@[j].1 == (FileIndex {
                        segment: segment,
                        offset: lines_bytes(done.take(j)) as u64,
                    }),
                forall|j: int| 0 <= j < done.len() ==> lines_bytes(#[trigger] done.take(j)) <= offset,
                forall|j: int| 0 <= j < out@.len() ==> (#[trigger] out@[j]).1.offset < offset,
                forall|a: int, b: int|
                    0 <= a < b < out@.len() ==> (#[trigger] out@[a]).1.offset
                        < (#[trigger] out@[b]).1.offset,
            decreases cs@.len() - i,
        {
            let c = cs[i];
            let w = char_width(c);
            proof {
                assert(s.take(i + 1).drop_last() =~= s.take(i as int));
                assert(s.take(i + 1).last() == c);
                lemma_byte_len_push(s.take(i as int), c);
                assert(s.take(i as int).push(c) =~= s.take(i + 1));
                lemma_byte_len_prefix(s, i + 1);
                lemma_byte_len_push(cur@, c);
            }
            let ghost old_cur = cur@;
            cur.push(c);
            cur_bytes = cur_bytes + w;
            proof {
                let r = lines_of(s.take(i as int));
                if old_cur.len() == 0 {
                    assert(cur@ =~= seq![c]);
                    if done.len() > 0 {
                        assert(done[done.len() - 1].last() == '\n');
                    }
                } else {
                    assert(r.last() == old_cur);
                    assert(r.update(r.len() - 1, r.last().push(c)) =~= done.push(cur@));
                }
                assert(lines_of(s.take(i + 1)) == done.push(cur@));
            }
            if c == '\n' {
                let line = string_of(&cur);
                let rec = match LogHelper::deserialize(line.as_str()) {
                    Ok(rec) => rec,
                    Err(e) => {
                        proof {
                            let k = done.len() as int;
                            lemma_lines_keep(s, i + 1, s.len() as int);
                            assert(s.take(s.len() as int) =~= s);
                            assert(lines_of(s.take(i + 1))[k] == cur@);
                            assert(decode(lines_of(s)[k]) is None);
                            assert(k < lines_of(s).len());
                            assert(!all_lines_decode(s));
                        }
                        return Err(e);
                    },
                };
                out.push((rec, FileIndex { segment, offset }));
                proof {
                    let nd = done.push(cur@);
                    assert(nd.drop_last() =~= done);
                    assert(cur@.last() == '\n');
                    assert forall|j: int| 0 <= j < nd.len() implies #[trigger] nd[j].len() > 0
                        && nd[j].last() == '\n' by {
                        if j < done.len() {
                            assert(nd[j] == done[j]);
                        }
                    }
                    assert forall|j: int| 0 <= j < nd.len() implies lines_bytes(#[trigger] nd.take(j)) <= offset + cur_bytes by {
                        if j == done.len() {
                            assert(nd.take(j) =~= done);
                        } else {
                            assert(nd.take(j) =~= done.take(j));
                        }
                    }
                    assert forall|j: int| 0 <= j < out@.len() implies (#[trigger] out@[j]).0@ == decode(nd[j])->0
                        && out@[j].1 == (FileIndex { segment: segment, offset: lines_bytes(nd.take(j)) as u64 }) by {
                        if j == done.len() {
                            assert(nd.take(j) =~= done);
                        } else {
                            assert(nd.take(j) =~= done.take(j));
                        }
                    }
                    done = nd;
                }
                offset = offset + cur_bytes;
                cur = Vec::new();
                cur_bytes = 0;
            }
            i = i + 1;
        }
        proof {
            assert(s.take(cs@.len() as int) =~= s);
        }
        if cur.len() > 0 {
            let line = string_of(&cur);
            match LogHelper::deserialize(line.as_str()) {
                Ok(rec) => {
                    out.push((rec, FileIndex { segment, offset }));
                    proof {
                        let nd = done.push(cur@);
                        assert forall|j: int| 0 <= j < out@.len() implies (#[trigger] out@[j]).0@
                            == decode(nd[j])->0 && out@[j].1 == (FileIndex {
                            segment: segment,
                            offset: lines_bytes(nd.take(j)) as u64,
                        }) by {
                            if j == done.len() {
                                assert(nd.take(j) =~= done);
                            } else {
                                assert(nd.take(j) =~= done.take(j));
                            }
                        }
                        done = nd;
                    }
                },
                Err(e) => {
                    proof {
                        assert(decode(lines_of(s)[done.len() as int]) is None);
                        assert(!all_lines_decode(s));
                    }
                    return Err(e);
                },
            }
        }
        proof {
            assert(lines_of(s) == done);
        }
        Ok(out)
    }

    /// Replays segment `segment`, whose text is `text`, on opening. Every line is decoded
    /// first: when one does not decode, nothing changes and the result is
    /// `DeserializeError`; otherwise the records are taken in in order, each at the byte
    /// offset where its line starts.
    pub fn replay_segment(&mut self, segment: u64, text: &str) -> (r: Result<(), KvsError>)
        requires
            old(self).wf(),
            segment < old(self).active_spec() || (segment == old(self).active_spec() && byte_len(
                text@,
            ) <= old(self).active_len_spec()),
            forall|fi: FileIndex| #[trigger]
                old(self).log().contains_key(fi) ==> fi.segment != segment,
        ensures
            final(self).wf(),
            r is Err <==> !all_lines_decode(text@),
            r is Err ==> r == Err::<(), KvsError>(KvsError::DeserializeError) && *final(self)
                == *old(self),
            r is Ok ==> (final(self).index_map(), final(self).uncompacted_spec()) == replay_all(
                old(self).index_map(),
                old(self).uncompacted_spec(),
                segment_ops(segment, text@),
            ),
            r is Ok ==> forall|i: int|
                0 <= i < segment_ops(segment, text@).len() ==> final(self).log().contains_key(
                    #[trigger] segment_ops(segment, text@)[i].1,
                ) && final(self).log()[segment_ops(segment, text@)[i].1] == segment_ops(
                    segment,
                    text@,
                )[i].0,
            r is Ok ==> forall|fi: FileIndex| #[trigger]
                final(self).log().contains_key(fi) ==> (old(self).log().contains_key(fi)
                    && final(self).log()[fi] == old(self).log()[fi]) || exists|i: int|
                    0 <= i < segment_ops(segment, text@).len() && fi == segment_ops(
                        segment,
                        text@,
                    )[i].1,
            final(self).active_spec() == old(self).active_spec(),
            final(self).active_len_spec() == old(self).active_len_spec(),
    {
        let parsed = match Self::parse_segment(segment, text) {
            Ok(v) => v,
            Err(e) => return Err(e),
        };
        let ghost ops = segment_ops(segment, text@);
        let ghost m0 = self.index@;
        let ghost c0 = self.uncompacted;
        let ghost log0 = self.written@;
        proof {
            assert(ops.take(0) =~= Seq::<(RecordView, FileIndex)>::empty());
        }
        for item in it: parsed
            invariant
                self.wf(),
                ops == segment_ops(segment, text@),
                it.seq() == parsed@,
                parsed@.len() == ops.len(),
                forall|i: int|
                    0 <= i < parsed@.len() ==> (#[trigger] parsed@[i]).0@ == ops[i].0
                        && parsed@[i].1 == ops[i].1,
                forall|i: int| 0 <= i < parsed@.len() ==> (#[trigger] parsed@[i]).1.offset < byte_len(text@),
                forall|a: int, b: int|
                    0 <= a < b < parsed@.len() ==> (#[trigger] parsed@[a]).1.offset
                        < (#[trigger] parsed@[b]).1.offset,
                (self.index@, self.uncompacted) == replay_all(m0, c0, ops.take(it.index() as int)),
                self.active == old(self).active,
                self.active_len == old(self).active_len,
                segment < self.active || (segment == self.active && byte_len(text@) <= self.active_len),
                forall|fi: FileIndex| #[trigger]
                    self.log().contains_key(fi) && fi.segment == segment ==> exists|j: int|
                        0 <= j < it.index() && fi == parsed@[j].1,
                forall|j: int|
                    0 <= j < it.index() ==> self.log().contains_key(#[trigger] parsed@[j].1)
                        && self.log()[parsed@[j].1] == ops[j].0,
                forall|fi: FileIndex| #[trigger]
                    self.log().contains_key(fi) ==> (log0.contains_key(fi) && self.log()[fi]
                        == log0[fi]) || exists|j: int| 0 <= j < it.index() && fi == parsed@[j].1,
        {
            let ghost k = it.index() as int;
            assert(0 <= k < parsed@.len());
            assert(item == parsed@[k]);
            let (rec, fi) = item;
            proof {
                assert(parsed@[k].1 == ops[k].1);
                assert(ops[k].1 == (FileIndex {
                    segment: segment,
                    offset: lines_bytes(lines_of(text@).take(k)) as u64,
                }));
                assert(fi.segment == segment);
                if self.log().contains_key(fi) {
                    let j = choose|j: int| 0 <= j < k && fi == parsed@[j].1;
                    assert(parsed@[j].1.offset < parsed@[k].1.offset);
                }
                assert(ops.take(k + 1).drop_last() =~= ops.take(k));
            }
            self.replay(rec, fi);
            proof {
                assert forall|j: int| 0 <= j < k + 1 implies self.log().contains_key(
                    #[trigger] parsed@[j].1,
                ) && self.log()[parsed@[j].1] == ops[j].0 by {
                    if j < k {
                        assert(parsed@[j].1.offset < parsed@[k].1.offset);
                    }
                }
                assert forall|fi2: FileIndex| #[trigger]
                    self.log().contains_key(fi2) implies (log0.contains_key(fi2)
                    && self.log()[fi2] == log0[fi2]) || exists|j: int|
                    0 <= j < k + 1 && fi2 == parsed@[j].1 by {
                    if fi2 == fi {
                        assert(fi2 == parsed@[k].1);
                    }
                }
                assert forall|fi2: FileIndex| #[trigger]
                    self.log().contains_key(fi2) && fi2.segment == segment implies exists|j: int|
                        0 <= j < k + 1 && fi2 == parsed@[j].1 by {
                    if fi2 == fi {
                        assert(fi2 == parsed@[k].1);
                    }
                }
            }
        }
        proof {
            assert(ops.take(ops.len() as int) =~= ops);
            assert forall|i: int| 0 <= i < ops.len() implies self.log().contains_key(
                #[trigger] ops[i].1,
            ) && self.log()[ops[i].1] == ops[i].0 by {
                assert(parsed@[i].1 == ops[i].1);
            }
            assert forall|fi: FileIndex| #[trigger]
                self.log().contains_key(fi) implies (log0.contains_key(fi) && self.log()[fi]
                == log0[fi]) || exists|i: int| 0 <= i < ops.len() && fi == ops[i].1 by {
                if !(log0.contains_key(fi) && self.log()[fi] == log0[fi]) {
                    let j = choose|j: int| 0 <= j < parsed@.len() && fi == parsed@[j].1;
                    assert(parsed@[j].1 == ops[j].1);
                }
            }
        }
        Ok(())
    }

    /// Opens segment `active + 1` when the active segment is over `MAX_SEGMENT_BYTES`.
    fn rotate_if_full(&mut self) -> (rotated: bool)
        requires
            old(self).wf(),
            old(self).active_spec() < u64::MAX,
        ensures
            final(self).wf(),
            rotated == (old(self).active_len_spec() > MAX_SEGMENT_BYTES),
            rotated ==> final(self).active_spec() == old(self).active_spec() + 1
                && final(self).active_len_spec() == 0,
            !rotated ==> final(self).active_spec() == old(self).active_spec()
                && final(self).active_len_spec() == old(self).active_len_spec(),
            final(self).index_map() == old(self).index_map(),
            final(self).key_seq() == old(self).key_seq(),
            final(self).log() == old(self).log(),
            final(self).uncompacted_spec() == old(self).uncompacted_spec(),
    {
        if self.active_len > MAX_SEGMENT_BYTES {
            self.active = self.active + 1;
            self.active_len = 0;
            true
        } else {
            false
        }
    }

    /// Prepares `set(key, value)`: opens a new segment when the active one is full, and
    /// says where the `set` record goes. Nothing changes in the index until `commit`.
    pub fn begin_set(&mut self, key: String, value: String) -> (p: Pending)
        requires
            old(self).wf(),
            old(self).active_spec() < u64::MAX,
        ensures
            final(self).wf(),
            p.wf(),
            p.record@ == RecordView::Put(key@, value@),
            p.rotated == (old(self).active_len_spec() > MAX_SEGMENT_BYTES),
            p.rotated ==> final(self).active_spec() == old(self).active_spec() + 1
                && final(self).active_len_spec() == 0,
            !p.rotated ==> final(self).active_spec() == old(self).active_spec()
                && final(self).active_len_spec() == old(self).active_len_spec(),
            p.segment == final(self).active_spec(),
            p.offset == final(self).active_len_spec(),
            final(self).index_map() == old(self).index_map(),
            final(self).log() == old(self).log(),
            final(self).uncompacted_spec() == old(self).uncompacted_spec(),
    {
        let rotated = self.rotate_if_full();
        let record = Record::Put(key, value);
        let line = LogHelper::serialize(&record).unwrap();
        Pending { segment: self.active, offset: self.active_len, rotated, record, line }
    }

    /// Prepares `remove(key)`: fails with `NonExistentKey` and changes nothing when `key`
    /// is absent; otherwise as `begin_set`, for a `rm` record.
    pub fn begin_remove(&mut self, key: String) -> (r: Result<Pending, KvsError>)
        requires
            old(self).wf(),
            old(self).active_spec() < u64::MAX,
        ensures
            final(self).wf(),
            !old(self).index_map().contains_key(key@) <==> r is Err,
            r is Err ==> r == Err::<Pending, KvsError>(KvsError::NonExistentKey(key))
                && *final(self) == *old(self),
            r is Ok ==> {
                let p = r.unwrap();
                &&& p.wf()
                &&& p.record@ == RecordView::Remove(key@)
                &&& p.rotated == (old(self).active_len_spec() > MAX_SEGMENT_BYTES)
                &&& p.rotated ==> final(self).active_spec() == old(self).active_spec() + 1
                    && final(self).active_len_spec() == 0
                &&& !p.rotated ==> final(self).active_spec() == old(self).active_spec()
                    && final(self).active_len_spec() == old(self).active_len_spec()
                &&& p.segment == final(self).active_spec()
                &&& p.offset == final(self).active_len_spec()
                &&& final(self).index_map() == old(self).index_map()
                &&& final(self).log() == old(self).log()
                &&& final(self).uncompacted_spec() == old(self).uncompacted_spec()
            },
    {
        if self.index.get(&key).is_none() {
            return Err(KvsError::NonExistentKey(key));
        }
        let rotated = self.rotate_if_full();
        let record = Record::Remove(key);
        let line = LogHelper::serialize(&record).unwrap();
        Ok(Pending { segment: self.active, offset: self.active_len, rotated, record, line })
    }

    /// Takes in a record that the caller has appended as `begin_set` or `begin_remove`
    /// said; returns whether compaction is due: the record made an earlier one stale and
    /// the counter has reached `MAX_UNCOMPACTED`.
    pub fn commit(&mut self, p: Pending) -> (compact: bool)
        requires
            old(self).wf(),
            p.wf(),
            p.segment == old(self).active_spec(),
            p.offset == old(self).active_len_spec(),
            old(self).active_len_spec() + byte_len(p.line@) <= u64::MAX,
        ensures
            final(self).wf(),
            final(self).index_map() == step_index(old(self).index_map(), p.record@, p.fi()),
            final(self).uncompacted_spec() == step_count(
                old(self).index_map(),
                p.record@,
                old(self).uncompacted_spec(),
            ),
            final(self).log() == old(self).log().insert(p.fi(), p.record@),
            final(self).active_spec() == old(self).active_spec(),
            final(self).active_len_spec() == old(self).active_len_spec() + byte_len(p.line@),
            compact == (makes_stale(old(self).index_map(), p.record@)
                && final(self).uncompacted_spec() >= MAX_UNCOMPACTED),
            final(self).records_of() == match p.record@ {
                RecordView::Put(k, _) => old(self).records_of().insert(k, p.record@),
                RecordView::Remove(k) => old(self).records_of().remove(k),
            },
    {
        let ls = p.line.as_str();
        let n = ls.as_bytes().len() as u64;
        proof {
            assert(ls@ == p.line@);
            assert(ls.spec_bytes() == encode_utf8(p.line@));
            assert(n == byte_len(p.line@));
            assert(p.line@.len() > 0);
            assert(encode_utf8(p.line@) == encode_scalar(p.line@[0] as u32) + encode_utf8(
                p.line@.drop_first(),
            ));
            assert(byte_len(p.line@) > 0);
        }
        let fi = FileIndex { segment: p.segment, offset: p.offset };
        let ghost old_map = self.index@;
        let ghost old_log = self.written@;
        let stale = self.apply(p.record, fi);
        self.active_len = self.active_len + n;
        proof {
            assert(!old_log.contains_key(fi));
            assert forall|k: Seq<char>| #[trigger]
                old_map.contains_key(k) implies old_map[k] != fi by {}
            match p.record@ {
                RecordView::Put(k, _) => {
                    assert(self.records_of() =~= old(self).records_of().insert(k, p.record@));
                },
                RecordView::Remove(k) => {
                    assert(self.records_of() =~= old(self).records_of().remove(k));
                },
            }
        }
        stale && self.uncompacted >= MAX_UNCOMPACTED
    }

    /// What `get(key)` returns when `line` is the line found at the key's address: the
    /// value of a `set` record of `key`; any other line is `DeserializeError`.
    pub fn value_from_line(key: &String, line: &str) -> (r: Result<String, KvsError>)
        ensures
            match read_result(key@, line@) {
                Some(v) => r is Ok && r.unwrap()@ == v,
                None => r == Err::<String, KvsError>(KvsError::DeserializeError),
            },
    {
        match LogHelper::deserialize(line) {
            Ok(Record::Put(k, v)) => {
                if k == *key {
                    Ok(v)
                } else {
                    Err(KvsError::DeserializeError)
                }
            },
            _ => Err(KvsError::DeserializeError),
        }
    }

    /// The addresses of the live records, in the order in which `compact` takes them.
    pub fn live_addresses(&self) -> (r: Vec<FileIndex>)
        requires
            self.wf(),
        ensures
            r@.len() == self.key_seq().len(),
            forall|i: int|
                0 <= i < r@.len() ==> r@[i] == self.index_map()[#[trigger] self.key_seq()[i]],
    {
        let n = self.index.len();
        let mut out: Vec<FileIndex> = Vec::new();
        let mut i: usize = 0;
        while i < n
            invariant
                self.index.wf(),
                n == self.key_seq().len(),
                i <= n,
                out@.len() == i,
                forall|j: int|
                    0 <= j < i ==> out@[j] == self.index_map()[#[trigger] self.key_seq()[j]],
            decreases n - i,
        {
            let (_, fi) = self.index.entry(i);
            out.push(fi);
            i = i + 1;
        }
        out
    }

    /// Points the key at position `i` to the end of the active segment, where `record`'s
    /// line goes.
    fn place(&mut self, i: usize, record: &Record) -> (line: String)
        requires
            old(self).index.wf(),
            i < old(self).key_seq().len(),
            old(self).active_len + byte_len(encode(record@)) <= u64::MAX,
        ensures
            line@ == encode(record@),
            byte_len(line@) > 0,
            final(self).index.wf(),
            final(self).key_seq() == old(self).key_seq(),
            final(self).index@ == old(self).index@.insert(
                old(self).key_seq()[i as int],
                FileIndex { segment: old(self).active, offset: old(self).active_len },
            ),
            final(self).written@ == old(self).written@.insert(
                FileIndex { segment: old(self).active, offset: old(self).active_len },
                record@,
            ),
            final(self).active_len == old(self).active_len + byte_len(line@),
            final(self).active == old(self).active,
            final(self).uncompacted == old(self).uncompacted,
    {
        let line = LogHelper::serialize(record).unwrap();
        let ls = line.as_str();
        let len = ls.as_bytes().len() as u64;
        proof {
            assert(ls.spec_bytes() == encode_utf8(line@));
            assert(encode_utf8(line@) == encode_scalar(line@[0] as u32) + encode_utf8(
                line@.drop_first(),
            ));
        }
        let fi = FileIndex { segment: self.active, offset: self.active_len };
        self.index.set_at(i, fi);
        self.written = Ghost(self.written@.insert(fi, record@));
        self.active_len = self.active_len + len;
        line
    }

    fn records_match(&self, records: &Vec<Record>) -> (b: bool)
        requires
            self.wf(),
        ensures
            b == matches_keys(record_views(records@), self.key_seq()),
    {
        let ghost rs = record_views(records@);
        let n = self.index.len();
        if records.len() != n {
            return false;
        }
        let mut i: usize = 0;
        while i < n
            invariant
                self.index.wf(),
                n == self.key_seq().len() == records@.len(),
                rs == record_views(records@),
                i <= n,
                forall|j: int|
                    0 <= j < i ==> #[trigger] rs[j] is Put && key_of(rs[j]) == self.key_seq()[j],
            decreases n - i,
        {
            let (key, _) = self.index.entry(i);
            assert(rs[i as int] == records@[i as int]@);
            match &records[i] {
                Record::Put(k, _) => {
                    if *k != *key {
                        return false;
                    }
                },
                Record::Remove(_) => {
                    return false;
                },
            }
            i = i + 1;
        }
        true
    }

    /// Compaction. `records` are the records read at `live_addresses()`, in order. Opens
    /// segment `active + 1`, points every key to its record's place there, and resets the
    /// counter; returns the former active number (segments up to it are now dead) and the
    /// lines that the caller appends, in order, to the new segment. Fails with
    /// `DeserializeError`, changing nothing, when a record is not the `set` of its key.
    #[verifier::rlimit(100)]
    pub fn compact(&mut self, records: Vec<Record>) -> (r: Result<(u64, Vec<String>), KvsError>)
        requires
            old(self).wf(),
            old(self).active_spec() < u64::MAX,
            lines_len(record_views(records@)) <= u64::MAX,
        ensures
            final(self).wf(),
            r is Err <==> !matches_keys(record_views(records@), old(self).key_seq()),
            r is Err ==> r == Err::<(u64, Vec<String>), KvsError>(KvsError::DeserializeError)
                && *final(self) == *old(self),
            r is Ok ==> {
                let (old_active, lines) = r.unwrap();
                let rs = record_views(records@);
                let seg = final(self).active_spec();
                &&& old_active == old(self).active_spec()
                &&& seg == old(self).active_spec() + 1
                &&& final(self).active_len_spec() == lines_len(rs)
                &&& final(self).uncompacted_spec() == 0
                &&& final(self).key_seq() == old(self).key_seq()
                &&& final(self).index_map().dom() == old(self).index_map().dom()
                &&& lines@.len() == rs.len()
                &&& forall|i: int| 0 <= i < rs.len() ==> #[trigger] lines@[i]@ == encode(rs[i])
                &&& forall|i: int|
                    0 <= i < rs.len() ==> final(self).index_map()[#[trigger] old(
                        self,
                    ).key_seq()[i]] == compacted_at(rs, seg, i)
                &&& forall|i: int|
                    0 <= i < rs.len() ==> final(self).log().contains_key(
                        #[trigger] compacted_at(rs, seg, i),
                    ) && final(self).log()[compacted_at(rs, seg, i)] == rs[i]
                &&& forall|fi: FileIndex| #[trigger]
                    final(self).log().contains_key(fi) && fi.segment == seg ==> exists|i: int|
                        0 <= i < rs.len() && fi == compacted_at(rs, seg, i)
                &&& forall|k: Seq<char>| #[trigger]
                    final(self).index_map().contains_key(k) ==> final(self).index_map()[k].segment
                        == seg
                &&& old(self).reads_live(rs) ==> final(self).records_of() == old(
                    self,
                ).records_of()
            },
    {
        let ghost rs = record_views(records@);
        let n = self.index.len();
        if !self.records_match(&records) {
            return Err(KvsError::DeserializeError);
        }
        proof {
            self.index.lemma_key_seq();
        }
        let ghost keys = self.key_seq();
        let ghost old_map = self.index@;
        let ghost old_log = self.written@;
        let old_active = self.active;
        self.active = self.active + 1;
        self.active_len = 0;
        self.uncompacted = 0;
        let seg = self.active;
        let mut lines: Vec<String> = Vec::new();
        let mut i: usize = 0;
        assert(rs.take(0) =~= Seq::<RecordView>::empty());
        assert(self.written@ =~= old_log.union_prefer_right(placed(rs, seg, 0)));
        while i < n
            invariant
                self.index.wf(),
                rs == record_views(records@),
                matches_keys(rs, keys),
                n == keys.len() == records@.len(),
                self.key_seq() == keys,
                self.index@.dom() == old_map.dom(),
                i <= n,
                seg == self.active == old_active + 1,
                self.uncompacted == 0,
                lines_len(rs) <= u64::MAX,
                self.active_len == lines_len(rs.take(i as int)),
                lines@.len() == i,
                forall|j: int| 0 <= j < i ==> #[trigger] lines@[j]@ == encode(rs[j]),
                forall|j: int|
                    0 <= j < i ==> self.index@[#[trigger] keys[j]] == compacted_at(rs, seg, j),
                forall|j: int|
                    i <= j < n ==> self.index@[#[trigger] keys[j]] == old_map[keys[j]],
                self.written@ == old_log.union_prefer_right(placed(rs, seg, i as nat)),
            decreases n - i,
        {
            let fi = FileIndex { segment: self.active, offset: self.active_len };
            proof {
                self.index.lemma_key_seq();
                assert(self.index@.contains_key(keys[i as int]));
                assert(rs[i as int] == records@[i as int]@);
                lemma_lines_len_step(rs, i as int);
                lemma_lines_len_mono(rs, i + 1, rs.len() as int);
                assert(rs.take(rs.len() as int) =~= rs);
                assert(fi == compacted_at(rs, seg, i as int));
            }
            let line = self.place(i, &records[i]);
            lines.push(line);
            proof {
                assert(self.index@.dom() =~= old_map.dom());
                assert(self.written@ =~= old_log.union_prefer_right(
                    placed(rs, seg, (i + 1) as nat),
                ));
            }
            i = i + 1;
        }
        proof {
            self.index.lemma_key_seq();
            assert(rs.take(n as int) =~= rs);
            lemma_placed(rs, seg, n as nat);
            assert forall|fi: FileIndex| #[trigger]
                self.written@.contains_key(fi) implies fi.segment < self.active || (fi.segment
                == self.active && fi.offset < self.active_len) by {
                if !placed(rs, seg, n as nat).contains_key(fi) {
                    assert(old_log.contains_key(fi));
                }
            }
            assert forall|k: Seq<char>| #[trigger]
                self.index@.contains_key(k) implies self.written@.contains_key(self.index@[k])
                && self.written@[self.index@[k]] is Put && key_of(self.written@[self.index@[k]])
                == k by {
                let j = choose|j: int| 0 <= j < keys.len() && keys[j] == k;
                assert(self.index@[keys[j]] == compacted_at(rs, seg, j));
                assert(rs[j] is Put && key_of(rs[j]) == keys[j]);
            }
            assert forall|fi: FileIndex| #[trigger]
                self.written@.contains_key(fi) && fi.segment == seg implies exists|j: int|
                0 <= j < rs.len() && fi == compacted_at(rs, seg, j) by {
                if !placed(rs, seg, n as nat).contains_key(fi) {
                    assert(old_log.contains_key(fi));
                }
            }
        }
        proof {
            assert forall|k: Seq<char>| #[trigger]
                self.index@.contains_key(k) implies self.index@[k].segment == seg by {
                let j = choose|j: int| 0 <= j < keys.len() && keys[j] == k;
                assert(self.index@[keys[j]] == compacted_at(rs, seg, j));
            }
            if old(self).reads_live(rs) {
                assert forall|k: Seq<char>| #[trigger]
                    self.index@.contains_key(k) implies self.written@[self.index@[k]]
                    == old_log[old_map[k]] by {
                    let j = choose|j: int| 0 <= j < keys.len() && keys[j] == k;
                    assert(self.index@[keys[j]] == compacted_at(rs, seg, j));
                    assert(rs[j] == old(self).records_of()[keys[j]]);
                }
                assert(self.records_of() =~= old(self).records_of());
            }
        }
        Ok((old_active, lines))
    }

    fn apply(&mut self, record: Record, fi: FileIndex) -> (stale: bool)
        requires
            old(self).index.wf(),
            !old(self).written@.contains_key(fi),
            forall|k: Seq<char>| #[trigger]
                old(self).index@.contains_key(k) ==> old(self).written@.contains_key(
                    old(self).index@[k],
                ) && old(self).written@[old(self).index@[k]] is Put && key_of(
                    old(self).written@[old(self).index@[k]],
                ) == k,
        ensures
            stale == makes_stale(old(self).index@, record@),
            final(self).index.wf(),
            final(self).index@ == step_index(old(self).index@, record@, fi),
            final(self).uncompacted == step_count(
                old(self).index@,
                record@,
                old(self).uncompacted,
            ),
            final(self).written@ == old(self).written@.insert(fi, record@),
            final(self).active == old(self).active,
            final(self).active_len == old(self).active_len,
            forall|k: Seq<char>| #[trigger]
                final(self).index@.contains_key(k) ==> final(self).written@.contains_key(
                    final(self).index@[k],
                ) && final(self).written@[final(self).index@[k]] is Put && key_of(
                    final(self).written@[final(self).index@[k]],
                ) == k,
    {
        let ghost r = record@;
        self.written = Ghost(self.written@.insert(fi, r));
        match record {
            Record::Put(key, _) => {
                let prior = self.index.put(key, fi);
                if prior.is_some() {
                    self.uncompacted = if self.uncompacted < u64::MAX {
                        self.uncompacted + 1
                    } else {
                        self.uncompacted
                    };
                }
                prior.is_some()
            },
            Record::Remove(key) => {
                self.index.remove(&key);
                self.uncompacted = if self.uncompacted < u64::MAX {
                    self.uncompacted + 1
                } else {
                    self.uncompacted
                };
                true
            },
        }
    }
}

} // verus!
