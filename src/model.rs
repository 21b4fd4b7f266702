//! The log as mathematics: the lines of a segment and their bytes, how each record
//! changes the index and the stale-record counter, and what replaying a log gives.
use vstd::prelude::*;
use vstd::utf8::{encode_scalar, encode_utf8};
use crate::codec::{
    Record, RecordView, decode, encode, is_stable_record, is_stable_token, is_token,
    lemma_round_trip,
};
use crate::index::FileIndex;

verus! {

/// The number of bytes of a line in UTF-8.
pub open spec fn byte_len(s: Seq<char>) -> nat {
    encode_utf8(s).len()
}

/// The index after the record `r` at `fi` is read or written.
pub open spec fn step_index(
    m: Map<Seq<char>, FileIndex>,
    r: RecordView,
    fi: FileIndex,
) -> Map<Seq<char>, FileIndex> {
    match r {
        RecordView::Put(k, _) => m.insert(k, fi),
        RecordView::Remove(k) => m.remove(k),
    }
}

/// Whether the record `r` makes an earlier record stale: an overwrite of a present key,
/// or any removal.
pub open spec fn makes_stale(m: Map<Seq<char>, FileIndex>, r: RecordView) -> bool {
    match r {
        RecordView::Put(k, _) => m.contains_key(k),
        RecordView::Remove(_) => true,
    }
}

/// `c + 1`, held at the largest `u64`.
pub open spec fn bump(c: u64) -> u64 {
    if c < u64::MAX {
        (c + 1) as u64
    } else {
        c
    }
}

/// The counter after the record `r` is read or written.
pub open spec fn step_count(m: Map<Seq<char>, FileIndex>, r: RecordView, c: u64) -> u64 {
    if makes_stale(m, r) {
        bump(c)
    } else {
        c
    }
}

/// What `get` returns for `key` when the line at the key's address is `line`: the value of
/// a `set` record of that key, or nothing, which is corruption.
pub open spec fn read_result(key: Seq<char>, line: Seq<char>) -> Option<Seq<char>> {
    match decode(line) {
        Some(RecordView::Put(k, v)) => if k == key {
            Some(v)
        } else {
            None
        },
        _ => None,
    }
}

/// The key of a record.
pub open spec fn key_of(r: RecordView) -> Seq<char> {
    match r {
        RecordView::Put(k, _) => k,
        RecordView::Remove(k) => k,
    }
}

/// The records' views.
pub open spec fn record_views(rs: Seq<Record>) -> Seq<RecordView> {
    rs.map_values(|r: Record| r@)
}

/// The bytes taken by the lines of `rs`, one after the other.
pub open spec fn lines_len(rs: Seq<RecordView>) -> nat
    decreases rs.len(),
{
    if rs.len() == 0 {
        0
    } else {
        lines_len(rs.drop_last()) + byte_len(encode(rs.last()))
    }
}

/// Whether `rs` are `set` records of the keys `keys`, in that order.
pub open spec fn matches_keys(rs: Seq<RecordView>, keys: Seq<Seq<char>>) -> bool {
    rs.len() == keys.len() && forall|i: int|
        0 <= i < rs.len() ==> #[trigger] rs[i] is Put && key_of(rs[i]) == keys[i]
}

/// Where the `i`-th of the records `rs` lands when they are written to segment `seg` in order.
pub open spec fn compacted_at(rs: Seq<RecordView>, seg: u64, i: int) -> FileIndex {
    FileIndex { segment: seg, offset: lines_len(rs.take(i)) as u64 }
}

pub(crate) proof fn lemma_lines_len_mono(rs: Seq<RecordView>, i: int, j: int)
    requires
        0 <= i <= j <= rs.len(),
    ensures
        lines_len(rs.take(i)) <= lines_len(rs.take(j)),
    decreases j - i,
{
    if i < j {
        lemma_lines_len_mono(rs, i, j - 1);
        assert(rs.take(j).drop_last() =~= rs.take(j - 1));
    }
}

pub(crate) proof fn lemma_lines_len_step(rs: Seq<RecordView>, i: int)
    requires
        0 <= i < rs.len(),
    ensures
        lines_len(rs.take(i + 1)) == lines_len(rs.take(i)) + byte_len(encode(rs[i])),
{
    assert(rs.take(i + 1).drop_last() =~= rs.take(i));
}

/// The records `rs[..i]` at the places that compaction gives them in segment `seg`.
pub open spec fn placed(rs: Seq<RecordView>, seg: u64, i: nat) -> Map<FileIndex, RecordView>
    decreases i,
{
    if i == 0 || i > rs.len() {
        Map::empty()
    } else {
        placed(rs, seg, (i - 1) as nat).insert(compacted_at(rs, seg, i - 1), rs[i - 1])
    }
}

pub(crate) proof fn lemma_line_nonempty(r: RecordView)
    ensures
        byte_len(encode(r)) > 0,
{
    let e = encode(r);
    assert(e.len() > 0);
    assert(encode_utf8(e) == encode_scalar(e[0] as u32) + encode_utf8(e.drop_first()));
}

pub(crate) proof fn lemma_placed(rs: Seq<RecordView>, seg: u64, i: nat)
    requires
        i <= rs.len(),
        lines_len(rs) <= u64::MAX,
    ensures
        forall|j: int|
            0 <= j < i ==> placed(rs, seg, i).contains_key(#[trigger] compacted_at(rs, seg, j))
                && placed(rs, seg, i)[compacted_at(rs, seg, j)] == rs[j],
        forall|fi: FileIndex| #[trigger]
            placed(rs, seg, i).contains_key(fi) ==> fi.segment == seg && fi.offset < lines_len(
                rs.take(i as int),
            ) && exists|j: int| 0 <= j < i && fi == compacted_at(rs, seg, j),
    decreases i,
{
    if i > 0 {
        let k = (i - 1) as int;
        lemma_placed(rs, seg, (i - 1) as nat);
        assert(placed(rs, seg, i) == placed(rs, seg, k as nat).insert(
            compacted_at(rs, seg, k),
            rs[k],
        ));
        lemma_lines_len_step(rs, k);
        lemma_line_nonempty(rs[k]);
        lemma_lines_len_mono(rs, i as int, rs.len() as int);
        assert(rs.take(rs.len() as int) =~= rs);
        assert forall|j: int| 0 <= j < k implies compacted_at(rs, seg, j) != compacted_at(
            rs,
            seg,
            k,
        ) by {
            lemma_lines_len_step(rs, j);
            lemma_line_nonempty(rs[j]);
            lemma_lines_len_mono(rs, j + 1, k);
            lemma_lines_len_mono(rs, k, rs.len() as int);
        }
        assert forall|fi: FileIndex| #[trigger]
            placed(rs, seg, i).contains_key(fi) implies fi.segment == seg && fi.offset
            < lines_len(rs.take(i as int)) && exists|j: int|
            0 <= j < i && fi == compacted_at(rs, seg, j) by {
            if fi != compacted_at(rs, seg, k) {
                assert(placed(rs, seg, k as nat).contains_key(fi));
            }
        }
    }
}

/// The index and counter after the records `ops`, each with its address, are taken in
/// one after the other, starting from `m` and `c`.
pub open spec fn replay_all(
    m: Map<Seq<char>, FileIndex>,
    c: u64,
    ops: Seq<(RecordView, FileIndex)>,
) -> (Map<Seq<char>, FileIndex>, u64)
    decreases ops.len(),
{
    if ops.len() == 0 {
        (m, c)
    } else {
        let (m1, c1) = replay_all(m, c, ops.drop_last());
        let (r, fi) = ops.last();
        (step_index(m1, r, fi), step_count(m1, r, c1))
    }
}

/// The records `ops` as they are read back from their lines.
pub open spec fn reread(ops: Seq<(RecordView, FileIndex)>) -> Seq<(RecordView, FileIndex)> {
    ops.map_values(|o: (RecordView, FileIndex)| (decode(encode(o.0))->0, o.1))
}

/// Closing and reopening changes nothing: when every record written has a stable form,
/// replaying the lines read back from the log gives the index and counter that taking in
/// the records themselves gave.
pub proof fn lemma_reopen_same_state(
    m: Map<Seq<char>, FileIndex>,
    c: u64,
    ops: Seq<(RecordView, FileIndex)>,
)
    requires
        forall|i: int| 0 <= i < ops.len() ==> is_stable_record(#[trigger] ops[i].0),
    ensures
        replay_all(m, c, reread(ops)) == replay_all(m, c, ops),
    decreases ops.len(),
{
    if ops.len() > 0 {
        let last = ops.len() - 1;
        assert(reread(ops).drop_last() =~= reread(ops.drop_last()));
        lemma_reopen_same_state(m, c, ops.drop_last());
        lemma_round_trip(ops[last].0);
        assert(reread(ops).last() == ops.last());
    }
}

/// After `set(k, v)` is written at `fi`, the index leads `get(k)` to `fi`, and the line
/// there reads back as `v`.
pub proof fn lemma_set_then_get(
    m: Map<Seq<char>, FileIndex>,
    k: Seq<char>,
    v: Seq<char>,
    fi: FileIndex,
)
    requires
        is_token(k),
        is_stable_token(v),
    ensures
        step_index(m, RecordView::Put(k, v), fi).contains_key(k),
        step_index(m, RecordView::Put(k, v), fi)[k] == fi,
        read_result(k, encode(RecordView::Put(k, v))) == Some(v),
{
    lemma_round_trip(RecordView::Put(k, v));
}

/// After `set(k, v)` and then `remove(k)`, `k` is not in the index, so `get(k)` is `None`.
pub proof fn lemma_set_remove_then_get(
    m: Map<Seq<char>, FileIndex>,
    k: Seq<char>,
    v: Seq<char>,
    fi1: FileIndex,
    fi2: FileIndex,
)
    ensures
        !step_index(
            step_index(m, RecordView::Put(k, v), fi1),
            RecordView::Remove(k),
            fi2,
        ).contains_key(k),
{
}

/// The lines of `s`: each ends with a newline, but perhaps the last, and none is empty.
pub open spec fn lines_of(s: Seq<char>) -> Seq<Seq<char>>
    decreases s.len(),
{
    if s.len() == 0 {
        seq![]
    } else {
        let r = lines_of(s.drop_last());
        if r.len() == 0 || r.last().last() == '\n' {
            r.push(seq![s.last()])
        } else {
            r.update(r.len() - 1, r.last().push(s.last()))
        }
    }
}

/// The bytes taken by `lines`, one after the other.
pub open spec fn lines_bytes(lines: Seq<Seq<char>>) -> nat
    decreases lines.len(),
{
    if lines.len() == 0 {
        0
    } else {
        lines_bytes(lines.drop_last()) + byte_len(lines.last())
    }
}

/// The records of a segment whose text is `s`, each with its address.
pub open spec fn segment_ops(seg: u64, s: Seq<char>) -> Seq<(RecordView, FileIndex)> {
    let lines = lines_of(s);
    Seq::new(
        lines.len(),
        |i: int|
            (
                decode(lines[i])->0,
                FileIndex { segment: seg, offset: lines_bytes(lines.take(i)) as u64 },
            ),
    )
}

/// Whether every line of `s` decodes.
pub open spec fn all_lines_decode(s: Seq<char>) -> bool {
    forall|i: int| 0 <= i < lines_of(s).len() ==> #[trigger] decode(lines_of(s)[i]) is Some
}

pub(crate) proof fn lemma_encode_concat(a: Seq<char>, b: Seq<char>)
    ensures
        encode_utf8(a + b) == encode_utf8(a) + encode_utf8(b),
    decreases a.len(),
{
    if a.len() == 0 {
        assert(a + b =~= b);
        assert(encode_utf8(a) + encode_utf8(b) =~= encode_utf8(b));
    } else {
        assert((a + b).drop_first() =~= a.drop_first() + b);
        assert((a + b)[0] == a[0]);
        lemma_encode_concat(a.drop_first(), b);
        assert(encode_utf8(a + b) =~= encode_utf8(a) + encode_utf8(b));
    }
}

pub(crate) proof fn lemma_byte_len_push(a: Seq<char>, c: char)
    ensures
        byte_len(a.push(c)) == byte_len(a) + encode_scalar(c as u32).len(),
{
    lemma_encode_concat(a, seq![c]);
    assert(a + seq![c] =~= a.push(c));
    assert(seq![c].drop_first() =~= Seq::<char>::empty());
    assert(encode_utf8(seq![c]) =~= encode_scalar(c as u32) + encode_utf8(Seq::<char>::empty()));
}

pub(crate) proof fn lemma_byte_len_prefix(s: Seq<char>, i: int)
    requires
        0 <= i <= s.len(),
    ensures
        byte_len(s.take(i)) <= byte_len(s),
{
    lemma_encode_concat(s.take(i), s.skip(i));
    assert(s.take(i) + s.skip(i) =~= s);
}

/// A line that ends with a newline stays as it is when the text grows.
pub(crate) proof fn lemma_lines_keep(s: Seq<char>, k: int, n: int)
    requires
        0 <= k <= n <= s.len(),
    ensures
        lines_of(s.take(k)).len() <= lines_of(s.take(n)).len(),
        forall|j: int|
            0 <= j < lines_of(s.take(k)).len() && (#[trigger] lines_of(s.take(k))[j]).last()
                == '\n' ==> lines_of(s.take(n))[j] == lines_of(s.take(k))[j],
    decreases n - k,
{
    if k < n {
        lemma_lines_keep(s, k, n - 1);
        assert(s.take(n).drop_last() =~= s.take(n - 1));
    }
}

/// The text of a segment that holds the lines of `rs`, one after the other.
pub open spec fn text_of(rs: Seq<RecordView>) -> Seq<char>
    decreases rs.len(),
{
    if rs.len() == 0 {
        Seq::empty()
    } else {
        text_of(rs.drop_last()) + encode(rs.last())
    }
}

/// A line as the engine writes it: a newline at the end and nowhere else.
pub open spec fn is_full_line(l: Seq<char>) -> bool {
    l.len() > 0 && l.last() == '\n' && forall|j: int| 0 <= j < l.len() - 1 ==> l[j] != '\n'
}

pub(crate) proof fn lemma_stable_line(r: RecordView)
    requires
        is_stable_record(r),
    ensures
        is_full_line(encode(r)),
{
    let e = encode(r);
    match r {
        RecordView::Put(k, v) => {
            assert forall|j: int| 0 <= j < e.len() - 1 implies e[j] != '\n' by {
                if 4 <= j < 4 + k.len() {
                    assert(e[j] == k[j - 4]);
                } else if 5 + k.len() <= j < 5 + k.len() + v.len() {
                    assert(e[j] == v[j - 5 - k.len()]);
                }
            }
        },
        RecordView::Remove(k) => {
            assert forall|j: int| 0 <= j < e.len() - 1 implies e[j] != '\n' by {
                if 3 <= j < 3 + k.len() {
                    assert(e[j] == k[j - 3]);
                }
            }
        },
    }
}

/// The last line of a text ends with the text's last character.
pub(crate) proof fn lemma_last_line(s: Seq<char>)
    requires
        s.len() > 0,
    ensures
        lines_of(s).len() > 0,
        lines_of(s).last().len() > 0,
        lines_of(s).last().last() == s.last(),
{
}

pub(crate) proof fn lemma_lines_append_prefix(t: Seq<char>, l: Seq<char>, j: int)
    requires
        t.len() == 0 || t.last() == '\n',
        is_full_line(l),
        1 <= j <= l.len(),
    ensures
        lines_of(t + l.take(j)) == lines_of(t).push(l.take(j)),
    decreases j,
{
    let r = lines_of(t);
    if j == 1 {
        if t.len() > 0 {
            lemma_last_line(t);
        }
        assert((t + l.take(1)).drop_last() =~= t);
        assert(seq![l[0]] =~= l.take(1));
    } else {
        lemma_lines_append_prefix(t, l, j - 1);
        assert((t + l.take(j)).drop_last() =~= t + l.take(j - 1));
        assert((t + l.take(j)).last() == l[j - 1]);
        assert(l.take(j - 1).last() == l[j - 2]);
        assert(l.take(j - 1).push(l[j - 1]) =~= l.take(j));
        assert(r.push(l.take(j - 1)).update(r.len() as int, l.take(j - 1).push(l[j - 1])) =~= r.push(
            l.take(j),
        ));
    }
}

/// A full line appended to a text that ends a line becomes one more line.
pub(crate) proof fn lemma_lines_append(t: Seq<char>, l: Seq<char>)
    requires
        t.len() == 0 || t.last() == '\n',
        is_full_line(l),
    ensures
        lines_of(t + l) == lines_of(t).push(l),
{
    lemma_lines_append_prefix(t, l, l.len() as int);
    assert(l.take(l.len() as int) =~= l);
}

pub(crate) proof fn lemma_lines_bytes_take(rs: Seq<RecordView>, i: int)
    requires
        0 <= i <= rs.len(),
    ensures
        lines_bytes(rs.map_values(|r: RecordView| encode(r)).take(i)) == lines_len(rs.take(i)),
    decreases i,
{
    let ls = rs.map_values(|r: RecordView| encode(r));
    if i > 0 {
        lemma_lines_bytes_take(rs, i - 1);
        assert(ls.take(i).drop_last() =~= ls.take(i - 1));
        assert(rs.take(i).drop_last() =~= rs.take(i - 1));
    }
}

/// The lines of the engine's own segment text are the records' lines.
pub(crate) proof fn lemma_lines_of_text(rs: Seq<RecordView>)
    requires
        forall|i: int| 0 <= i < rs.len() ==> is_stable_record(#[trigger] rs[i]),
    ensures
        lines_of(text_of(rs)) == rs.map_values(|r: RecordView| encode(r)),
    decreases rs.len(),
{
    if rs.len() == 0 {
        assert(lines_of(text_of(rs)) =~= rs.map_values(|r: RecordView| encode(r)));
    } else {
        let init = rs.drop_last();
        lemma_lines_of_text(init);
        lemma_stable_line(rs.last());
        let t = text_of(init);
        if t.len() > 0 {
            lemma_text_ends_line(init);
        }
        lemma_lines_append(t, encode(rs.last()));
        assert(init.map_values(|r: RecordView| encode(r)).push(encode(rs.last())) =~= rs.map_values(
            |r: RecordView| encode(r),
        ));
    }
}

pub(crate) proof fn lemma_text_ends_line(rs: Seq<RecordView>)
    requires
        forall|i: int| 0 <= i < rs.len() ==> is_stable_record(#[trigger] rs[i]),
        text_of(rs).len() > 0,
    ensures
        text_of(rs).last() == '\n',
    decreases rs.len(),
{
    lemma_stable_line(rs.last());
}

/// Reopening reads back what the engine wrote: a segment that holds the lines of stable
/// records `rs`, one after the other, replays as exactly those records, each at the offset
/// where its line was written; all its lines decode.
pub proof fn lemma_segment_replays_its_records(seg: u64, rs: Seq<RecordView>)
    requires
        forall|i: int| 0 <= i < rs.len() ==> is_stable_record(#[trigger] rs[i]),
        lines_len(rs) <= u64::MAX,
    ensures
        all_lines_decode(text_of(rs)),
        segment_ops(seg, text_of(rs)).len() == rs.len(),
        forall|i: int|
            0 <= i < rs.len() ==> #[trigger] segment_ops(seg, text_of(rs))[i] == (
                rs[i],
                compacted_at(rs, seg, i),
            ),
{
    lemma_lines_of_text(rs);
    let ls = rs.map_values(|r: RecordView| encode(r));
    assert forall|i: int| 0 <= i < rs.len() implies #[trigger] segment_ops(seg, text_of(rs))[i]
        == (rs[i], compacted_at(rs, seg, i)) by {
        lemma_round_trip(rs[i]);
        lemma_lines_bytes_take(rs, i);
    }
    assert forall|i: int| 0 <= i < lines_of(text_of(rs)).len() implies #[trigger] decode(
        lines_of(text_of(rs))[i],
    ) is Some by {
        lemma_round_trip(rs[i]);
    }
}

/// Closing and reopening a segment that the engine wrote from its start: replaying its
/// text gives the index and counter that taking in its stable records `rs` gave, each at
/// the offset where `commit` or `compact` put it (the bytes of the lines before it).
pub proof fn lemma_reopen_written_segment(
    m: Map<Seq<char>, FileIndex>,
    c: u64,
    seg: u64,
    rs: Seq<RecordView>,
)
    requires
        forall|i: int| 0 <= i < rs.len() ==> is_stable_record(#[trigger] rs[i]),
        lines_len(rs) <= u64::MAX,
    ensures
        all_lines_decode(text_of(rs)),
        replay_all(m, c, segment_ops(seg, text_of(rs))) == replay_all(
            m,
            c,
            Seq::new(rs.len(), |i: int| (rs[i], compacted_at(rs, seg, i))),
        ),
{
    lemma_segment_replays_its_records(seg, rs);
    assert(segment_ops(seg, text_of(rs)) =~= Seq::new(
        rs.len(),
        |i: int| (rs[i], compacted_at(rs, seg, i)),
    ));
}

} // verus!
