//! The text form of a log record: `set <key> <value>\n` or `rm <key>\n`.
use vstd::prelude::*;
use vstd::string::*;
use crate::error::KvsError;

verus! {

/// One record of a segment.
#[derive(Debug, Clone, PartialEq, Eq)]
pub enum Record {
    /// Assigns a value to a key.
    Put(String, String),
    /// Tombstones a key.
    Remove(String),
}

/// The mathematical form of a record.
pub enum RecordView {
    Put(Seq<char>, Seq<char>),
    Remove(Seq<char>),
}

impl View for Record {
    type V = RecordView;

    open spec fn view(&self) -> RecordView {
        match self {
            Record::Put(k, v) => RecordView::Put(k@, v@),
            Record::Remove(k) => RecordView::Remove(k@),
        }
    }
}

/// The characters `set`.
pub open spec fn set_word() -> Seq<char> {
    seq!['s', 'e', 't']
}

/// The characters `rm`.
pub open spec fn rm_word() -> Seq<char> {
    seq!['r', 'm']
}

/// The line that stands for a record, newline included.
pub open spec fn encode(r: RecordView) -> Seq<char> {
    match r {
        RecordView::Put(k, v) => set_word() + seq![' '] + k + seq![' '] + v + seq!['\n'],
        RecordView::Remove(k) => rm_word() + seq![' '] + k + seq!['\n'],
    }
}

/// The characters with the Unicode `White_Space` property.
pub open spec fn is_white(c: char) -> bool {
    let u = c as u32;
    (0x9 <= u && u <= 0xd) || u == 0x20 || u == 0x85 || u == 0xa0 || u == 0x1680 || (0x2000
        <= u && u <= 0x200a) || u == 0x2028 || u == 0x2029 || u == 0x202f || u == 0x205f || u
        == 0x3000
}

/// `s` without its leading white space.
pub open spec fn trim_start(s: Seq<char>) -> Seq<char>
    decreases s.len(),
{
    if s.len() > 0 && is_white(s[0]) {
        trim_start(s.drop_first())
    } else {
        s
    }
}

/// `s` without its trailing white space.
pub open spec fn trim_end(s: Seq<char>) -> Seq<char>
    decreases s.len(),
{
    if s.len() > 0 && is_white(s.last()) {
        trim_end(s.drop_last())
    } else {
        s
    }
}

/// `s` without white space at either end.
pub open spec fn trim(s: Seq<char>) -> Seq<char> {
    trim_end(trim_start(s))
}

/// The pieces of `s` between occurrences of `sep`; there is always at least one.
pub open spec fn split_on(s: Seq<char>, sep: char) -> Seq<Seq<char>>
    decreases s.len(),
{
    if s.len() == 0 {
        seq![Seq::empty()]
    } else {
        let r = split_on(s.drop_last(), sep);
        if s.last() == sep {
            r.push(Seq::empty())
        } else {
            r.update(r.len() - 1, r.last().push(s.last()))
        }
    }
}

/// The record that a line stands for, if it has one of the two shapes.
pub open spec fn decode(s: Seq<char>) -> Option<RecordView> {
    let toks = split_on(trim(s), ' ');
    if toks.len() == 3 && toks[0] == set_word() {
        Some(RecordView::Put(toks[1], toks[2]))
    } else if toks.len() == 2 && toks[0] == rm_word() {
        Some(RecordView::Remove(toks[1]))
    } else {
        None
    }
}

/// A key or value as the line format admits it: not empty, with no space and no newline.
pub open spec fn is_token(s: Seq<char>) -> bool {
    s.len() > 0 && forall|i: int| 0 <= i < s.len() ==> s[i] != ' ' && s[i] != '\n'
}

/// A token whose last character is not white space, so that trimming a line keeps it whole.
pub open spec fn is_stable_token(s: Seq<char>) -> bool {
    is_token(s) && !is_white(s.last())
}

/// A record whose line decodes back to it.
pub open spec fn is_stable_record(r: RecordView) -> bool {
    match r {
        RecordView::Put(k, v) => is_token(k) && is_stable_token(v),
        RecordView::Remove(k) => is_stable_token(k),
    }
}

proof fn lemma_split_nonempty(s: Seq<char>, sep: char)
    ensures
        split_on(s, sep).len() >= 1,
    decreases s.len(),
{
    if s.len() > 0 {
        lemma_split_nonempty(s.drop_last(), sep);
    }
}

/// Appending a piece without separators extends the last part.
proof fn lemma_split_extend(p: Seq<char>, q: Seq<char>, sep: char)
    requires
        forall|i: int| 0 <= i < q.len() ==> q[i] != sep,
    ensures
        ({
            let r = split_on(p, sep);
            split_on(p + q, sep) == r.update(r.len() - 1, r.last() + q)
        }),
    decreases q.len(),
{
    lemma_split_nonempty(p, sep);
    let r = split_on(p, sep);
    if q.len() == 0 {
        assert(p + q =~= p);
        assert(r.last() + q =~= r.last());
        assert(r.update(r.len() - 1, r.last() + q) =~= r);
    } else {
        let q1 = q.drop_last();
        lemma_split_extend(p, q1, sep);
        assert((p + q).drop_last() =~= p + q1);
        assert((p + q).last() == q.last());
        let r1 = r.update(r.len() - 1, r.last() + q1);
        assert(r1.update(r1.len() - 1, r1.last().push(q.last())) =~= r.update(
            r.len() - 1,
            r.last() + q,
        )) by {
            assert((r.last() + q1).push(q.last()) =~= r.last() + q);
        }
    }
}

/// Appending a separator starts a new, empty part.
proof fn lemma_split_sep(p: Seq<char>, sep: char)
    ensures
        split_on(p.push(sep), sep) == split_on(p, sep).push(Seq::empty()),
{
    assert(p.push(sep).drop_last() =~= p);
}

proof fn lemma_split_three(a: Seq<char>, b: Seq<char>, c: Seq<char>)
    requires
        forall|i: int| 0 <= i < a.len() ==> a[i] != ' ',
        forall|i: int| 0 <= i < b.len() ==> b[i] != ' ',
        forall|i: int| 0 <= i < c.len() ==> c[i] != ' ',
    ensures
        split_on(a + seq![' '] + b + seq![' '] + c, ' ') == seq![a, b, c],
{
    let e = Seq::<char>::empty();
    lemma_split_extend(e, a, ' ');
    assert(e + a =~= a);
    assert(split_on(e, ' ') =~= seq![e]);
    assert(split_on(a, ' ') =~= seq![a]) by {
        assert(seq![e].update(0, e + a) =~= seq![a]);
    }
    lemma_split_sep(a, ' ');
    assert(a + seq![' '] =~= a.push(' '));
    lemma_split_extend(a + seq![' '], b, ' ');
    assert(split_on(a + seq![' '] + b, ' ') =~= seq![a, b]) by {
        assert(seq![a].push(e).update(1, e + b) =~= seq![a, b]);
    }
    lemma_split_sep(a + seq![' '] + b, ' ');
    assert(a + seq![' '] + b + seq![' '] =~= (a + seq![' '] + b).push(' '));
    lemma_split_extend(a + seq![' '] + b + seq![' '], c, ' ');
    assert(seq![a, b].push(e).update(2, e + c) =~= seq![a, b, c]);
}

proof fn lemma_split_two(a: Seq<char>, b: Seq<char>)
    requires
        forall|i: int| 0 <= i < a.len() ==> a[i] != ' ',
        forall|i: int| 0 <= i < b.len() ==> b[i] != ' ',
    ensures
        split_on(a + seq![' '] + b, ' ') == seq![a, b],
{
    let e = Seq::<char>::empty();
    lemma_split_extend(e, a, ' ');
    assert(e + a =~= a);
    assert(split_on(e, ' ') =~= seq![e]);
    assert(split_on(a, ' ') =~= seq![a]) by {
        assert(seq![e].update(0, e + a) =~= seq![a]);
    }
    lemma_split_sep(a, ' ');
    assert(a + seq![' '] =~= a.push(' '));
    lemma_split_extend(a + seq![' '], b, ' ');
    assert(seq![a].push(e).update(1, e + b) =~= seq![a, b]);
}

/// The line of a record, with its newline cut off and its ends trimmed, is the record's
/// fields joined by spaces.
proof fn lemma_trim_line(body: Seq<char>)
    requires
        body.len() > 0,
        !is_white(body[0]),
        !is_white(body.last()),
    ensures
        trim(body.push('\n')) == body,
{
    let line = body.push('\n');
    assert(line[0] == body[0]);
    assert(trim_start(line) == line);
    assert(line.drop_last() =~= body);
    assert(is_white(line.last()));
    assert(trim_end(line) == trim_end(body));
}

/// A stable record's line decodes to the record.
pub proof fn lemma_round_trip(r: RecordView)
    requires
        is_stable_record(r),
    ensures
        decode(encode(r)) == Some(r),
{
    match r {
        RecordView::Put(k, v) => {
            let body = set_word() + seq![' '] + k + seq![' '] + v;
            assert(encode(r) =~= body.push('\n'));
            assert(body[0] == 's');
            assert(body.last() == v.last());
            lemma_trim_line(body);
            lemma_split_three(set_word(), k, v);
        },
        RecordView::Remove(k) => {
            let body = rm_word() + seq![' '] + k;
            assert(encode(r) =~= body.push('\n'));
            assert(body[0] == 'r');
            assert(body.last() == k.last());
            lemma_trim_line(body);
            lemma_split_two(rm_word(), k);
        },
    }
}

/// Reads and writes records in their text form.
pub struct LogHelper {}

/// Relies on String's `FromIterator<char>`: the string holds the characters in order.
#[verifier::external_body]
pub(crate) fn string_of(v: &Vec<char>) -> (r: String)
    ensures
        r@ == v@,
{
    v.iter().collect()
}

fn is_white_char(c: char) -> (r: bool)
    ensures
        r == is_white(c),
{
    let u = c as u32;
    (0x9 <= u && u <= 0xd) || u == 0x20 || u == 0x85 || u == 0xa0 || u == 0x1680 || (0x2000 <= u
        && u <= 0x200a) || u == 0x2028 || u == 0x2029 || u == 0x202f || u == 0x205f || u == 0x3000
}

/// The character sequences held by `v`.
pub open spec fn views(v: Seq<Vec<char>>) -> Seq<Seq<char>> {
    v.map_values(|x: Vec<char>| x@)
}

/// The characters of `s`, in order.
pub(crate) fn chars_of(s: &str) -> (r: Vec<char>)
    ensures
        r@ == s@,
{
    let mut out: Vec<char> = Vec::new();
    for c in it: s.chars()
        invariant
            out@ == it.seq().take(it.index() as int),
            it.seq() == s@,
    {
        out.push(c);
    }
    proof {
        assert(out@ =~= s@);
    }
    out
}

/// Where the trimmed part of `s` starts and ends.
fn trim_bounds(s: &Vec<char>) -> (r: (usize, usize))
    ensures
        r.0 <= r.1 <= s@.len(),
        s@.subrange(r.0 as int, r.1 as int) == trim(s@),
{
    let n = s.len();
    let mut lo: usize = 0;
    assert(s@.subrange(0, n as int) =~= s@);
    while lo < n && is_white_char(s[lo])
        invariant
            lo <= n == s@.len(),
            trim_start(s@) == trim_start(s@.subrange(lo as int, n as int)),
        decreases n - lo,
    {
        proof {
            let t = s@.subrange(lo as int, n as int);
            assert(t.drop_first() =~= s@.subrange(lo + 1, n as int));
        }
        lo = lo + 1;
    }
    proof {
        let t = s@.subrange(lo as int, n as int);
        assert(trim_start(t) == t);
    }
    let mut hi: usize = n;
    while hi > lo && is_white_char(s[hi - 1])
        invariant
            lo <= hi <= n == s@.len(),
            trim_end(s@.subrange(lo as int, n as int)) == trim_end(
                s@.subrange(lo as int, hi as int),
            ),
        decreases hi,
    {
        proof {
            let t = s@.subrange(lo as int, hi as int);
            assert(t.drop_last() =~= s@.subrange(lo as int, hi - 1));
        }
        hi = hi - 1;
    }
    (lo, hi)
}

/// The pieces of `s[lo..hi]` between spaces.
fn split_spaces(s: &Vec<char>, lo: usize, hi: usize) -> (r: Vec<Vec<char>>)
    requires
        lo <= hi <= s@.len(),
    ensures
        views(r@) == split_on(s@.subrange(lo as int, hi as int), ' '),
{
    let mut toks: Vec<Vec<char>> = Vec::new();
    let mut cur: Vec<char> = Vec::new();
    let mut i: usize = lo;
    proof {
        assert(s@.subrange(lo as int, lo as int) =~= Seq::<char>::empty());
        assert(views(toks@).push(cur@) =~= seq![Seq::<char>::empty()]);
    }
    while i < hi
        invariant
            lo <= i <= hi <= s@.len(),
            split_on(s@.subrange(lo as int, i as int), ' ') == views(toks@).push(cur@),
        decreases hi - i,
    {
        let c = s[i];
        proof {
            let t = s@.subrange(lo as int, i + 1);
            assert(t.drop_last() =~= s@.subrange(lo as int, i as int));
            assert(t.last() == c);
        }
        if c == ' ' {
            let ghost old_toks = toks@;
            let ghost old_cur = cur@;
            toks.push(cur);
            cur = Vec::new();
            proof {
                assert(views(toks@) =~= views(old_toks).push(old_cur));
                assert(views(toks@).push(cur@) =~= views(old_toks).push(old_cur).push(
                    Seq::empty(),
                ));
            }
        } else {
            let ghost old_cur = cur@;
            cur.push(c);
            proof {
                let r = views(toks@).push(old_cur);
                assert(r.update(r.len() - 1, r.last().push(c)) =~= views(toks@).push(cur@));
            }
        }
        i = i + 1;
    }
    let ghost old_toks = toks@;
    let ghost old_cur = cur@;
    toks.push(cur);
    proof {
        assert(views(toks@) =~= views(old_toks).push(old_cur));
    }
    toks
}

impl LogHelper {
    /// The line for `record`, newline included.
    pub fn serialize(record: &Record) -> (r: Result<String, KvsError>)
        ensures
            r is Ok,
            r.unwrap()@ == encode(record@),
    {
        proof {
            reveal_strlit("set ");
            reveal_strlit("rm ");
            reveal_strlit(" ");
            reveal_strlit("\n");
        }
        match record {
            Record::Put(key, value) => {
                let mut s = String::from_str("set ");
                s.append(key.as_str());
                s.append(" ");
                s.append(value.as_str());
                s.append("\n");
                assert(s@ =~= encode(record@));
                Ok(s)
            },
            Record::Remove(key) => {
                let mut s = String::from_str("rm ");
                s.append(key.as_str());
                s.append("\n");
                assert(s@ =~= encode(record@));
                Ok(s)
            },
        }
    }

    /// The record that a line stands for; `DeserializeError` when the trimmed line is
    /// neither three space-separated pieces starting with `set` nor two starting with `rm`.
    pub fn deserialize(buf: &str) -> (r: Result<Record, KvsError>)
        ensures
            match decode(buf@) {
                Some(rv) => r is Ok && r.unwrap()@ == rv,
                None => r == Err::<Record, KvsError>(KvsError::DeserializeError),
            },
    {
        let cs = chars_of(buf);
        let (lo, hi) = trim_bounds(&cs);
        let toks = split_spaces(&cs, lo, hi);
        let ghost tv = views(toks@);
        proof {
            assert(tv == split_on(trim(buf@), ' '));
            assert forall|i: int| 0 <= i < toks@.len() implies tv[i] == toks@[i]@ by {}
        }
        if toks.len() == 3 && toks[0].len() == 3 && toks[0][0] == 's' && toks[0][1] == 'e'
            && toks[0][2] == 't' {
            assert(tv[0] =~= set_word());
            Ok(Record::Put(string_of(&toks[1]), string_of(&toks[2])))
        } else if toks.len() == 2 && toks[0].len() == 2 && toks[0][0] == 'r' && toks[0][1]
            == 'm' {
            assert(tv[0] =~= rm_word());
            Ok(Record::Remove(string_of(&toks[1])))
        } else {
            proof {
                if toks@.len() == 3 && tv[0] == set_word() {
                    assert(toks@[0]@ == set_word());
                    assert(toks@[0]@.len() == 3);
                    assert(toks@[0]@[0] == 's' && toks@[0]@[1] == 'e' && toks@[0]@[2] == 't');
                }
                if toks@.len() == 2 && tv[0] == rm_word() {
                    assert(toks@[0]@ == rm_word());
                    assert(toks@[0]@[0] == 'r' && toks@[0]@[1] == 'm');
                }
            }
            Err(KvsError::DeserializeError)
        }
    }
}

} // verus!
