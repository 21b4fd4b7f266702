//! Segment files are named `<N>.log`, `N` a decimal number without leading zero; the
//! other engine leaves `db` or `_sled...` entries behind.
use vstd::prelude::*;
use crate::codec::chars_of;
use crate::error::KvsError;

verus! {

pub open spec fn is_digit(c: char) -> bool {
    '0' <= c && c <= '9'
}

/// The value of a decimal digit.
pub open spec fn digit_of(c: char) -> nat {
    (c as u32 - 48) as nat
}

/// The number that the decimal digits `s` stand for.
pub open spec fn digits_value(s: Seq<char>) -> nat
    decreases s.len(),
{
    if s.len() == 0 {
        0
    } else {
        digits_value(s.drop_last()) * 10 + digit_of(s.last())
    }
}

/// The characters `.log`.
pub open spec fn log_suffix() -> Seq<char> {
    seq!['.', 'l', 'o', 'g']
}

/// Whether `name` is `<N>.log` with `N` a nonzero digit followed by digits.
pub open spec fn is_segment_name(name: Seq<char>) -> bool {
    let n = name.len();
    &&& n >= 5
    &&& name.subrange(n - 4, n as int) == log_suffix()
    &&& '1' <= name[0] && name[0] <= '9'
    &&& forall|i: int| 0 <= i < n - 4 ==> is_digit(#[trigger] name[i])
}

/// The number of a segment name.
pub open spec fn segment_value(name: Seq<char>) -> nat {
    digits_value(name.subrange(0, name.len() - 4))
}

/// Whether `name` is an entry of the other engine: `db`, or a name starting with `_sled`.
pub open spec fn is_other_engine_name(name: Seq<char>) -> bool {
    name == seq!['d', 'b'] || (name.len() >= 5 && name.subrange(0, 5) == seq![
        '_',
        's',
        'l',
        'e',
        'd',
    ])
}

/// The engine whose data a directory holds.
#[derive(Debug, Clone, Copy, PartialEq, Eq, Structural)]
pub enum EngineKind {
    /// Segment files of this store.
    Kvs,
    /// The other engine's files.
    Sled,
}

proof fn lemma_digits_grow(s: Seq<char>, i: int, j: int)
    requires
        0 <= i <= j <= s.len(),
        forall|k: int| 0 <= k < s.len() ==> is_digit(#[trigger] s[k]),
    ensures
        digits_value(s.subrange(0, i)) <= digits_value(s.subrange(0, j)),
    decreases j - i,
{
    if i < j {
        lemma_digits_grow(s, i, j - 1);
        assert(s.subrange(0, j).drop_last() =~= s.subrange(0, j - 1));
    }
}

/// The number of the segment named `name`, when `name` is a segment name whose number
/// fits in a `u64`.
pub fn segment_number(name: &str) -> (r: Option<u64>)
    ensures
        r == (if is_segment_name(name@) && segment_value(name@) <= u64::MAX {
            Some(segment_value(name@) as u64)
        } else {
            None::<u64>
        }),
{
    let cs = chars_of(name);
    let n = cs.len();
    if n < 5 || cs[n - 4] != '.' || cs[n - 3] != 'l' || cs[n - 2] != 'o' || cs[n - 1] != 'g' {
        proof {
            if n >= 5 {
                let t = name@.subrange(n - 4, n as int);
                if t == log_suffix() {
                    assert(t[0] == '.' && t[1] == 'l' && t[2] == 'o' && t[3] == 'g');
                }
            }
        }
        return None;
    }
    assert(name@.subrange(n - 4, n as int) =~= log_suffix());
    if !('1' <= cs[0] && cs[0] <= '9') {
        return None;
    }
    let stem_len = n - 4;
    let ghost stem = name@.subrange(0, stem_len as int);
    let mut value: u64 = 0;
    let mut i: usize = 0;
    while i < stem_len
        invariant
            cs@ == name@,
            n == cs@.len(),
            stem_len == n - 4,
            stem == name@.subrange(0, stem_len as int),
            i <= stem_len,
            forall|k: int| 0 <= k < i ==> is_digit(#[trigger] name@[k]),
            value == digits_value(stem.subrange(0, i as int)),
        decreases stem_len - i,
    {
        let c = cs[i];
        if !('0' <= c && c <= '9') {
            return None;
        }
        let d = (c as u32 - '0' as u32) as u64;
        proof {
            assert(stem.subrange(0, i + 1).drop_last() =~= stem.subrange(0, i as int));
        }
        if value > (u64::MAX - d) / 10 {
            proof {
                assert(digits_value(stem.subrange(0, i + 1)) > u64::MAX) by (nonlinear_arith)
                    requires
                        digits_value(stem.subrange(0, i + 1)) == value * 10 + d,
                        value > (u64::MAX - d) / 10,
                        d <= 9,
                ;
                assert forall|k: int| 0 <= k < i + 1 implies is_digit(#[trigger] stem[k]) by {
                    assert(stem[k] == name@[k]);
                }
                if forall|k: int| 0 <= k < stem.len() ==> is_digit(#[trigger] stem[k]) {
                    lemma_digits_grow(stem, i + 1, stem.len() as int);
                    assert(stem.subrange(0, stem.len() as int) =~= stem);
                }
                if is_segment_name(name@) {
                    assert forall|k: int| 0 <= k < stem.len() implies is_digit(
                        #[trigger] stem[k],
                    ) by {
                        assert(stem[k] == name@[k]);
                    }
                }
            }
            return None;
        }
        value = value * 10 + d;
        i = i + 1;
    }
    proof {
        assert(stem.subrange(0, stem_len as int) =~= stem);
    }
    Some(value)
}

/// Whether `name` is a segment name; numbers too large for a `u64` included.
pub fn is_segment_file(name: &str) -> (r: bool)
    ensures
        r == is_segment_name(name@),
{
    let cs = chars_of(name);
    let n = cs.len();
    if n < 5 || cs[n - 4] != '.' || cs[n - 3] != 'l' || cs[n - 2] != 'o' || cs[n - 1] != 'g' {
        proof {
            if n >= 5 {
                let t = name@.subrange(n - 4, n as int);
                if t == log_suffix() {
                    assert(t[0] == '.' && t[1] == 'l' && t[2] == 'o' && t[3] == 'g');
                }
            }
        }
        return false;
    }
    assert(name@.subrange(n - 4, n as int) =~= log_suffix());
    if !('1' <= cs[0] && cs[0] <= '9') {
        return false;
    }
    let mut i: usize = 0;
    while i < n - 4
        invariant
            cs@ == name@,
            n == cs@.len(),
            n >= 5,
            i <= n - 4,
            forall|k: int| 0 <= k < i ==> is_digit(#[trigger] name@[k]),
        decreases n - 4 - i,
    {
        if !('0' <= cs[i] && cs[i] <= '9') {
            return false;
        }
        i = i + 1;
    }
    true
}

/// Whether `name` is `db` or starts with `_sled`.
pub fn is_other_engine_file(name: &str) -> (r: bool)
    ensures
        r == is_other_engine_name(name@),
{
    let cs = chars_of(name);
    let n = cs.len();
    if n == 2 && cs[0] == 'd' && cs[1] == 'b' {
        assert(name@ =~= seq!['d', 'b']);
        return true;
    }
    if n >= 5 && cs[0] == '_' && cs[1] == 's' && cs[2] == 'l' && cs[3] == 'e' && cs[4] == 'd' {
        assert(name@.subrange(0, 5) =~= seq!['_', 's', 'l', 'e', 'd']);
        return true;
    }
    proof {
        if name@ == seq!['d', 'b'] {
            assert(name@[0] == 'd' && name@[1] == 'b');
        }
        if name@.len() >= 5 {
            let t = name@.subrange(0, 5);
            if t == seq!['_', 's', 'l', 'e', 'd'] {
                assert(t[0] == '_' && t[1] == 's' && t[2] == 'l' && t[3] == 'e' && t[4] == 'd');
            }
        }
    }
    false
}

/// The number of the active segment among the entry names of a directory: the largest
/// segment number, or 0 when there is none.
pub fn latest_segment(names: &Vec<String>) -> (r: u64)
    ensures
        forall|i: int|
            0 <= i < names@.len() ==> (#[trigger] segment_number_of(names@[i]@) matches Some(v)
                ==> v <= r),
        r == 0 || exists|i: int|
            0 <= i < names@.len() && segment_number_of(names@[i]@) == Some(r),
{
    let mut best: u64 = 0;
    let mut i: usize = 0;
    while i < names.len()
        invariant
            i <= names@.len(),
            forall|j: int|
                0 <= j < i ==> (#[trigger] segment_number_of(names@[j]@) matches Some(v) ==> v
                    <= best),
            best == 0 || exists|j: int|
                0 <= j < i && segment_number_of(names@[j]@) == Some(best),
        decreases names@.len() - i,
    {
        match segment_number(names[i].as_str()) {
            Some(v) => {
                if v > best {
                    best = v;
                }
            },
            None => {},
        }
        i = i + 1;
    }
    best
}

/// `segment_number`'s result as a spec function.
pub open spec fn segment_number_of(name: Seq<char>) -> Option<u64> {
    if is_segment_name(name) && segment_value(name) <= u64::MAX {
        Some(segment_value(name) as u64)
    } else {
        None
    }
}

/// Which engine's data the entry names of a directory show: `EngineMismatch` when both
/// kinds are there, nothing when neither is.
pub fn detect_previous_engine(names: &Vec<String>) -> (r: Result<Option<EngineKind>, KvsError>)
    ensures
        ({
            let kvs = exists|i: int| 0 <= i < names@.len() && is_segment_name(#[trigger] names@[i]@);
            let other = exists|i: int|
                0 <= i < names@.len() && is_other_engine_name(#[trigger] names@[i]@);
            r == if kvs && other {
                Err(KvsError::EngineMismatch)
            } else if kvs {
                Ok(Some(EngineKind::Kvs))
            } else if other {
                Ok(Some(EngineKind::Sled))
            } else {
                Ok(None)
            }
        }),
{
    let mut has_kvs = false;
    let mut has_other = false;
    let mut i: usize = 0;
    while i < names.len()
        invariant
            i <= names@.len(),
            has_kvs == exists|j: int| 0 <= j < i && is_segment_name(#[trigger] names@[j]@),
            has_other == exists|j: int| 0 <= j < i && is_other_engine_name(#[trigger] names@[j]@),
        decreases names@.len() - i,
    {
        if is_segment_file(names[i].as_str()) {
            has_kvs = true;
        }
        if is_other_engine_file(names[i].as_str()) {
            has_other = true;
        }
        i = i + 1;
    }
    if has_kvs && has_other {
        Err(KvsError::EngineMismatch)
    } else if has_kvs {
        Ok(Some(EngineKind::Kvs))
    } else if has_other {
        Ok(Some(EngineKind::Sled))
    } else {
        Ok(None)
    }
}

} // verus!
