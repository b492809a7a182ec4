use vstd::prelude::*;

use crate::text::str_eq;

verus! {

/// A point in time, as milliseconds since the Unix epoch.
#[derive(Clone, Copy, Debug, PartialEq, Eq, Structural)]
pub struct Timestamp {
    pub millis: i64,
}

/// A user's review of a course. At most one review is stored per
/// (course, user) pair.
#[derive(Clone, Debug, PartialEq, Eq)]
pub struct Review {
    pub content: String,
    pub course_id: String,
    pub instructor: String,
    pub rating: u32,
    pub timestamp: Timestamp,
    pub user_id: String,
}

impl Default for Review {
    fn default() -> (r: Review)
        ensures
            r.content@ == Seq::<char>::empty(),
            r.course_id@ == Seq::<char>::empty(),
            r.instructor@ == Seq::<char>::empty(),
            r.rating == 0,
            r.timestamp.millis == 0,
            r.user_id@ == Seq::<char>::empty(),
    {
        Review {
            content: String::new(),
            course_id: String::new(),
            instructor: String::new(),
            rating: 0,
            timestamp: Timestamp { millis: 0 },
            user_id: String::new(),
        }
    }
}

/// The review count that a course record starts with.
pub fn zero() -> (r: i32)
    ensures
        r == 0,
{
    0
}

/// What a `"$numberLong"` field of a date wrapper held.
#[derive(Clone, Debug)]
pub enum NumberLong {
    Absent,
    NotText,
    Text(String),
}

/// One entry of a map-shaped timestamp: its key and, when its value is a
/// map, that map's `"$numberLong"` field.
#[derive(Clone, Debug)]
pub struct DateEntry {
    pub key: String,
    pub number_long: NumberLong,
}

/// A timestamp as it arrives: a raw integer of milliseconds, or a map such as
/// `{"$date": {"$numberLong": "1650000000000"}}`.
#[derive(Clone, Debug)]
pub enum RawTimestamp {
    Integer(u64),
    Wrapped(Vec<DateEntry>),
}

/// Why a raw timestamp was refused.
#[derive(Clone, Copy, Debug, PartialEq, Eq, Structural)]
pub enum TimestampError {
    /// The integer does not fit in a signed 64-bit count of milliseconds.
    OutOfRange,
    /// The map held no usable `"$date"` entry.
    Invalid,
}

pub open spec fn is_digit(c: char) -> bool {
    '0' <= c <= '9'
}

pub open spec fn digits_value(s: Seq<char>) -> int
    decreases s.len(),
{
    if s.len() == 0 {
        0
    } else {
        10 * digits_value(s.drop_last()) + (s.last() as int - '0' as int)
    }
}

pub open spec fn all_digits(s: Seq<char>) -> bool {
    forall|i: int| 0 <= i < s.len() ==> is_digit(#[trigger] s[i])
}

/// `s` without its leading sign, if it has one.
pub open spec fn unsigned_part(s: Seq<char>) -> Seq<char> {
    if s.len() > 0 && (s[0] == '-' || s[0] == '+') {
        s.skip(1)
    } else {
        s
    }
}

/// The signed decimal integer that `s` spells (an optional sign, then one or
/// more ASCII digits), when it fits in an `i64`.
pub open spec fn parsed_i64(s: Seq<char>) -> Option<int> {
    let body = unsigned_part(s);
    let v = if s.len() > 0 && s[0] == '-' {
        -digits_value(body)
    } else {
        digits_value(body)
    };
    if body.len() == 0 || !all_digits(body) {
        None
    } else if i64::MIN <= v <= i64::MAX {
        Some(v)
    } else {
        None
    }
}

/// The milliseconds that a map-shaped timestamp names: the last `"$date"`
/// entry with a `"$numberLong"` field decides, and names none unless that
/// field is text spelling an `i64`.
pub open spec fn map_millis(es: Seq<DateEntry>) -> Option<int>
    decreases es.len(),
{
    if es.len() == 0 {
        None
    } else {
        let e = es.last();
        if e.key@ == "$date"@ && !(e.number_long is Absent) {
            match e.number_long {
                NumberLong::Text(t) => parsed_i64(t@),
                _ => None,
            }
        } else {
            map_millis(es.drop_last())
        }
    }
}

proof fn lemma_digits_monotone(s: Seq<char>, k: int)
    requires
        0 <= k <= s.len(),
        all_digits(s),
    ensures
        digits_value(s.take(k)) <= digits_value(s),
        digits_value(s.take(k)) >= 0,
    decreases s.len(),
{
    if s.len() > 0 {
        if k == s.len() {
            assert(s.take(k) =~= s);
            lemma_digits_monotone(s.drop_last(), k - 1);
            assert(s.drop_last().take(k - 1) =~= s.drop_last());
        } else {
            lemma_digits_monotone(s.drop_last(), k);
            assert(s.drop_last().take(k) =~= s.take(k));
            lemma_digits_monotone(s.drop_last(), s.len() - 1);
            assert(s.drop_last().take(s.len() - 1) =~= s.drop_last());
        }
    } else {
        assert(s.take(k) =~= s);
    }
}

/// Reads a signed decimal `i64`, as `str::parse` does.
pub fn parse_i64(s: &str) -> (r: Option<i64>)
    ensures
        r matches Some(v) ==> parsed_i64(s@) == Some(v as int),
        r is None ==> parsed_i64(s@) is None,
{
    let n = s.unicode_len();
    let mut k: usize = 0;
    let mut neg = false;
    if n > 0 {
        let c = s.get_char(0);
        if c == '-' {
            neg = true;
            k = 1;
        } else if c == '+' {
            k = 1;
        }
    }
    let ghost body = unsigned_part(s@);
    assert(body =~= s@.skip(k as int));
    if k == n {
        return None;
    }
    let limit: u128 = 9223372036854775808;
    let mut mag: u128 = 0;
    let mut i: usize = k;
    assert(body.take(0) =~= Seq::<char>::empty());
    while i < n
        invariant
            k <= i <= n,
            n == s@.len(),
            body == s@.skip(k as int),
            body == unsigned_part(s@),
            neg == (s@.len() > 0 && s@[0] == '-'),
            limit == 9223372036854775808,
            mag <= limit,
            mag == digits_value(body.take(i - k)),
            forall|j: int| 0 <= j < i - k ==> is_digit(#[trigger] body[j]),
        decreases n - i,
    {
        let c = s.get_char(i);
        if !('0' <= c && c <= '9') {
            assert(body[i - k] == c);
            assert(!is_digit(body[i - k]));
            assert(!all_digits(body));
            return None;
        }
        let d = (c as u32 - '0' as u32) as u128;
        assert(body.take(i - k + 1).drop_last() =~= body.take(i - k));
        assert(d <= 9);
        assert(mag * 10 + d <= limit * 10 + 9) by (nonlinear_arith)
            requires
                mag <= limit,
                d <= 9,
        ;
        mag = mag * 10 + d;
        i = i + 1;
        if mag > limit {
            proof {
                if all_digits(body) {
                    lemma_digits_monotone(body, i - k);
                }
            }
            return None;
        }
    }
    assert(body.take(n - k) =~= body);
    if neg {
        if mag == limit {
            Some(-9223372036854775807i64 - 1)
        } else {
            Some(-(mag as i64))
        }
    } else if mag < limit {
        Some(mag as i64)
    } else {
        None
    }
}

/// Reads a timestamp that arrives either as an integer of milliseconds or as
/// a `{"$date": {"$numberLong": ...}}` map.
pub fn deserialize_timestamp(raw: &RawTimestamp) -> (r: Result<Timestamp, TimestampError>)
    ensures
        match *raw {
            RawTimestamp::Integer(n) => if n <= i64::MAX as u64 {
                r == Ok::<Timestamp, TimestampError>(Timestamp { millis: n as i64 })
            } else {
                r == Err::<Timestamp, TimestampError>(TimestampError::OutOfRange)
            },
            RawTimestamp::Wrapped(es) => match map_millis(es@) {
                Some(v) => r matches Ok(t) && t.millis == v,
                None => r == Err::<Timestamp, TimestampError>(TimestampError::Invalid),
            },
        },
{
    match raw {
        RawTimestamp::Integer(n) => {
            if *n <= i64::MAX as u64 {
                Ok(Timestamp { millis: *n as i64 })
            } else {
                Err(TimestampError::OutOfRange)
            }
        },
        RawTimestamp::Wrapped(es) => {
            let mut found: Option<i64> = None;
            let mut i: usize = 0;
            assert(es@.take(0) =~= Seq::<DateEntry>::empty());
            while i < es.len()
                invariant
                    i <= es@.len(),
                    match map_millis(es@.take(i as int)) {
                        Some(v) => found matches Some(f) && f == v,
                        None => found is None,
                    },
                decreases es@.len() - i,
            {
                let e = &es[i];
                assert(es@.take(i + 1).drop_last() =~= es@.take(i as int));
                if str_eq(e.key.as_str(), "$date") {
                    match &e.number_long {
                        NumberLong::Absent => {},
                        NumberLong::NotText => {
                            found = None;
                        },
                        NumberLong::Text(t) => {
                            found = parse_i64(t.as_str());
                        },
                    }
                }
                i = i + 1;
            }
            assert(es@.take(es@.len() as int) =~= es@);
            match found {
                Some(v) => Ok(Timestamp { millis: v }),
                None => Err(TimestampError::Invalid),
            }
        },
    }
}

} // verus!
