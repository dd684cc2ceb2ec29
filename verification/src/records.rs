//! The record grammar and the record scanner.
//!
//! A record is `key;value` followed by a newline (the final record may end
//! at the buffer end instead).  The key is any run of bytes holding
//! neither `;` nor a newline; the value is a signed fixed-point decimal
//! with one or two integer digits and exactly one fractional digit.
//! Values are represented as integers scaled by ten, so `-12.3` becomes
//! `-123`.

use vstd::prelude::*;

verus! {

/// The record separator.
pub const NEWLINE: u8 = 10;

/// The field delimiter between key and value.
pub const DELIM: u8 = 59;

/// The minus sign.
pub const MINUS: u8 = 45;

/// The decimal point.
pub const POINT: u8 = 46;

pub open spec fn is_digit(b: u8) -> bool {
    48 <= b <= 57
}

pub open spec fn digit_val(b: u8) -> int {
    b as int - 48
}

/// Errors of the scanner and of the aggregation table.
///
/// A malformed value or record carries the offset at which the offending
/// record starts.  Failure to obtain the input buffer at all is a concern
/// of the embedding program, which never hands a buffer to the engine in
/// that case.
#[derive(Clone, Copy, PartialEq, Eq, Debug)]
pub enum AggError {
    /// The bytes after the delimiter do not match the fixed-point grammar.
    MalformedNumber { offset: usize },
    /// No delimiter before the record separator or the buffer end, or the
    /// record's value is malformed.
    MalformedRecord { offset: usize },
    /// A new key was seen while every slot of the table was occupied.
    TableCapacityExceeded,
}

/// The value grammar, at offset `o` of `data`: an optional minus sign,
/// one or two integer digits, a point, and exactly one fractional digit.
/// Yields the value in tenths and the offset one past the last digit.
pub open spec fn spec_parse_value(data: Seq<u8>, o: int) -> Option<(int, int)> {
    if o < 0 {
        None
    } else {
        let len = data.len() as int;
        let neg = o < len && data[o] == MINUS;
        let p = if neg { o + 1 } else { o };
        if !(p < len && is_digit(data[p])) {
            None
        } else if p + 1 < len && data[p + 1] == POINT {
            if p + 2 < len && is_digit(data[p + 2]) {
                let m = digit_val(data[p]) * 10 + digit_val(data[p + 2]);
                Some((if neg { -m } else { m }, p + 3))
            } else {
                None
            }
        } else if p + 1 < len && is_digit(data[p + 1]) {
            if p + 2 < len && data[p + 2] == POINT && p + 3 < len && is_digit(data[p + 3]) {
                let m = (digit_val(data[p]) * 10 + digit_val(data[p + 1])) * 10 + digit_val(
                    data[p + 3],
                );
                Some((if neg { -m } else { m }, p + 4))
            } else {
                None
            }
        } else {
            None
        }
    }
}

/// The first delimiter at or after `i`, provided no record separator and
/// no buffer end comes first.
pub open spec fn find_delim(data: Seq<u8>, i: int) -> Option<int>
    decreases data.len() - i,
{
    if i < 0 || i >= data.len() {
        None
    } else if data[i] == DELIM {
        Some(i)
    } else if data[i] == NEWLINE {
        None
    } else {
        find_delim(data, i + 1)
    }
}

/// The record grammar at offset `o`: the key bytes up to the first
/// delimiter, a value matching `spec_parse_value`, and then either a
/// record separator or the buffer end.  Yields the key bytes, the value
/// in tenths, and the offset at which the next record starts (one past
/// the separator).
pub open spec fn spec_parse_line(data: Seq<u8>, o: int) -> Option<(Seq<u8>, int, int)> {
    match find_delim(data, o) {
        None => None,
        Some(d) => match spec_parse_value(data, d + 1) {
            None => None,
            Some((v, e)) => if e == data.len() || data[e] == NEWLINE {
                Some((data.subrange(o, d), v, e + 1))
            } else {
                None
            },
        },
    }
}

pub proof fn lemma_find_delim(data: Seq<u8>, i: int)
    ensures
        match find_delim(data, i) {
            Some(d) => {
                &&& i <= d < data.len()
                &&& data[d] == DELIM
                &&& forall|j: int| i <= j < d ==> data[j] != DELIM && data[j] != NEWLINE
            },
            None => true,
        },
    decreases data.len() - i,
{
    if 0 <= i < data.len() && data[i] != DELIM && data[i] != NEWLINE {
        lemma_find_delim(data, i + 1);
    }
}

/// Shape facts of a well-formed record at `o`: it spans at least five
/// bytes, ends at the buffer end or right after a separator, holds no
/// separator anywhere before that, and its value fits in three digits.
pub proof fn lemma_parse_line_props(data: Seq<u8>, o: int)
    requires
        spec_parse_line(data, o) is Some,
    ensures
        ({
            let (k, v, next) = spec_parse_line(data, o)->0;
            &&& 0 <= o
            &&& o + 5 <= next <= data.len() + 1
            &&& next <= data.len() ==> data[next - 1] == NEWLINE
            &&& forall|j: int| o <= j < next - 1 ==> data[j] != NEWLINE
            &&& -999 <= v <= 999
            &&& k =~= data.subrange(o, next - 1).subrange(0, k.len() as int)
            &&& k.len() == find_delim(data, o)->0 - o
        }),
{
    lemma_find_delim(data, o);
    let d = find_delim(data, o)->0;
    let (v, e) = spec_parse_value(data, d + 1)->0;
    let (k, _vv, next) = spec_parse_line(data, o)->0;
    let p = if data[d + 1] == MINUS { d + 2 } else { d + 1 };
    assert(forall|j: int| o <= j < d ==> data[j] != NEWLINE);
    assert(data[d] == DELIM);
    assert(forall|j: int| p <= j < e ==> data[j] != NEWLINE) by {
        assert(e == p + 3 || e == p + 4);
        assert(is_digit(data[p]) && data[p] != NEWLINE);
        if e == p + 3 {
            assert(data[p + 1] == POINT && is_digit(data[p + 2]));
        } else {
            assert(is_digit(data[p + 1]) && data[p + 2] == POINT && is_digit(data[p + 3]));
        }
    }
    assert(forall|j: int| o <= j < next - 1 ==> data[j] != NEWLINE);
    assert(k =~= data.subrange(o, next - 1).subrange(0, k.len() as int));
}

/// The records whose start offsets lie in `[o, limit)`, chained from `o`:
/// each record hands the scanner the offset of the next.  `None` when a
/// chained record is malformed.
pub open spec fn spec_lane_records(data: Seq<u8>, o: int, limit: int) -> Option<
    Seq<(Seq<u8>, int)>,
>
    decreases (if limit - o >= 0 { limit - o } else { 0 }),
    via lane_records_decreases
{
    if o < 0 || o >= limit || o >= data.len() {
        Some(Seq::empty())
    } else {
        match spec_parse_line(data, o) {
            None => None,
            Some((k, v, next)) => match spec_lane_records(data, next, limit) {
                None => None,
                Some(rest) => Some(seq![(k, v)] + rest),
            },
        }
    }
}

#[via_fn]
proof fn lane_records_decreases(data: Seq<u8>, o: int, limit: int) {
    if !(o < 0 || o >= limit || o >= data.len()) {
        if spec_parse_line(data, o) is Some {
            lemma_parse_line_props(data, o);
        }
    }
}

/// The whole record sequence of the buffer from offset `o` on.
pub open spec fn spec_records(data: Seq<u8>, o: int) -> Option<Seq<(Seq<u8>, int)>> {
    spec_lane_records(data, o, data.len() as int)
}

/// Every record spans at least five bytes, so a scan yields at most a
/// fifth of the bytes as records.
pub proof fn lemma_lane_records_len(data: Seq<u8>, o: int, limit: int)
    requires
        0 <= o,
        spec_lane_records(data, o, limit) is Some,
    ensures
        o <= data.len() ==> 5 * spec_lane_records(data, o, limit)->0.len() <= data.len() + 5 - o,
        o > data.len() ==> spec_lane_records(data, o, limit)->0.len() == 0,
    decreases (if limit - o >= 0 { limit - o } else { 0 }),
{
    if !(o < 0 || o >= limit || o >= data.len()) {
        let (k, v, next) = spec_parse_line(data, o)->0;
        lemma_parse_line_props(data, o);
        lemma_lane_records_len(data, next, limit);
    }
}

/// The initial state of the 32-bit FNV-1a hash.
pub const FNV_OFFSET: u32 = 2166136261;

/// The multiplier of the 32-bit FNV-1a hash.
pub const FNV_PRIME: u32 = 16777619;

/// One byte folded into the 32-bit FNV-1a hash.
pub open spec fn fnv_step(h: u32, b: u8) -> u32 {
    ((((h ^ (b as u32)) as int) * (FNV_PRIME as int)) % 0x1_0000_0000) as u32
}

/// The 32-bit FNV-1a hash of a byte sequence, left to right.
pub open spec fn fnv1a(s: Seq<u8>) -> u32
    decreases s.len(),
{
    if s.len() == 0 {
        FNV_OFFSET
    } else {
        fnv_step(fnv1a(s.drop_last()), s.last())
    }
}

/// One scanned record: the key's byte span and hash, the value in
/// tenths, and the offset at which the next record starts.
pub struct ParseResult {
    pub place_start: usize,
    pub place_end: usize,
    pub place_hash: u32,
    pub val: i32,
    pub next: usize,
}

/// The numeric field parser: reads a signed fixed-point decimal with
/// exactly one fractional digit starting at `offset`, returning the value
/// in tenths and the offset one past the last digit.  Rejects, rather
/// than reading further, any bytes outside the grammar.
pub fn parse_value(data: &[u8], offset: usize) -> (r: Result<(i32, usize), AggError>)
    ensures
        match r {
            Ok((v, end)) => {
                &&& spec_parse_value(data@, offset as int) == Some((v as int, end as int))
                &&& -999 <= v <= 999
                &&& offset < end <= data@.len()
            },
            Err(e) => {
                &&& spec_parse_value(data@, offset as int) is None
                &&& e matches AggError::MalformedNumber { offset: o } && o == offset
            },
        },
{
    let len = data.len();
    let mut p = offset;
    let mut neg = false;
    if p < len && data[p] == MINUS {
        neg = true;
        p = p + 1;
    }
    if !(p < len && 48 <= data[p] && data[p] <= 57) {
        return Err(AggError::MalformedNumber { offset });
    }
    let d1 = (data[p] - 48) as i32;
    if p + 1 < len && data[p + 1] == POINT {
        if p + 2 < len && 48 <= data[p + 2] && data[p + 2] <= 57 {
            let f = (data[p + 2] - 48) as i32;
            let m = d1 * 10 + f;
            Ok((if neg { -m } else { m }, p + 3))
        } else {
            Err(AggError::MalformedNumber { offset })
        }
    } else if p + 1 < len && 48 <= data[p + 1] && data[p + 1] <= 57 {
        if p + 2 < len && data[p + 2] == POINT && p + 3 < len && 48 <= data[p + 3] && data[p + 3]
            <= 57 {
            let d2 = (data[p + 1] - 48) as i32;
            let f = (data[p + 3] - 48) as i32;
            let m = (d1 * 10 + d2) * 10 + f;
            Ok((if neg { -m } else { m }, p + 4))
        } else {
            Err(AggError::MalformedNumber { offset })
        }
    } else {
        Err(AggError::MalformedNumber { offset })
    }
}

/// The record scanner: from a record start, find the delimiter while
/// hashing the key bytes in the same pass, then parse the value and
/// demand a record separator (or the buffer end) after it.  `Ok(None)`
/// signals end of input; an offset inside the buffer yields the record
/// exactly when the record grammar matches there.
pub fn parse_line(data: &[u8], offset: usize) -> (r: Result<Option<ParseResult>, AggError>)
    requires
        data@.len() < usize::MAX,
    ensures
        match r {
            Ok(None) => offset >= data@.len(),
            Ok(Some(pr)) => {
                &&& offset < data@.len()
                &&& spec_parse_line(data@, offset as int) == Some(
                    (
                        data@.subrange(pr.place_start as int, pr.place_end as int),
                        pr.val as int,
                        pr.next as int,
                    ),
                )
                &&& pr.place_start == offset
                &&& pr.place_start <= pr.place_end <= data@.len()
                &&& pr.place_hash == fnv1a(
                    data@.subrange(pr.place_start as int, pr.place_end as int),
                )
                &&& -999 <= pr.val <= 999
                &&& offset + 5 <= pr.next <= data@.len() + 1
            },
            Err(e) => {
                &&& offset < data@.len()
                &&& spec_parse_line(data@, offset as int) is None
                &&& (e is MalformedRecord || e is MalformedNumber)
            },
        },
{
    let len = data.len();
    if offset >= len {
        return Ok(None);
    }
    let mut idx = offset;
    let mut h: u32 = FNV_OFFSET;
    while idx < len && data[idx] != DELIM && data[idx] != NEWLINE
        invariant
            offset <= idx <= len,
            len == data@.len(),
            forall|j: int| offset <= j < idx ==> data@[j] != DELIM && data@[j] != NEWLINE,
            h == fnv1a(data@.subrange(offset as int, idx as int)),
            find_delim(data@, offset as int) == find_delim(data@, idx as int),
        decreases len - idx,
    {
        proof {
            assert(data@.subrange(offset as int, idx as int + 1).drop_last() =~= data@.subrange(
                offset as int,
                idx as int,
            ));
            assert(data@.subrange(offset as int, idx as int + 1).last() == data@[idx as int]);
        }
        h = (((h ^ (data[idx] as u32)) as u64 * (FNV_PRIME as u64)) % 0x1_0000_0000) as u32;
        idx = idx + 1;
    }
    if idx == len || data[idx] == NEWLINE {
        return Err(AggError::MalformedRecord { offset });
    }
    let ghost k = data@.subrange(offset as int, idx as int);
    assert(find_delim(data@, offset as int) == Some(idx as int));
    match parse_value(data, idx + 1) {
        Err(e) => Err(e),
        Ok((v, end)) => {
            if end == len || data[end] == NEWLINE {
                let pr = ParseResult {
                    place_start: offset,
                    place_end: idx,
                    place_hash: h,
                    val: v,
                    next: end + 1,
                };
                proof {
                    lemma_parse_line_props(data@, offset as int);
                }
                Ok(Some(pr))
            } else {
                Err(AggError::MalformedRecord { offset })
            }
        },
    }
}

} // verus!
