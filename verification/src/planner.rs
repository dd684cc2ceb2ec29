//! The chunk planner: partition boundaries and their adjustment.
//!
//! A raw boundary is moved forward to the next position that directly
//! follows a record separator (or to the buffer end), so that no
//! partition starts in the middle of a record.  The split lemma below
//! states why that is enough: scanning up to an adjusted boundary and
//! scanning on from it together yield exactly the records of the whole
//! range.

use vstd::prelude::*;
use crate::records::NEWLINE;
use crate::records::lemma_parse_line_props;
use crate::records::spec_lane_records;
use crate::records::spec_parse_line;

verus! {

/// A position at which a record may start: the buffer start, the buffer
/// end, or any position directly after a record separator.
pub open spec fn aligned(data: Seq<u8>, m: int) -> bool {
    ||| m == 0
    ||| m == data.len()
    ||| (0 < m < data.len() && data[m - 1] == NEWLINE)
}

/// Advance a raw boundary to the next aligned position: the first
/// position at or after `raw` that is the buffer start, the buffer end,
/// or directly follows a record separator.
pub fn find_record_start(data: &[u8], raw: usize) -> (r: usize)
    requires
        raw <= data@.len(),
    ensures
        raw <= r <= data@.len(),
        aligned(data@, r as int),
        forall|p: int| raw <= p < r ==> !aligned(data@, p),
{
    if raw == 0 {
        return 0;
    }
    let len = data.len();
    let mut p = raw;
    while p < len && data[p - 1] != NEWLINE
        invariant
            raw <= p <= len,
            0 < raw,
            len == data@.len(),
            forall|q: int| raw <= q < p ==> !aligned(data@, q),
        decreases len - p,
    {
        p = p + 1;
    }
    p
}

/// Scanning with any two limits at or past the buffer end reads the
/// same records: the chain stops at the buffer end either way.
pub proof fn lemma_lane_limit_high(data: Seq<u8>, o: int, c1: int, c2: int)
    requires
        c1 >= data.len(),
        c2 >= data.len(),
    ensures
        spec_lane_records(data, o, c1) == spec_lane_records(data, o, c2),
    decreases (if o < data.len() { data.len() - o } else { 0 }),
{
    if !(o < 0 || o >= c1 || o >= data.len()) || !(o < 0 || o >= c2 || o >= data.len()) {
        match spec_parse_line(data, o) {
            Option::None => {},
            Option::Some((k, v, next)) => {
                lemma_parse_line_props(data, o);
                lemma_lane_limit_high(data, next, c1, c2);
            },
        }
    }
}

/// BOUNDARY ADJUSTMENT CORRECTNESS: an aligned boundary `m` never cuts a
/// record.  Scanning the records starting in `[o, c)` equals scanning
/// those starting in `[o, m)` and then those starting in `[m, c)`, with
/// the two parts simply concatenated — and a malformed record on either
/// side is a malformed record of the whole.
pub proof fn lemma_lane_split(data: Seq<u8>, o: int, m: int, c: int)
    requires
        0 <= o <= m <= c,
        aligned(data, m),
    ensures
        spec_lane_records(data, o, c) == match (
            spec_lane_records(data, o, m),
            spec_lane_records(data, m, c),
        ) {
            (Some(s1), Some(s2)) => Some(s1 + s2),
            _ => None::<Seq<(Seq<u8>, int)>>,
        },
    decreases m - o,
{
    let len = data.len() as int;
    if o >= m {
        assert(spec_lane_records(data, o, m) == Some(Seq::<(Seq<u8>, int)>::empty()));
        if spec_lane_records(data, m, c) is Some {
            let s2 = spec_lane_records(data, m, c)->0;
            assert(Seq::<(Seq<u8>, int)>::empty() + s2 =~= s2);
        }
    } else if o >= len {
        assert(spec_lane_records(data, o, c) == Some(Seq::<(Seq<u8>, int)>::empty()));
        assert(spec_lane_records(data, o, m) == Some(Seq::<(Seq<u8>, int)>::empty()));
        assert(spec_lane_records(data, m, c) == Some(Seq::<(Seq<u8>, int)>::empty()));
        assert(Seq::<(Seq<u8>, int)>::empty() + Seq::<(Seq<u8>, int)>::empty() =~= Seq::<
            (Seq<u8>, int),
        >::empty());
    } else {
        match spec_parse_line(data, o) {
            Option::None => {},
            Option::Some((k, v, next)) => {
                lemma_parse_line_props(data, o);
                if next <= m {
                    lemma_lane_split(data, next, m, c);
                    match (spec_lane_records(data, next, m), spec_lane_records(data, m, c)) {
                        (Option::Some(r1), Option::Some(r2)) => {
                            assert((seq![(k, v)] + r1) + r2 =~= seq![(k, v)] + (r1 + r2));
                        },
                        _ => {},
                    }
                } else if m == len {
                    lemma_lane_limit_high(data, o, m, c);
                    assert(spec_lane_records(data, m, c) == Some(
                        Seq::<(Seq<u8>, int)>::empty(),
                    ));
                    if spec_lane_records(data, o, m) is Some {
                        let s1 = spec_lane_records(data, o, m)->0;
                        assert(s1 + Seq::<(Seq<u8>, int)>::empty() =~= s1);
                    }
                } else {
                    assert(0 < m < len && data[m - 1] == NEWLINE);
                    assert(o <= m - 1 < next - 1);
                    assert(data[m - 1] != NEWLINE);
                    assert(false);
                }
            },
        }
    }
}

} // verus!
