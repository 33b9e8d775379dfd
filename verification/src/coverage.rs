//! The Coverage table: two on-disk encodings mapping a glyph id to its
//! ordinal coverage index.
//!
//! Wire layout (big-endian):
//! - format 1: `u16 format=1, u16 glyphCount, glyphCount x u16 glyphID`,
//!   the ids sorted strictly ascending; coverage index = position.
//! - format 2: `u16 format=2, u16 rangeCount, rangeCount x (u16 startGlyphID,
//!   u16 endGlyphID, u16 startCoverageIndex)`, ranges sorted ascending and
//!   disjoint; coverage index = startCoverageIndex + (glyph - start).

use vstd::prelude::*;
use crate::types::{be16, be16_list, get_u16, load_u16_list, Error, GlyphID};

verus! {

/// One record of a format-2 coverage table: the glyphs `start_glyph_id ..=
/// end_glyph_id` are covered, with indices counted from
/// `start_coverage_index`.
#[derive(Clone, Copy, Debug, PartialEq, Eq, Structural)]
pub struct RangeRecord {
    pub start_glyph_id: u16,
    pub end_glyph_id: u16,
    pub start_coverage_index: u16,
}

/// A decoded coverage table.
#[derive(Debug)]
pub enum Coverage {
    Format1 { glyphs: Vec<u16> },
    Format2 { ranges: Vec<RangeRecord> },
}

/// The range record stored at byte offset `off`.
pub open spec fn range_record_at(d: Seq<u8>, off: int) -> RangeRecord {
    RangeRecord {
        start_glyph_id: be16(d, off) as u16,
        end_glyph_id: be16(d, off + 2) as u16,
        start_coverage_index: be16(d, off + 4) as u16,
    }
}

/// The `n` range records stored consecutively from `start`.
pub open spec fn range_list(d: Seq<u8>, start: int, n: int) -> Seq<RangeRecord> {
    Seq::new(n as nat, |i: int| range_record_at(d, start + 6 * i))
}

/// The bytes `d` hold a complete coverage table: a recognized format tag and
/// as many entries as the declared count requires.
pub open spec fn coverage_ok(d: Seq<u8>) -> bool {
    &&& d.len() >= 4
    &&& (be16(d, 0) == 1 || be16(d, 0) == 2)
    &&& (be16(d, 0) == 1 ==> d.len() >= 4 + 2 * be16(d, 2))
    &&& (be16(d, 0) == 2 ==> d.len() >= 4 + 6 * be16(d, 2))
}

/// The number of bytes the table declared at the head of `d` requires.
pub open spec fn coverage_size(d: Seq<u8>) -> int {
    if be16(d, 0) == 1 {
        4 + 2 * be16(d, 2)
    } else {
        4 + 6 * be16(d, 2)
    }
}

/// `c` is exactly the structure stored in the bytes `d`.
pub open spec fn coverage_decodes(d: Seq<u8>, c: Coverage) -> bool {
    match c {
        Coverage::Format1 { glyphs } => be16(d, 0) == 1 && glyphs@ == be16_list(d, 4, be16(d, 2)),
        Coverage::Format2 { ranges } => be16(d, 0) == 2 && ranges@ == range_list(d, 4, be16(d, 2)),
    }
}

/// The coverage index of `g` in a format-1 glyph list: the position of its
/// first occurrence, scanning in order.
pub open spec fn list_scan(glyphs: Seq<u16>, g: u32) -> Option<int>
    decreases glyphs.len(),
{
    if glyphs.len() == 0 {
        None
    } else if glyphs[0] as u32 == g {
        Some(0)
    } else {
        match list_scan(glyphs.drop_first(), g) {
            Some(i) => Some(i + 1),
            None => None,
        }
    }
}

/// `g` lies within range `r`.
pub open spec fn range_contains(r: RangeRecord, g: u32) -> bool {
    (r.start_glyph_id as u32) <= g && g <= (r.end_glyph_id as u32)
}

/// The coverage index `r` assigns to a glyph it contains.
pub open spec fn range_index(r: RangeRecord, g: u32) -> int {
    g - r.start_glyph_id + r.start_coverage_index
}

/// The coverage index of `g` in a format-2 range list, scanning in ascending
/// order: ranges ending below `g` are passed over, and the scan stops at the
/// first range whose end reaches `g` — for sorted disjoint ranges no later
/// range can contain `g`.
pub open spec fn range_scan(ranges: Seq<RangeRecord>, g: u32) -> Option<int>
    decreases ranges.len(),
{
    if ranges.len() == 0 {
        None
    } else if (ranges[0].end_glyph_id as u32) < g {
        range_scan(ranges.drop_first(), g)
    } else if (ranges[0].start_glyph_id as u32) > g {
        None
    } else {
        Some(range_index(ranges[0], g))
    }
}

impl Coverage {
    /// The coverage index of `g`, as the scan over the decoded entries
    /// yields it.
    pub open spec fn spec_for_glyph(&self, g: u32) -> Option<int> {
        match self {
            Coverage::Format1 { glyphs } => list_scan(glyphs@, g),
            Coverage::Format2 { ranges } => range_scan(ranges@, g),
        }
    }

    /// The invariant the wire format promises of a coverage table: format-1
    /// ids strictly ascending, format-2 ranges well-formed, ascending and
    /// disjoint.
    pub open spec fn wf(&self) -> bool {
        match self {
            Coverage::Format1 { glyphs } => forall|i: int, j: int|
                0 <= i < j < glyphs@.len() ==> glyphs@[i] < glyphs@[j],
            Coverage::Format2 { ranges } => {
                &&& forall|i: int|
                    0 <= i < ranges@.len() ==> (#[trigger] ranges@[i]).start_glyph_id
                        <= ranges@[i].end_glyph_id
                &&& forall|i: int, j: int|
                    0 <= i < j < ranges@.len() ==> (#[trigger] ranges@[i]).end_glyph_id < (
                    #[trigger] ranges@[j]).start_glyph_id
            },
        }
    }

    /// Decodes a coverage table from the head of `data`. Fails with
    /// `InvalidFormat` exactly when the format tag is neither 1 nor 2 or the
    /// declared entries run past the end of the buffer.
    pub fn load(data: &[u8]) -> (r: Result<Coverage, Error>)
        ensures
            match r {
                Ok(c) => coverage_ok(data@) && coverage_decodes(data@, c),
                Err(_) => !coverage_ok(data@),
            },
    {
        let format = match get_u16(data, 0) {
            Ok(v) => v,
            Err(e) => {
                return Err(e);
            },
        };
        match format {
            1 => {
                let glyph_count = match get_u16(data, 2) {
                    Ok(v) => v as usize,
                    Err(e) => {
                        return Err(e);
                    },
                };
                let glyphs = match load_u16_list(data, 4, glyph_count) {
                    Ok(v) => v,
                    Err(e) => {
                        return Err(e);
                    },
                };
                Ok(Coverage::Format1 { glyphs })
            },
            2 => {
                let range_count = match get_u16(data, 2) {
                    Ok(v) => v as usize,
                    Err(e) => {
                        return Err(e);
                    },
                };
                let ranges = match load_range_list(data, 4, range_count) {
                    Ok(v) => v,
                    Err(e) => {
                        return Err(e);
                    },
                };
                Ok(Coverage::Format2 { ranges })
            },
            _ => Err(Error::InvalidFormat),
        }
    }

    /// The ordinal coverage index of `g`, or `None` if `g` is not covered.
    /// Format 1 scans the glyph list for `g`; format 2 scans the ranges in
    /// ascending order and stops at the first whose end reaches `g`.
    #[verifier::loop_isolation(false)]
    pub fn for_glyph(&self, g: GlyphID) -> (r: Option<usize>)
        ensures
            match r {
                Some(i) => self.spec_for_glyph(g.0) == Some(i as int),
                None => self.spec_for_glyph(g.0) is None,
            },
    {
        match self {
            Coverage::Format1 { glyphs } => {
                for i in 0..glyphs.len()
                    invariant
                        forall|j: int| 0 <= j < i ==> (glyphs@[j] as u32) != g.0,
                {
                    if glyphs[i] as u32 == g.0 {
                        proof {
                            lemma_list_scan_characterizes(glyphs@, g.0);
                        }
                        return Some(i);
                    }
                }
                proof {
                    lemma_list_scan_characterizes(glyphs@, g.0);
                }
                None
            },
            Coverage::Format2 { ranges } => {
                let n = ranges.len();
                proof {
                    assert(ranges@.skip(0) =~= ranges@);
                }
                for i in 0..n
                    invariant
                        range_scan(ranges@, g.0) == range_scan(ranges@.skip(i as int), g.0),
                {
                    let range = ranges[i];
                    proof {
                        assert(ranges@.skip(i as int).drop_first() =~= ranges@.skip(i + 1));
                        assert(ranges@.skip(i as int)[0] == ranges@[i as int]);
                    }
                    if (range.end_glyph_id as u32) < g.0 {
                        // this range lies entirely below g: keep scanning
                    } else if (range.start_glyph_id as u32) > g.0 {
                        // the first range reaching g starts above it: with
                        // ranges sorted ascending, no later range contains g
                        return None;
                    } else {
                        return Some(
                            ((g.0 - range.start_glyph_id as u32) + range.start_coverage_index
                                as u32) as usize,
                        );
                    }
                }
                proof {
                    assert(ranges@.skip(n as int) =~= Seq::<RangeRecord>::empty());
                }
                None
            },
        }
    }
}

/// Reads `count` consecutive range records starting at byte offset `start`.
fn load_range_list(data: &[u8], start: usize, count: usize) -> (r: Result<Vec<RangeRecord>, Error>)
    requires
        start + 6 * count <= usize::MAX,
        start <= data@.len(),
    ensures
        match r {
            Ok(v) => data@.len() >= start + 6 * count && v@ == range_list(
                data@,
                start as int,
                count as int,
            ),
            Err(_) => data@.len() < start + 6 * count,
        },
{
    let mut out: Vec<RangeRecord> = Vec::new();
    for i in 0..count
        invariant
            start + 6 * count <= usize::MAX,
            out@.len() == i,
            data@.len() >= start + 6 * i,
            forall|j: int| 0 <= j < i ==> out@[j] == range_record_at(data@, start + 6 * j),
    {
        let off = start + 6 * i;
        let start_glyph_id = match get_u16(data, off) {
            Ok(v) => v,
            Err(e) => {
                return Err(e);
            },
        };
        let end_glyph_id = match get_u16(data, off + 2) {
            Ok(v) => v,
            Err(e) => {
                return Err(e);
            },
        };
        let start_coverage_index = match get_u16(data, off + 4) {
            Ok(v) => v,
            Err(e) => {
                return Err(e);
            },
        };
        out.push(RangeRecord { start_glyph_id, end_glyph_id, start_coverage_index });
    }
    proof {
        assert(out@ =~= range_list(data@, start as int, count as int));
    }
    Ok(out)
}

/// Truncating a coverage table to fewer bytes than its declared count
/// requires makes decoding fail — never a silent short read.
pub proof fn lemma_coverage_truncation(d: Seq<u8>, m: int)
    requires
        coverage_ok(d),
        0 <= m < coverage_size(d),
    ensures
        !coverage_ok(d.take(m)),
{
    if m >= 4 {
        assert(be16(d.take(m), 0) == be16(d, 0));
        assert(be16(d.take(m), 2) == be16(d, 2));
    }
}

/// The coverage-table offset stored at position `i` of an offset array
/// beginning at `start`.
pub open spec fn coverage_offset_at(d: Seq<u8>, start: int, i: int) -> int {
    be16(d, start + 2 * i)
}

/// Entry `i` of a coverage offset array points at a complete coverage table
/// within `d`.
pub open spec fn coverage_entry_ok(d: Seq<u8>, start: int, i: int) -> bool {
    &&& coverage_offset_at(d, start, i) <= d.len()
    &&& coverage_ok(d.skip(coverage_offset_at(d, start, i)))
}

/// An array of `n` coverage offsets beginning at `start` is complete and
/// every entry points at a complete coverage table.
pub open spec fn coverage_offsets_ok(d: Seq<u8>, start: int, n: int) -> bool {
    &&& d.len() >= start + 2 * n
    &&& forall|i: int| 0 <= i < n ==> coverage_entry_ok(d, start, i)
}

/// `covs` are exactly the coverage tables the offset array points at.
pub open spec fn coverage_list_decodes(d: Seq<u8>, start: int, covs: Seq<Coverage>) -> bool {
    forall|i: int|
        0 <= i < covs.len() ==> coverage_decodes(
            d.skip(coverage_offset_at(d, start, i)),
            #[trigger] covs[i],
        )
}

/// Reads `count` coverage tables through the offset array beginning at
/// `start`; each offset is relative to the start of `data`.
#[verifier::loop_isolation(false)]
pub fn load_coverage_list(data: &[u8], start: usize, count: usize) -> (r: Result<
    Vec<Coverage>,
    Error,
>)
    requires
        start + 2 * count <= usize::MAX,
        start <= data@.len(),
    ensures
        match r {
            Ok(v) => coverage_offsets_ok(data@, start as int, count as int) && v@.len() == count
                && coverage_list_decodes(data@, start as int, v@),
            Err(_) => !coverage_offsets_ok(data@, start as int, count as int),
        },
{
    let mut out: Vec<Coverage> = Vec::new();
    for i in 0..count
        invariant
            out@.len() == i,
            data@.len() >= start + 2 * i,
            forall|j: int| 0 <= j < i ==> coverage_entry_ok(data@, start as int, j),
            forall|j: int|
                0 <= j < i ==> coverage_decodes(
                    data@.skip(coverage_offset_at(data@, start as int, j)),
                    #[trigger] out@[j],
                ),
    {
        let cov_off = match get_u16(data, start + 2 * i) {
            Ok(v) => v as usize,
            Err(e) => {
                return Err(e);
            },
        };
        if cov_off > data.len() {
            proof {
                assert(!coverage_entry_ok(data@, start as int, i as int));
            }
            return Err(Error::InvalidFormat);
        }
        let sub = vstd::slice::slice_subrange(data, cov_off, data.len());
        proof {
            assert(sub@ =~= data@.skip(cov_off as int));
        }
        let cov = match Coverage::load(sub) {
            Ok(v) => v,
            Err(e) => {
                proof {
                    assert(!coverage_entry_ok(data@, start as int, i as int));
                }
                return Err(e);
            },
        };
        out.push(cov);
    }
    Ok(out)
}

/// The list scan finds the first occurrence of `g`: a `Some(i)` result points
/// at `g` with no earlier occurrence, and a `None` result means `g` does not
/// occur at all.
pub proof fn lemma_list_scan_characterizes(glyphs: Seq<u16>, g: u32)
    ensures
        match list_scan(glyphs, g) {
            Some(i) => 0 <= i < glyphs.len() && (glyphs[i] as u32) == g && (forall|j: int|
                0 <= j < i ==> (glyphs[j] as u32) != g),
            None => forall|j: int| 0 <= j < glyphs.len() ==> (glyphs[j] as u32) != g,
        },
    decreases glyphs.len(),
{
    if glyphs.len() > 0 && glyphs[0] as u32 != g {
        let rest = glyphs.drop_first();
        lemma_list_scan_characterizes(rest, g);
        match list_scan(rest, g) {
            Some(i) => {
                assert(glyphs[i + 1] == rest[i]);
                assert forall|j: int| 0 <= j < i + 1 implies (glyphs[j] as u32) != g by {
                    if j > 0 {
                        assert(rest[j - 1] == glyphs[j]);
                    }
                }
            },
            None => {
                assert forall|j: int| 0 <= j < glyphs.len() implies (glyphs[j] as u32) != g by {
                    if j > 0 {
                        assert(rest[j - 1] == glyphs[j]);
                    }
                }
            },
        }
    }
}

/// The range scan is insensitive to everything past the first range whose
/// end reaches the glyph: truncating the list just after that range leaves
/// the result unchanged. This is what makes the ascending-order
/// short-circuit sound.
pub proof fn lemma_range_scan_short_circuit(ranges: Seq<RangeRecord>, g: u32, k: int)
    requires
        0 <= k < ranges.len(),
        (ranges[k].end_glyph_id as u32) >= g,
        forall|j: int| 0 <= j < k ==> ((#[trigger] ranges[j]).end_glyph_id as u32) < g,
    ensures
        range_scan(ranges, g) == range_scan(ranges.take(k + 1), g),
    decreases k,
{
    if k == 0 {
        assert(ranges.take(1)[0] == ranges[0]);
        if (ranges[0].start_glyph_id as u32) > g {
        } else {
        }
    } else {
        assert((ranges[0].end_glyph_id as u32) < g);
        assert(ranges.take(k + 1)[0] == ranges[0]);
        lemma_range_scan_short_circuit(ranges.drop_first(), g, k - 1);
        assert(forall|j: int|
            0 <= j < ranges.drop_first().len() ==> ranges.drop_first()[j] == ranges[j + 1]);
        assert(ranges.take(k + 1).drop_first() =~= ranges.drop_first().take(k));
    }
}

/// A glyph falling strictly between two ranges is reported uncovered as soon
/// as the scan reaches the first range whose end is at or above it.
pub proof fn lemma_range_scan_gap(ranges: Seq<RangeRecord>, g: u32, k: int)
    requires
        0 <= k < ranges.len(),
        (ranges[k].end_glyph_id as u32) >= g,
        (ranges[k].start_glyph_id as u32) > g,
        forall|j: int| 0 <= j < k ==> ((#[trigger] ranges[j]).end_glyph_id as u32) < g,
    ensures
        range_scan(ranges, g) is None,
    decreases k,
{
    if k == 0 {
    } else {
        lemma_range_scan_gap(ranges.drop_first(), g, k - 1);
        assert(forall|j: int|
            0 <= j < ranges.drop_first().len() ==> ranges.drop_first()[j] == ranges[j + 1]);
    }
}

/// For a well-formed coverage table, `for_glyph` is exactly membership: a
/// covered glyph gets its position (format 1) or its range's index
/// arithmetic (format 2), and an uncovered glyph gets `None`.
pub proof fn lemma_for_glyph_characterizes(c: Coverage, g: u32)
    requires
        c.wf(),
    ensures
        match c {
            Coverage::Format1 { glyphs } => match c.spec_for_glyph(g) {
                Some(ci) => 0 <= ci < glyphs@.len() && (glyphs@[ci] as u32) == g,
                None => forall|i: int| 0 <= i < glyphs@.len() ==> ((#[trigger] glyphs@[i]) as u32) != g,
            },
            Coverage::Format2 { ranges } => match c.spec_for_glyph(g) {
                Some(ci) => exists|i: int|
                    0 <= i < ranges@.len() && range_contains(#[trigger] ranges@[i], g) && ci
                        == range_index(ranges@[i], g),
                None => forall|i: int|
                    0 <= i < ranges@.len() ==> !range_contains(#[trigger] ranges@[i], g),
            },
        },
{
    match c {
        Coverage::Format1 { glyphs } => {
            lemma_list_scan_characterizes(glyphs@, g);
        },
        Coverage::Format2 { ranges } => {
            lemma_range_scan_characterizes(ranges@, g);
        },
    }
}

/// For a well-formed range list the scan is exactly membership in some
/// range: it returns that range's index arithmetic when one contains the
/// glyph, and `None` when none does.
pub proof fn lemma_range_scan_characterizes(ranges: Seq<RangeRecord>, g: u32)
    requires
        forall|i: int|
            0 <= i < ranges.len() ==> (#[trigger] ranges[i]).start_glyph_id
                <= ranges[i].end_glyph_id,
        forall|i: int, j: int|
            0 <= i < j < ranges.len() ==> (#[trigger] ranges[i]).end_glyph_id < (
            #[trigger] ranges[j]).start_glyph_id,
    ensures
        match range_scan(ranges, g) {
            Some(ci) => exists|i: int|
                0 <= i < ranges.len() && range_contains(#[trigger] ranges[i], g) && ci
                    == range_index(ranges[i], g),
            None => forall|i: int| 0 <= i < ranges.len() ==> !range_contains(#[trigger] ranges[i], g),
        },
    decreases ranges.len(),
{
    if ranges.len() > 0 {
        if (ranges[0].end_glyph_id as u32) < g {
            let rest = ranges.drop_first();
            lemma_range_scan_characterizes(rest, g);
            match range_scan(rest, g) {
                Some(ci) => {
                    let i = choose|i: int|
                        0 <= i < rest.len() && range_contains(#[trigger] rest[i], g) && ci
                            == range_index(rest[i], g);
                    assert(ranges[i + 1] == rest[i]);
                },
                None => {
                    assert forall|i: int| 0 <= i < ranges.len() implies !range_contains(
                        #[trigger] ranges[i],
                        g,
                    ) by {
                        if i > 0 {
                            assert(rest[i - 1] == ranges[i]);
                        }
                    }
                },
            }
        } else if (ranges[0].start_glyph_id as u32) > g {
            assert forall|i: int| 0 <= i < ranges.len() implies !range_contains(
                #[trigger] ranges[i],
                g,
            ) by {
                if i > 0 {
                    assert(ranges[0].end_glyph_id < ranges[i].start_glyph_id);
                }
            }
        } else {
            assert(range_contains(ranges[0], g));
        }
    }
}

} // verus!
