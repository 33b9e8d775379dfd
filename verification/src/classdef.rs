//! The ClassDef table: classifies glyph ids into small integer classes, the
//! coarser dispatch key of the class-indexed context formats.
//!
//! Wire layout (big-endian):
//! - format 1: `u16 format=1, u16 startGlyphID, u16 glyphCount, glyphCount x
//!   u16 classValue`, one class per consecutive glyph from `startGlyphID`.
//! - format 2: `u16 format=2, u16 classRangeCount, classRangeCount x
//!   (u16 startGlyphID, u16 endGlyphID, u16 class)`.
//!
//! A glyph no entry maps is reported as `None`, not as class 0: an unmapped
//! glyph satisfies no class requirement, not even an explicit requirement of
//! class 0.

use vstd::prelude::*;
use crate::types::{be16, be16_list, get_u16, load_u16_list, Error, GlyphID};

verus! {

/// One record of a format-2 class definition: the glyphs `start_glyph_id ..=
/// end_glyph_id` all belong to `class`.
#[derive(Clone, Copy, Debug, PartialEq, Eq, Structural)]
pub struct ClassRangeRecord {
    pub start_glyph_id: u16,
    pub end_glyph_id: u16,
    pub class: u16,
}

/// A decoded class-definition table.
#[derive(Debug)]
pub enum ClassDef {
    Format1 { start_glyph_id: u16, class_values: Vec<u16> },
    Format2 { ranges: Vec<ClassRangeRecord> },
}

/// The class range record stored at byte offset `off`.
pub open spec fn class_range_record_at(d: Seq<u8>, off: int) -> ClassRangeRecord {
    ClassRangeRecord {
        start_glyph_id: be16(d, off) as u16,
        end_glyph_id: be16(d, off + 2) as u16,
        class: be16(d, off + 4) as u16,
    }
}

/// The `n` class range records stored consecutively from `start`.
pub open spec fn class_range_list(d: Seq<u8>, start: int, n: int) -> Seq<ClassRangeRecord> {
    Seq::new(n as nat, |i: int| class_range_record_at(d, start + 6 * i))
}

/// The bytes `d` hold a complete class-definition table.
pub open spec fn classdef_ok(d: Seq<u8>) -> bool {
    &&& d.len() >= 4
    &&& (be16(d, 0) == 1 || be16(d, 0) == 2)
    &&& (be16(d, 0) == 1 ==> d.len() >= 6 && d.len() >= 6 + 2 * be16(d, 4))
    &&& (be16(d, 0) == 2 ==> d.len() >= 4 + 6 * be16(d, 2))
}

/// `c` is exactly the structure stored in the bytes `d`.
pub open spec fn classdef_decodes(d: Seq<u8>, c: ClassDef) -> bool {
    match c {
        ClassDef::Format1 { start_glyph_id, class_values } => {
            &&& be16(d, 0) == 1
            &&& start_glyph_id as int == be16(d, 2)
            &&& class_values@ == be16_list(d, 6, be16(d, 4))
        },
        ClassDef::Format2 { ranges } => {
            &&& be16(d, 0) == 2
            &&& ranges@ == class_range_list(d, 4, be16(d, 2))
        },
    }
}

/// The number of bytes the table declared at the head of `d` requires.
pub open spec fn classdef_size(d: Seq<u8>) -> int {
    if be16(d, 0) == 1 {
        6 + 2 * be16(d, 4)
    } else {
        4 + 6 * be16(d, 2)
    }
}

/// Truncating a class-definition table to fewer bytes than its declared
/// count requires makes decoding fail — never a silent short read.
pub proof fn lemma_classdef_truncation(d: Seq<u8>, m: int)
    requires
        classdef_ok(d),
        0 <= m < classdef_size(d),
    ensures
        !classdef_ok(d.take(m)),
{
    if m >= 4 {
        assert(be16(d.take(m), 0) == be16(d, 0));
        assert(be16(d.take(m), 2) == be16(d, 2));
    }
    if m >= 6 {
        assert(be16(d.take(m), 4) == be16(d, 4));
    }
}

/// `g` lies within class range `r`.
pub open spec fn class_range_contains(r: ClassRangeRecord, g: u32) -> bool {
    (r.start_glyph_id as u32) <= g && g <= (r.end_glyph_id as u32)
}

/// The class of `g` under a format-2 range list: the class of the first
/// range containing `g`, scanning in order.
pub open spec fn class_range_scan(ranges: Seq<ClassRangeRecord>, g: u32) -> Option<u32>
    decreases ranges.len(),
{
    if ranges.len() == 0 {
        None
    } else if class_range_contains(ranges[0], g) {
        Some(ranges[0].class as u32)
    } else {
        class_range_scan(ranges.drop_first(), g)
    }
}

impl ClassDef {
    /// The class this table assigns to `g`, or `None` if no entry maps `g`.
    pub open spec fn spec_class(&self, g: u32) -> Option<u32> {
        match self {
            ClassDef::Format1 { start_glyph_id, class_values } => {
                if (*start_glyph_id as u32) <= g && g - *start_glyph_id < class_values@.len() {
                    Some(class_values@[g - *start_glyph_id] as u32)
                } else {
                    None
                }
            },
            ClassDef::Format2 { ranges } => class_range_scan(ranges@, g),
        }
    }

    /// Every class number this table can hand out is below `bound`; the
    /// class-indexed context formats dispatch into one rule-set slot per
    /// class number.
    pub open spec fn classes_below(&self, bound: int) -> bool {
        forall|g: u32| (#[trigger] self.spec_class(g)) matches Some(c) ==> (c as int) < bound
    }

    /// Decodes a class-definition table from the head of `data`. Fails with
    /// `InvalidFormat` exactly when the format tag is neither 1 nor 2 or the
    /// declared entries run past the end of the buffer.
    pub fn load(data: &[u8]) -> (r: Result<ClassDef, Error>)
        ensures
            match r {
                Ok(c) => classdef_ok(data@) && classdef_decodes(data@, c),
                Err(_) => !classdef_ok(data@),
            },
    {
        let format = match get_u16(data, 0) {
            Ok(v) => v,
            Err(e) => {
                return Err(e);
            },
        };
        match format {
            1 => {
                let start_glyph_id = match get_u16(data, 2) {
                    Ok(v) => v,
                    Err(e) => {
                        return Err(e);
                    },
                };
                let glyph_count = match get_u16(data, 4) {
                    Ok(v) => v as usize,
                    Err(e) => {
                        return Err(e);
                    },
                };
                let class_values = match load_u16_list(data, 6, glyph_count) {
                    Ok(v) => v,
                    Err(e) => {
                        return Err(e);
                    },
                };
                Ok(ClassDef::Format1 { start_glyph_id, class_values })
            },
            2 => {
                let range_count = match get_u16(data, 2) {
                    Ok(v) => v as usize,
                    Err(e) => {
                        return Err(e);
                    },
                };
                let ranges = match load_class_range_list(data, 4, range_count) {
                    Ok(v) => v,
                    Err(e) => {
                        return Err(e);
                    },
                };
                Ok(ClassDef::Format2 { ranges })
            },
            _ => Err(Error::InvalidFormat),
        }
    }

    /// The class of glyph `g`, or `None` if this table does not map it.
    #[verifier::loop_isolation(false)]
    pub fn glyph_class(&self, g: GlyphID) -> (r: Option<u32>)
        ensures
            r == self.spec_class(g.0),
    {
        match self {
            ClassDef::Format1 { start_glyph_id, class_values } => {
                let start = *start_glyph_id as u32;
                if g.0 >= start {
                    let off = (g.0 - start) as usize;
                    if off < class_values.len() {
                        Some(class_values[off] as u32)
                    } else {
                        None
                    }
                } else {
                    None
                }
            },
            ClassDef::Format2 { ranges } => {
                let n = ranges.len();
                proof {
                    assert(ranges@.skip(0) =~= ranges@);
                }
                for i in 0..n
                    invariant
                        class_range_scan(ranges@, g.0) == class_range_scan(
                            ranges@.skip(i as int),
                            g.0,
                        ),
                {
                    let range = ranges[i];
                    proof {
                        assert(ranges@.skip(i as int).drop_first() =~= ranges@.skip(i + 1));
                        assert(ranges@.skip(i as int)[0] == ranges@[i as int]);
                    }
                    if (range.start_glyph_id as u32) <= g.0 && g.0 <= (range.end_glyph_id as u32) {
                        return Some(range.class as u32);
                    }
                }
                proof {
                    assert(ranges@.skip(n as int) =~= Seq::<ClassRangeRecord>::empty());
                }
                None
            },
        }
    }
}

/// Reads `count` consecutive class range records starting at byte offset
/// `start`.
fn load_class_range_list(data: &[u8], start: usize, count: usize) -> (r: Result<
    Vec<ClassRangeRecord>,
    Error,
>)
    requires
        start + 6 * count <= usize::MAX,
        start <= data@.len(),
    ensures
        match r {
            Ok(v) => data@.len() >= start + 6 * count && v@ == class_range_list(
                data@,
                start as int,
                count as int,
            ),
            Err(_) => data@.len() < start + 6 * count,
        },
{
    let mut out: Vec<ClassRangeRecord> = Vec::new();
    for i in 0..count
        invariant
            start + 6 * count <= usize::MAX,
            out@.len() == i,
            data@.len() >= start + 6 * i,
            forall|j: int| 0 <= j < i ==> out@[j] == class_range_record_at(data@, start + 6 * j),
    {
        let off = start + 6 * i;
        let start_glyph_id = match get_u16(data, off) {
            Ok(v) => v,
            Err(e) => {
                return Err(e);
            },
        };
        let end_glyph_id = match get_u16(data, off + 2) {
            Ok(v) => v,
            Err(e) => {
                return Err(e);
            },
        };
        let class = match get_u16(data, off + 4) {
            Ok(v) => v,
            Err(e) => {
                return Err(e);
            },
        };
        out.push(ClassRangeRecord { start_glyph_id, end_glyph_id, class });
    }
    proof {
        assert(out@ =~= class_range_list(data@, start as int, count as int));
    }
    Ok(out)
}

} // verus!
