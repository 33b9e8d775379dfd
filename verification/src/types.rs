//! Shared primitives: glyph identifiers, the decode error, and bounds-checked
//! big-endian field reads over a sub-table byte buffer.

use vstd::prelude::*;

verus! {

/// A glyph identifier. On-disk glyph ids are 16-bit unsigned values; they are
/// widened to 32 bits so that index arithmetic never overflows.
#[derive(Clone, Copy, Debug, PartialEq, Eq, Structural)]
pub struct GlyphID(pub u32);

/// The one failure a sub-table decoder can report: the leading format tag is
/// unrecognized, or a field read would run past the end of the buffer.
#[derive(Clone, Copy, Debug, PartialEq, Eq, Structural)]
pub enum Error {
    InvalidFormat,
}

/// An element of a caller-owned glyph sequence. The matching engines only
/// need each element to yield its glyph identifier.
pub trait GlyphData {
    /// The glyph identifier this element carries.
    spec fn spec_glyph(&self) -> u32;

    fn glyph(&self) -> (g: GlyphID)
        ensures
            g.0 == self.spec_glyph(),
    ;
}

/// A minimal glyph-sequence element: nothing but the identifier itself.
#[derive(Clone, Copy, Debug, PartialEq, Eq, Structural)]
pub struct RawGlyph(pub u32);

impl GlyphData for RawGlyph {
    open spec fn spec_glyph(&self) -> u32 {
        self.0
    }

    fn glyph(&self) -> (g: GlyphID) {
        GlyphID(self.0)
    }
}

/// The glyph identifiers of a sequence of elements, in order.
pub open spec fn glyph_ids<T: GlyphData>(s: Seq<T>) -> Seq<u32> {
    Seq::new(s.len(), |i: int| s[i].spec_glyph())
}

/// The big-endian 16-bit value stored at byte offset `off`.
pub open spec fn be16(d: Seq<u8>, off: int) -> int {
    d[off] * 256 + d[off + 1]
}

/// The `n` big-endian 16-bit values stored consecutively from `start`.
pub open spec fn be16_list(d: Seq<u8>, start: int, n: int) -> Seq<u16> {
    Seq::new(n as nat, |i: int| be16(d, start + 2 * i) as u16)
}

/// Bounds-checked read of a big-endian 16-bit field at byte offset `off`.
pub fn get_u16(data: &[u8], off: usize) -> (r: Result<u16, Error>)
    ensures
        match r {
            Ok(v) => off + 2 <= data@.len() && v as int == be16(data@, off as int),
            Err(_) => off + 2 > data@.len(),
        },
{
    if off >= data.len() || data.len() - off < 2 {
        return Err(Error::InvalidFormat);
    }
    let hi = data[off] as u16;
    let lo = data[off + 1] as u16;
    Ok(hi * 256 + lo)
}

/// Reads `count` consecutive big-endian 16-bit fields starting at `start`.
pub fn load_u16_list(data: &[u8], start: usize, count: usize) -> (r: Result<Vec<u16>, Error>)
    requires
        start + 2 * count <= usize::MAX,
        start <= data@.len(),
    ensures
        match r {
            Ok(v) => data@.len() >= start + 2 * count && v@ == be16_list(
                data@,
                start as int,
                count as int,
            ),
            Err(_) => data@.len() < start + 2 * count,
        },
{
    let mut out: Vec<u16> = Vec::new();
    for i in 0..count
        invariant
            start + 2 * count <= usize::MAX,
            out@.len() == i,
            data@.len() >= start + 2 * i,
            forall|j: int| 0 <= j < i ==> out@[j] as int == be16(data@, start + 2 * j),
    {
        let v = match get_u16(data, start + 2 * i) {
            Ok(v) => v,
            Err(e) => {
                return Err(e);
            },
        };
        out.push(v);
    }
    proof {
        assert(out@ =~= be16_list(data@, start as int, count as int));
    }
    Ok(out)
}

} // verus!
