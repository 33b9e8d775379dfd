use rype::types::{get_u16, Error, GlyphData, GlyphID, RawGlyph};

#[test]
fn get_u16_reads_big_endian() {
    let buf = [0x12u8, 0x34, 0xff, 0x00];
    assert_eq!(get_u16(&buf, 0), Ok(0x1234));
    assert_eq!(get_u16(&buf, 1), Ok(0x34ff));
    assert_eq!(get_u16(&buf, 2), Ok(0xff00));
    assert_eq!(get_u16(&buf, 3), Err(Error::InvalidFormat));
    assert_eq!(get_u16(&buf, 4), Err(Error::InvalidFormat));
    assert_eq!(get_u16(&buf, usize::MAX), Err(Error::InvalidFormat));
    assert_eq!(get_u16(&[], 0), Err(Error::InvalidFormat));
}

#[test]
fn raw_glyph_yields_its_identifier() {
    let g = RawGlyph(0x1_0001);
    assert_eq!(g.glyph(), GlyphID(0x1_0001));
}
