use rype::coverage::Coverage;
use rype::types::{Error, GlyphID};

fn push_u16(buf: &mut Vec<u8>, v: u16) {
    buf.push((v >> 8) as u8);
    buf.push((v & 0xff) as u8);
}

fn coverage_format1(glyphs: &[u16]) -> Vec<u8> {
    let mut buf = Vec::new();
    push_u16(&mut buf, 1);
    push_u16(&mut buf, glyphs.len() as u16);
    for &g in glyphs {
        push_u16(&mut buf, g);
    }
    buf
}

fn coverage_format2(ranges: &[(u16, u16, u16)]) -> Vec<u8> {
    let mut buf = Vec::new();
    push_u16(&mut buf, 2);
    push_u16(&mut buf, ranges.len() as u16);
    for &(start, end, index) in ranges {
        push_u16(&mut buf, start);
        push_u16(&mut buf, end);
        push_u16(&mut buf, index);
    }
    buf
}

#[test]
fn list_coverage_round_trip() {
    let buf = coverage_format1(&[5, 9, 20]);
    let cov = Coverage::load(&buf).unwrap();
    assert_eq!(cov.for_glyph(GlyphID(5)), Some(0));
    assert_eq!(cov.for_glyph(GlyphID(9)), Some(1));
    assert_eq!(cov.for_glyph(GlyphID(20)), Some(2));
    assert_eq!(cov.for_glyph(GlyphID(6)), None);
}

#[test]
fn range_coverage_arithmetic() {
    let buf = coverage_format2(&[(100, 110, 50)]);
    let cov = Coverage::load(&buf).unwrap();
    assert_eq!(cov.for_glyph(GlyphID(105)), Some(55));
    assert_eq!(cov.for_glyph(GlyphID(100)), Some(50));
    assert_eq!(cov.for_glyph(GlyphID(110)), Some(60));
    assert_eq!(cov.for_glyph(GlyphID(111)), None);
    assert_eq!(cov.for_glyph(GlyphID(99)), None);
}

#[test]
fn range_coverage_gap_returns_none() {
    let buf = coverage_format2(&[(10, 20, 0), (30, 40, 11)]);
    let cov = Coverage::load(&buf).unwrap();
    // a glyph strictly between the two ranges is uncovered
    assert_eq!(cov.for_glyph(GlyphID(25)), None);
    // glyphs in the second range are still found after skipping the first
    assert_eq!(cov.for_glyph(GlyphID(30)), Some(11));
    assert_eq!(cov.for_glyph(GlyphID(35)), Some(16));
    assert_eq!(cov.for_glyph(GlyphID(40)), Some(21));
    // below the first range and above the last range
    assert_eq!(cov.for_glyph(GlyphID(9)), None);
    assert_eq!(cov.for_glyph(GlyphID(41)), None);
}

#[test]
fn large_glyph_id_is_uncovered() {
    let buf = coverage_format2(&[(0, 0xffff, 0)]);
    let cov = Coverage::load(&buf).unwrap();
    assert_eq!(cov.for_glyph(GlyphID(0xffff)), Some(0xffff));
    assert_eq!(cov.for_glyph(GlyphID(0x1_0000)), None);
    assert_eq!(cov.for_glyph(GlyphID(u32::MAX)), None);
}

#[test]
fn empty_list_coverage() {
    let buf = coverage_format1(&[]);
    let cov = Coverage::load(&buf).unwrap();
    assert_eq!(cov.for_glyph(GlyphID(0)), None);
}

#[test]
fn coverage_bad_format_tag_is_rejected() {
    let mut buf = Vec::new();
    push_u16(&mut buf, 7);
    push_u16(&mut buf, 0);
    assert!(matches!(Coverage::load(&buf), Err(Error::InvalidFormat)));
}

#[test]
fn truncated_list_coverage_is_rejected() {
    let buf = coverage_format1(&[5, 9, 20]);
    for m in 0..buf.len() {
        assert!(Coverage::load(&buf[..m]).is_err(), "length {} accepted", m);
    }
    assert!(Coverage::load(&buf).is_ok());
}

#[test]
fn truncated_range_coverage_is_rejected() {
    let buf = coverage_format2(&[(10, 20, 0), (30, 40, 11)]);
    for m in 0..buf.len() {
        assert!(Coverage::load(&buf[..m]).is_err(), "length {} accepted", m);
    }
    assert!(Coverage::load(&buf).is_ok());
}
