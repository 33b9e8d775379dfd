use rype::classdef::ClassDef;
use rype::types::{Error, GlyphID};

fn push_u16(buf: &mut Vec<u8>, v: u16) {
    buf.push((v >> 8) as u8);
    buf.push((v & 0xff) as u8);
}

fn classdef_format1(start: u16, classes: &[u16]) -> Vec<u8> {
    let mut buf = Vec::new();
    push_u16(&mut buf, 1);
    push_u16(&mut buf, start);
    push_u16(&mut buf, classes.len() as u16);
    for &c in classes {
        push_u16(&mut buf, c);
    }
    buf
}

fn classdef_format2(ranges: &[(u16, u16, u16)]) -> Vec<u8> {
    let mut buf = Vec::new();
    push_u16(&mut buf, 2);
    push_u16(&mut buf, ranges.len() as u16);
    for &(start, end, class) in ranges {
        push_u16(&mut buf, start);
        push_u16(&mut buf, end);
        push_u16(&mut buf, class);
    }
    buf
}

#[test]
fn format1_classes() {
    let buf = classdef_format1(10, &[1, 2, 0]);
    let cd = ClassDef::load(&buf).unwrap();
    assert_eq!(cd.glyph_class(GlyphID(10)), Some(1));
    assert_eq!(cd.glyph_class(GlyphID(11)), Some(2));
    assert_eq!(cd.glyph_class(GlyphID(12)), Some(0));
    // outside the covered span: no class, not class 0
    assert_eq!(cd.glyph_class(GlyphID(9)), None);
    assert_eq!(cd.glyph_class(GlyphID(13)), None);
}

#[test]
fn format2_classes() {
    let buf = classdef_format2(&[(10, 20, 3), (30, 40, 5)]);
    let cd = ClassDef::load(&buf).unwrap();
    assert_eq!(cd.glyph_class(GlyphID(10)), Some(3));
    assert_eq!(cd.glyph_class(GlyphID(20)), Some(3));
    assert_eq!(cd.glyph_class(GlyphID(35)), Some(5));
    assert_eq!(cd.glyph_class(GlyphID(25)), None);
    assert_eq!(cd.glyph_class(GlyphID(9)), None);
    assert_eq!(cd.glyph_class(GlyphID(41)), None);
}

#[test]
fn classdef_bad_format_tag_is_rejected() {
    let mut buf = Vec::new();
    push_u16(&mut buf, 3);
    push_u16(&mut buf, 0);
    assert!(matches!(ClassDef::load(&buf), Err(Error::InvalidFormat)));
}

#[test]
fn truncated_classdefs_are_rejected() {
    let buf1 = classdef_format1(10, &[1, 2, 0]);
    for m in 0..buf1.len() {
        assert!(ClassDef::load(&buf1[..m]).is_err(), "length {} accepted", m);
    }
    assert!(ClassDef::load(&buf1).is_ok());
    let buf2 = classdef_format2(&[(10, 20, 3)]);
    for m in 0..buf2.len() {
        assert!(ClassDef::load(&buf2[..m]).is_err(), "length {} accepted", m);
    }
    assert!(ClassDef::load(&buf2).is_ok());
}
