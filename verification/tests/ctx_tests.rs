use rype::ctx_lookup::{SequenceContextFormat, SequenceLookupRecord};
use rype::types::{Error, RawGlyph};

fn push_u16(buf: &mut Vec<u8>, v: u16) {
    buf.push((v >> 8) as u8);
    buf.push((v & 0xff) as u8);
}

fn patch_u16(buf: &mut Vec<u8>, pos: usize, v: u16) {
    buf[pos] = (v >> 8) as u8;
    buf[pos + 1] = (v & 0xff) as u8;
}

fn coverage_format1(glyphs: &[u16]) -> Vec<u8> {
    let mut buf = Vec::new();
    push_u16(&mut buf, 1);
    push_u16(&mut buf, glyphs.len() as u16);
    for &g in glyphs {
        push_u16(&mut buf, g);
    }
    buf
}

fn classdef_format1(start: u16, classes: &[u16]) -> Vec<u8> {
    let mut buf = Vec::new();
    push_u16(&mut buf, 1);
    push_u16(&mut buf, start);
    push_u16(&mut buf, classes.len() as u16);
    for &c in classes {
        push_u16(&mut buf, c);
    }
    buf
}

struct Rule {
    inputs: Vec<u16>,
    records: Vec<(u16, u16)>,
}

fn rule_bytes(r: &Rule) -> Vec<u8> {
    let mut b = Vec::new();
    push_u16(&mut b, (r.inputs.len() + 1) as u16);
    push_u16(&mut b, r.records.len() as u16);
    for &g in &r.inputs {
        push_u16(&mut b, g);
    }
    for &(si, li) in &r.records {
        push_u16(&mut b, si);
        push_u16(&mut b, li);
    }
    b
}

fn rule_set_bytes(rules: &[Rule]) -> Vec<u8> {
    let mut b = Vec::new();
    push_u16(&mut b, rules.len() as u16);
    for _ in rules {
        push_u16(&mut b, 0);
    }
    for (i, rule) in rules.iter().enumerate() {
        let off = b.len() as u16;
        patch_u16(&mut b, 2 + 2 * i, off);
        b.extend(rule_bytes(rule));
    }
    b
}

fn seq_ctx1_bytes(cov_glyphs: &[u16], slots: &[Option<Vec<Rule>>]) -> Vec<u8> {
    let mut b = Vec::new();
    push_u16(&mut b, 1);
    push_u16(&mut b, 0);
    push_u16(&mut b, slots.len() as u16);
    for _ in slots {
        push_u16(&mut b, 0);
    }
    let cov_off = b.len() as u16;
    patch_u16(&mut b, 2, cov_off);
    b.extend(coverage_format1(cov_glyphs));
    for (i, slot) in slots.iter().enumerate() {
        if let Some(rules) = slot {
            let off = b.len() as u16;
            patch_u16(&mut b, 6 + 2 * i, off);
            b.extend(rule_set_bytes(rules));
        }
    }
    b
}

fn seq_ctx2_bytes(
    cov_glyphs: &[u16],
    classdef: &[u8],
    slots: &[Option<Vec<Rule>>],
) -> Vec<u8> {
    let mut b = Vec::new();
    push_u16(&mut b, 2);
    push_u16(&mut b, 0);
    push_u16(&mut b, 0);
    push_u16(&mut b, slots.len() as u16);
    for _ in slots {
        push_u16(&mut b, 0);
    }
    let cov_off = b.len() as u16;
    patch_u16(&mut b, 2, cov_off);
    b.extend(coverage_format1(cov_glyphs));
    let cd_off = b.len() as u16;
    patch_u16(&mut b, 4, cd_off);
    b.extend_from_slice(classdef);
    for (i, slot) in slots.iter().enumerate() {
        if let Some(rules) = slot {
            let off = b.len() as u16;
            patch_u16(&mut b, 8 + 2 * i, off);
            b.extend(rule_set_bytes(rules));
        }
    }
    b
}

fn seq_ctx3_bytes(coverages: &[Vec<u16>], records: &[(u16, u16)]) -> Vec<u8> {
    let mut b = Vec::new();
    push_u16(&mut b, 3);
    push_u16(&mut b, coverages.len() as u16);
    push_u16(&mut b, records.len() as u16);
    for _ in coverages {
        push_u16(&mut b, 0);
    }
    for &(si, li) in records {
        push_u16(&mut b, si);
        push_u16(&mut b, li);
    }
    for (i, cov) in coverages.iter().enumerate() {
        let off = b.len() as u16;
        patch_u16(&mut b, 6 + 2 * i, off);
        b.extend(coverage_format1(cov));
    }
    b
}

fn glyphs(ids: &[u32]) -> Vec<RawGlyph> {
    ids.iter().map(|&g| RawGlyph(g)).collect()
}

#[test]
fn format1_first_match_wins() {
    // rule A requires [11] after the anchor, rule B requires nothing;
    // the sequence satisfies both, and A is listed first
    let rule_a = Rule { inputs: vec![11], records: vec![(0, 1)] };
    let rule_b = Rule { inputs: vec![], records: vec![(0, 2)] };
    let buf = seq_ctx1_bytes(&[10], &[Some(vec![rule_a, rule_b])]);
    let ctx = SequenceContextFormat::load(&buf).unwrap();
    let seq = glyphs(&[10, 11]);
    let (recs, consumed) = ctx.apply(&seq, 0).unwrap();
    assert_eq!(recs.len(), 1);
    assert_eq!(recs[0].sequence_index, 0);
    assert_eq!(recs[0].lookup_list_index, 1);
    assert_eq!(consumed, 2);
}

#[test]
fn format1_listing_order_decides() {
    // the same two rules in the other order: the empty rule now wins
    let rule_b = Rule { inputs: vec![], records: vec![(0, 2)] };
    let rule_a = Rule { inputs: vec![11], records: vec![(0, 1)] };
    let buf = seq_ctx1_bytes(&[10], &[Some(vec![rule_b, rule_a])]);
    let ctx = SequenceContextFormat::load(&buf).unwrap();
    let seq = glyphs(&[10, 11]);
    let (recs, consumed) = ctx.apply(&seq, 0).unwrap();
    assert_eq!(recs[0].lookup_list_index, 2);
    assert_eq!(consumed, 1);
}

#[test]
fn format1_insufficient_length_skips_rule() {
    // a rule requiring 3 input glyphs is skipped when only 2 remain,
    // and a shorter rule listed after it can still match
    let long_rule = Rule { inputs: vec![1, 2, 3], records: vec![(0, 1)] };
    let short_rule = Rule { inputs: vec![1, 2], records: vec![(0, 2)] };
    let buf = seq_ctx1_bytes(&[10], &[Some(vec![long_rule, short_rule])]);
    let ctx = SequenceContextFormat::load(&buf).unwrap();
    let seq = glyphs(&[10, 1, 2]);
    let (recs, consumed) = ctx.apply(&seq, 0).unwrap();
    assert_eq!(recs[0].lookup_list_index, 2);
    assert_eq!(consumed, 3);
}

#[test]
fn format1_insufficient_length_alone_means_no_match() {
    let long_rule = Rule { inputs: vec![1, 2, 3], records: vec![(0, 1)] };
    let buf = seq_ctx1_bytes(&[10], &[Some(vec![long_rule])]);
    let ctx = SequenceContextFormat::load(&buf).unwrap();
    let seq = glyphs(&[10, 1, 2]);
    assert!(ctx.apply(&seq, 0).is_none());
}

#[test]
fn format1_uncovered_anchor_and_empty_slot() {
    let rule = Rule { inputs: vec![], records: vec![(0, 1)] };
    let buf = seq_ctx1_bytes(&[10, 20], &[Some(vec![rule]), None]);
    let ctx = SequenceContextFormat::load(&buf).unwrap();
    // anchor not covered at all
    assert!(ctx.apply(&glyphs(&[30]), 0).is_none());
    // anchor covered, but its slot holds no rules
    assert!(ctx.apply(&glyphs(&[20]), 0).is_none());
    // anchor covered with a matching slot
    assert!(ctx.apply(&glyphs(&[10]), 0).is_some());
}

#[test]
fn format2_dispatches_and_compares_by_class() {
    // glyph 10 -> class 1, glyph 11 -> class 2
    let classdef = classdef_format1(10, &[1, 2]);
    let rule = Rule { inputs: vec![2], records: vec![(0, 9)] };
    let buf = seq_ctx2_bytes(&[10], &classdef, &[None, Some(vec![rule]), None]);
    let ctx = SequenceContextFormat::load(&buf).unwrap();
    let (recs, consumed) = ctx.apply(&glyphs(&[10, 11]), 0).unwrap();
    assert_eq!(recs[0].lookup_list_index, 9);
    assert_eq!(consumed, 2);
    // next glyph of the wrong class
    assert!(ctx.apply(&glyphs(&[10, 10]), 0).is_none());
    // next glyph unmapped by the class definition
    assert!(ctx.apply(&glyphs(&[10, 99]), 0).is_none());
}

#[test]
fn format2_unmapped_glyph_fails_explicit_class_zero() {
    // the rule demands class 0 at the next position; a glyph the class
    // definition does not map satisfies no class requirement, even 0
    let classdef = classdef_format1(10, &[1, 0]);
    let rule = Rule { inputs: vec![0], records: vec![(0, 4)] };
    let buf = seq_ctx2_bytes(&[10], &classdef, &[None, Some(vec![rule])]);
    let ctx = SequenceContextFormat::load(&buf).unwrap();
    // glyph 11 is mapped to class 0 explicitly: the rule matches
    assert!(ctx.apply(&glyphs(&[10, 11]), 0).is_some());
    // glyph 99 is unmapped: the rule does not match
    assert!(ctx.apply(&glyphs(&[10, 99]), 0).is_none());
}

#[test]
fn format2_uncovered_anchor_never_dispatches() {
    // glyph 11 has a class, but is not in the coverage: no dispatch
    let classdef = classdef_format1(10, &[1, 1]);
    let rule = Rule { inputs: vec![], records: vec![(0, 4)] };
    let buf = seq_ctx2_bytes(&[10], &classdef, &[None, Some(vec![rule])]);
    let ctx = SequenceContextFormat::load(&buf).unwrap();
    assert!(ctx.apply(&glyphs(&[11]), 0).is_none());
    assert!(ctx.apply(&glyphs(&[10]), 0).is_some());
}

#[test]
fn format3_pure_coverage_matching() {
    let buf = seq_ctx3_bytes(&[vec![1], vec![2], vec![3]], &[(1, 5)]);
    let ctx = SequenceContextFormat::load(&buf).unwrap();
    let (recs, consumed) = ctx.apply(&glyphs(&[1, 2, 3]), 0).unwrap();
    assert_eq!(recs[0].sequence_index, 1);
    assert_eq!(recs[0].lookup_list_index, 5);
    assert_eq!(consumed, 3);
    // failing any one position must not match
    assert!(ctx.apply(&glyphs(&[9, 2, 3]), 0).is_none());
    assert!(ctx.apply(&glyphs(&[1, 9, 3]), 0).is_none());
    assert!(ctx.apply(&glyphs(&[1, 2, 9]), 0).is_none());
    // too few glyphs remaining
    assert!(ctx.apply(&glyphs(&[1, 2]), 0).is_none());
}

#[test]
fn sequence_rule_load() {
    let rule = Rule { inputs: vec![11, 12], records: vec![(0, 1), (2, 3)] };
    let buf = rule_bytes(&rule);
    let loaded = rype::ctx_lookup::SequenceRuleTable::load(&buf).unwrap();
    assert_eq!(loaded.input_seq, vec![11, 12]);
    assert_eq!(loaded.lookup_records.len(), 2);
    assert_eq!(loaded.lookup_records[1].sequence_index, 2);
    assert_eq!(loaded.lookup_records[1].lookup_list_index, 3);
    for m in 0..buf.len() {
        assert!(rype::ctx_lookup::SequenceRuleTable::load(&buf[..m]).is_err());
    }
}

#[test]
fn lookup_record_load() {
    let mut buf = Vec::new();
    push_u16(&mut buf, 3);
    push_u16(&mut buf, 17);
    let rec = SequenceLookupRecord::load(&buf).unwrap();
    assert_eq!(rec.sequence_index, 3);
    assert_eq!(rec.lookup_list_index, 17);
    for m in 0..4 {
        assert!(SequenceLookupRecord::load(&buf[..m]).is_err());
    }
}

#[test]
fn seq_ctx_bad_format_tag_is_rejected() {
    let mut buf = Vec::new();
    push_u16(&mut buf, 4);
    push_u16(&mut buf, 0);
    push_u16(&mut buf, 0);
    assert!(matches!(SequenceContextFormat::load(&buf), Err(Error::InvalidFormat)));
}

#[test]
fn truncated_contexts_are_rejected() {
    let rule = Rule { inputs: vec![11], records: vec![(0, 1)] };
    let buf1 = seq_ctx1_bytes(&[10], &[Some(vec![rule])]);
    for m in 0..buf1.len() {
        assert!(SequenceContextFormat::load(&buf1[..m]).is_err(), "length {} accepted", m);
    }
    assert!(SequenceContextFormat::load(&buf1).is_ok());

    let classdef = classdef_format1(10, &[1, 2]);
    let rule = Rule { inputs: vec![2], records: vec![(0, 9)] };
    let buf2 = seq_ctx2_bytes(&[10], &classdef, &[None, Some(vec![rule])]);
    for m in 0..buf2.len() {
        assert!(SequenceContextFormat::load(&buf2[..m]).is_err(), "length {} accepted", m);
    }
    assert!(SequenceContextFormat::load(&buf2).is_ok());

    let buf3 = seq_ctx3_bytes(&[vec![1], vec![2]], &[(0, 5)]);
    for m in 0..buf3.len() {
        assert!(SequenceContextFormat::load(&buf3[..m]).is_err(), "length {} accepted", m);
    }
    assert!(SequenceContextFormat::load(&buf3).is_ok());
}

#[test]
fn rule_with_zero_glyph_count_is_rejected() {
    // a rule set whose rule declares a glyph count of zero (no anchor)
    let mut b = Vec::new();
    push_u16(&mut b, 1);
    push_u16(&mut b, 0);
    push_u16(&mut b, 1);
    push_u16(&mut b, 0);
    let cov_off = b.len() as u16;
    patch_u16(&mut b, 2, cov_off);
    b.extend(coverage_format1(&[10]));
    let set_off = b.len() as u16;
    patch_u16(&mut b, 6, set_off);
    // rule set with one rule at offset 4
    push_u16(&mut b, 1);
    push_u16(&mut b, 4);
    // the rule: glyphCount = 0
    push_u16(&mut b, 0);
    push_u16(&mut b, 0);
    assert!(matches!(SequenceContextFormat::load(&b), Err(Error::InvalidFormat)));
}
