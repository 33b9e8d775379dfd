use rype::chained::ChainedSequenceContextFormat;
use rype::types::{Error, RawGlyph};

fn push_u16(buf: &mut Vec<u8>, v: u16) {
    buf.push((v >> 8) as u8);
    buf.push((v & 0xff) as u8);
}

fn patch_u16(buf: &mut Vec<u8>, pos: usize, v: u16) {
    buf[pos] = (v >> 8) as u8;
    buf[pos + 1] = (v & 0xff) as u8;
}

fn coverage_format1(glyphs: &[u16]) -> Vec<u8> {
    let mut buf = Vec::new();
    push_u16(&mut buf, 1);
    push_u16(&mut buf, glyphs.len() as u16);
    for &g in glyphs {
        push_u16(&mut buf, g);
    }
    buf
}

fn classdef_format1(start: u16, classes: &[u16]) -> Vec<u8> {
    let mut buf = Vec::new();
    push_u16(&mut buf, 1);
    push_u16(&mut buf, start);
    push_u16(&mut buf, classes.len() as u16);
    for &c in classes {
        push_u16(&mut buf, c);
    }
    buf
}

struct ChainedRule {
    backtrack: Vec<u16>,
    inputs: Vec<u16>,
    lookahead: Vec<u16>,
    records: Vec<(u16, u16)>,
}

fn chained_rule_bytes(r: &ChainedRule) -> Vec<u8> {
    let mut b = Vec::new();
    push_u16(&mut b, r.backtrack.len() as u16);
    for &g in &r.backtrack {
        push_u16(&mut b, g);
    }
    push_u16(&mut b, (r.inputs.len() + 1) as u16);
    for &g in &r.inputs {
        push_u16(&mut b, g);
    }
    push_u16(&mut b, r.lookahead.len() as u16);
    for &g in &r.lookahead {
        push_u16(&mut b, g);
    }
    push_u16(&mut b, r.records.len() as u16);
    for &(si, li) in &r.records {
        push_u16(&mut b, si);
        push_u16(&mut b, li);
    }
    b
}

fn chained_rule_set_bytes(rules: &[ChainedRule]) -> Vec<u8> {
    let mut b = Vec::new();
    push_u16(&mut b, rules.len() as u16);
    for _ in rules {
        push_u16(&mut b, 0);
    }
    for (i, rule) in rules.iter().enumerate() {
        let off = b.len() as u16;
        patch_u16(&mut b, 2 + 2 * i, off);
        b.extend(chained_rule_bytes(rule));
    }
    b
}

fn chained_ctx1_bytes(cov_glyphs: &[u16], slots: &[Option<Vec<ChainedRule>>]) -> Vec<u8> {
    let mut b = Vec::new();
    push_u16(&mut b, 1);
    push_u16(&mut b, 0);
    push_u16(&mut b, slots.len() as u16);
    for _ in slots {
        push_u16(&mut b, 0);
    }
    let cov_off = b.len() as u16;
    patch_u16(&mut b, 2, cov_off);
    b.extend(coverage_format1(cov_glyphs));
    for (i, slot) in slots.iter().enumerate() {
        if let Some(rules) = slot {
            let off = b.len() as u16;
            patch_u16(&mut b, 6 + 2 * i, off);
            b.extend(chained_rule_set_bytes(rules));
        }
    }
    b
}

fn chained_ctx2_bytes(
    cov_glyphs: &[u16],
    bt_cd: &[u8],
    in_cd: &[u8],
    la_cd: &[u8],
    slots: &[Option<Vec<ChainedRule>>],
) -> Vec<u8> {
    let mut b = Vec::new();
    push_u16(&mut b, 2);
    for _ in 0..4 {
        push_u16(&mut b, 0);
    }
    push_u16(&mut b, slots.len() as u16);
    for _ in slots {
        push_u16(&mut b, 0);
    }
    let cov_off = b.len() as u16;
    patch_u16(&mut b, 2, cov_off);
    b.extend(coverage_format1(cov_glyphs));
    let bt_off = b.len() as u16;
    patch_u16(&mut b, 4, bt_off);
    b.extend_from_slice(bt_cd);
    let in_off = b.len() as u16;
    patch_u16(&mut b, 6, in_off);
    b.extend_from_slice(in_cd);
    let la_off = b.len() as u16;
    patch_u16(&mut b, 8, la_off);
    b.extend_from_slice(la_cd);
    for (i, slot) in slots.iter().enumerate() {
        if let Some(rules) = slot {
            let off = b.len() as u16;
            patch_u16(&mut b, 12 + 2 * i, off);
            b.extend(chained_rule_set_bytes(rules));
        }
    }
    b
}

fn chained_ctx3_bytes(
    bt_covs: &[Vec<u16>],
    in_covs: &[Vec<u16>],
    la_covs: &[Vec<u16>],
    records: &[(u16, u16)],
) -> Vec<u8> {
    let mut b = Vec::new();
    push_u16(&mut b, 3);
    push_u16(&mut b, bt_covs.len() as u16);
    let bt_pos = b.len();
    for _ in bt_covs {
        push_u16(&mut b, 0);
    }
    push_u16(&mut b, in_covs.len() as u16);
    let in_pos = b.len();
    for _ in in_covs {
        push_u16(&mut b, 0);
    }
    push_u16(&mut b, la_covs.len() as u16);
    let la_pos = b.len();
    for _ in la_covs {
        push_u16(&mut b, 0);
    }
    push_u16(&mut b, records.len() as u16);
    for &(si, li) in records {
        push_u16(&mut b, si);
        push_u16(&mut b, li);
    }
    for (i, cov) in bt_covs.iter().enumerate() {
        let off = b.len() as u16;
        patch_u16(&mut b, bt_pos + 2 * i, off);
        b.extend(coverage_format1(cov));
    }
    for (i, cov) in in_covs.iter().enumerate() {
        let off = b.len() as u16;
        patch_u16(&mut b, in_pos + 2 * i, off);
        b.extend(coverage_format1(cov));
    }
    for (i, cov) in la_covs.iter().enumerate() {
        let off = b.len() as u16;
        patch_u16(&mut b, la_pos + 2 * i, off);
        b.extend(coverage_format1(cov));
    }
    b
}

fn glyphs(ids: &[u32]) -> Vec<RawGlyph> {
    ids.iter().map(|&g| RawGlyph(g)).collect()
}

#[test]
fn backtrack_is_compared_in_reverse_order() {
    // sequence [1, 2, 3, 4, 5] with the anchor at index 2: a backtrack
    // list [2, 1] compares seq[1] == 2 then seq[0] == 1 and matches
    let good = ChainedRule {
        backtrack: vec![2, 1],
        inputs: vec![],
        lookahead: vec![],
        records: vec![(0, 7)],
    };
    let buf = chained_ctx1_bytes(&[3], &[Some(vec![good])]);
    let ctx = ChainedSequenceContextFormat::load(&buf).unwrap();
    let seq = glyphs(&[1, 2, 3, 4, 5]);
    let (recs, consumed) = ctx.apply(&seq, 2).unwrap();
    assert_eq!(recs[0].lookup_list_index, 7);
    assert_eq!(consumed, 1);

    // the same list in sequence order [1, 2] must not match
    let bad = ChainedRule {
        backtrack: vec![1, 2],
        inputs: vec![],
        lookahead: vec![],
        records: vec![(0, 7)],
    };
    let buf = chained_ctx1_bytes(&[3], &[Some(vec![bad])]);
    let ctx = ChainedSequenceContextFormat::load(&buf).unwrap();
    assert!(ctx.apply(&seq, 2).is_none());
}

#[test]
fn insufficient_backtrack_always_rejects() {
    // a backtrack list of 3 entries is rejected at every anchor index
    // below 3, whatever the surrounding glyphs hold
    let rule = ChainedRule {
        backtrack: vec![1, 1, 1],
        inputs: vec![],
        lookahead: vec![],
        records: vec![(0, 7)],
    };
    let buf = chained_ctx1_bytes(&[1], &[Some(vec![rule])]);
    let ctx = ChainedSequenceContextFormat::load(&buf).unwrap();
    let seq = glyphs(&[1, 1, 1, 1, 1]);
    assert!(ctx.apply(&seq, 0).is_none());
    assert!(ctx.apply(&seq, 1).is_none());
    assert!(ctx.apply(&seq, 2).is_none());
    // with three glyphs before the anchor it matches
    assert!(ctx.apply(&seq, 3).is_some());
}

#[test]
fn input_and_lookahead_windows() {
    // anchor 3 at index 2, input [4], lookahead [5] over [1, 2, 3, 4, 5]
    let rule = ChainedRule {
        backtrack: vec![2],
        inputs: vec![4],
        lookahead: vec![5],
        records: vec![(1, 8)],
    };
    let buf = chained_ctx1_bytes(&[3], &[Some(vec![rule])]);
    let ctx = ChainedSequenceContextFormat::load(&buf).unwrap();
    let (recs, consumed) = ctx.apply(&glyphs(&[1, 2, 3, 4, 5]), 2).unwrap();
    assert_eq!(recs[0].sequence_index, 1);
    assert_eq!(recs[0].lookup_list_index, 8);
    // the anchor and one input glyph are consumed; lookahead is not
    assert_eq!(consumed, 2);
    // wrong lookahead
    assert!(ctx.apply(&glyphs(&[1, 2, 3, 4, 9]), 2).is_none());
    // lookahead past the end of the sequence
    assert!(ctx.apply(&glyphs(&[1, 2, 3, 4]), 2).is_none());
}

#[test]
fn format2_class_windows() {
    // backtrack classes: glyph 2 -> 5; input classes: glyph 3 -> 1,
    // glyph 4 -> 2; lookahead classes: glyph 5 -> 9
    let bt_cd = classdef_format1(2, &[5]);
    let in_cd = classdef_format1(3, &[1, 2]);
    let la_cd = classdef_format1(5, &[9]);
    let rule = ChainedRule {
        backtrack: vec![5],
        inputs: vec![2],
        lookahead: vec![9],
        records: vec![(0, 3)],
    };
    let buf = chained_ctx2_bytes(&[3], &bt_cd, &in_cd, &la_cd, &[None, Some(vec![rule])]);
    let ctx = ChainedSequenceContextFormat::load(&buf).unwrap();
    let (recs, consumed) = ctx.apply(&glyphs(&[2, 3, 4, 5]), 1).unwrap();
    assert_eq!(recs[0].lookup_list_index, 3);
    assert_eq!(consumed, 2);
    // wrong backtrack class
    assert!(ctx.apply(&glyphs(&[9, 3, 4, 5]), 1).is_none());
    // wrong lookahead class
    assert!(ctx.apply(&glyphs(&[2, 3, 4, 9]), 1).is_none());
}

#[test]
fn format3_coverage_windows() {
    // backtrack coverages nearest-first: position idx-1 in {2}, idx-2 in
    // {1}; input at idx in {3}; lookahead at idx+1 in {4}
    let buf = chained_ctx3_bytes(
        &[vec![2], vec![1]],
        &[vec![3]],
        &[vec![4]],
        &[(0, 6)],
    );
    let ctx = ChainedSequenceContextFormat::load(&buf).unwrap();
    let (recs, consumed) = ctx.apply(&glyphs(&[1, 2, 3, 4]), 2).unwrap();
    assert_eq!(recs[0].lookup_list_index, 6);
    assert_eq!(consumed, 1);
    // backtrack coverages in the wrong order must not match
    let buf = chained_ctx3_bytes(
        &[vec![1], vec![2]],
        &[vec![3]],
        &[vec![4]],
        &[(0, 6)],
    );
    let ctx = ChainedSequenceContextFormat::load(&buf).unwrap();
    assert!(ctx.apply(&glyphs(&[1, 2, 3, 4]), 2).is_none());
}

#[test]
fn format3_insufficient_backtrack_rejects() {
    let buf = chained_ctx3_bytes(&[vec![1]], &[vec![3]], &[], &[(0, 6)]);
    let ctx = ChainedSequenceContextFormat::load(&buf).unwrap();
    // anchor at index 0: no glyph before it
    assert!(ctx.apply(&glyphs(&[3, 4]), 0).is_none());
    assert!(ctx.apply(&glyphs(&[1, 3]), 1).is_some());
}

#[test]
fn chained_rule_load() {
    let rule = ChainedRule {
        backtrack: vec![7],
        inputs: vec![8, 9],
        lookahead: vec![10],
        records: vec![(1, 4)],
    };
    let buf = chained_rule_bytes(&rule);
    let loaded = rype::chained::ChainedSequenceRuleTable::load(&buf).unwrap();
    assert_eq!(loaded.backtrack_glyphs, vec![7]);
    assert_eq!(loaded.input_glyphs, vec![8, 9]);
    assert_eq!(loaded.lookahead_glyphs, vec![10]);
    assert_eq!(loaded.lookup_records.len(), 1);
    assert_eq!(loaded.lookup_records[0].sequence_index, 1);
    assert_eq!(loaded.lookup_records[0].lookup_list_index, 4);
    for m in 0..buf.len() {
        assert!(rype::chained::ChainedSequenceRuleTable::load(&buf[..m]).is_err());
    }
}

#[test]
fn chained_ctx_bad_format_tag_is_rejected() {
    let mut buf = Vec::new();
    push_u16(&mut buf, 9);
    push_u16(&mut buf, 0);
    push_u16(&mut buf, 0);
    assert!(matches!(ChainedSequenceContextFormat::load(&buf), Err(Error::InvalidFormat)));
}

#[test]
fn truncated_chained_contexts_are_rejected() {
    let rule = ChainedRule {
        backtrack: vec![2],
        inputs: vec![4],
        lookahead: vec![5],
        records: vec![(0, 8)],
    };
    let buf1 = chained_ctx1_bytes(&[3], &[Some(vec![rule])]);
    for m in 0..buf1.len() {
        assert!(ChainedSequenceContextFormat::load(&buf1[..m]).is_err(), "length {} accepted", m);
    }
    assert!(ChainedSequenceContextFormat::load(&buf1).is_ok());

    let bt_cd = classdef_format1(2, &[5]);
    let in_cd = classdef_format1(3, &[1, 2]);
    let la_cd = classdef_format1(5, &[9]);
    let rule = ChainedRule {
        backtrack: vec![5],
        inputs: vec![2],
        lookahead: vec![9],
        records: vec![(0, 3)],
    };
    let buf2 = chained_ctx2_bytes(&[3], &bt_cd, &in_cd, &la_cd, &[None, Some(vec![rule])]);
    for m in 0..buf2.len() {
        assert!(ChainedSequenceContextFormat::load(&buf2[..m]).is_err(), "length {} accepted", m);
    }
    assert!(ChainedSequenceContextFormat::load(&buf2).is_ok());

    let buf3 = chained_ctx3_bytes(&[vec![2], vec![1]], &[vec![3]], &[vec![4]], &[(0, 6)]);
    for m in 0..buf3.len() {
        assert!(ChainedSequenceContextFormat::load(&buf3[..m]).is_err(), "length {} accepted", m);
    }
    assert!(ChainedSequenceContextFormat::load(&buf3).is_ok());
}

#[test]
fn chained_rule_with_zero_input_count_is_rejected() {
    let mut b = Vec::new();
    push_u16(&mut b, 1);
    push_u16(&mut b, 0);
    push_u16(&mut b, 1);
    push_u16(&mut b, 0);
    let cov_off = b.len() as u16;
    patch_u16(&mut b, 2, cov_off);
    b.extend(coverage_format1(&[3]));
    let set_off = b.len() as u16;
    patch_u16(&mut b, 6, set_off);
    // rule set with one rule at offset 4
    push_u16(&mut b, 1);
    push_u16(&mut b, 4);
    // the rule: backtrack count 0, then input glyph count 0 (no anchor)
    push_u16(&mut b, 0);
    push_u16(&mut b, 0);
    push_u16(&mut b, 0);
    push_u16(&mut b, 0);
    assert!(matches!(ChainedSequenceContextFormat::load(&b), Err(Error::InvalidFormat)));
}
