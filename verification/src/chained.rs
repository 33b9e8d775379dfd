//! The chained-sequence-context engine: the three sequence-context formats
//! extended with backtrack requirements (matched right-to-left immediately
//! before the anchor) and lookahead requirements (matched immediately after
//! the input span). Backtrack and lookahead are context only: a match still
//! consumes just the anchor and the input glyphs.

use vstd::prelude::*;
use crate::classdef::{classdef_decodes, classdef_ok, ClassDef};
use crate::coverage::{
    coverage_decodes, coverage_list_decodes, coverage_offsets_ok, coverage_ok, load_coverage_list,
    Coverage,
};
use crate::ctx_lookup::{
    class_input_matches, input_matches, load_lookup_records, lookup_records_at,
    SequenceLookupRecord,
};
use crate::types::{be16, be16_list, get_u16, glyph_ids, load_u16_list, Error, GlyphData};

verus! {

/// One candidate rule of a chained sequence context: backtrack, input (after
/// the anchor) and lookahead requirement lists, plus the lookup records
/// fired on a match.
///
/// Wire layout: `u16 backtrackGlyphCount, count x u16; u16 inputGlyphCount
/// (anchor included), (count - 1) x u16; u16 lookaheadGlyphCount, count x
/// u16; u16 seqLookupCount, count x SequenceLookupRecord`.
#[derive(Debug)]
pub struct ChainedSequenceRuleTable {
    pub backtrack_glyphs: Vec<u16>,
    pub input_glyphs: Vec<u16>,
    pub lookahead_glyphs: Vec<u16>,
    pub lookup_records: Vec<SequenceLookupRecord>,
}

/// Byte offset of the input-count field of the chained rule stored in `d`.
pub open spec fn chained_input_off(d: Seq<u8>) -> int {
    2 + 2 * be16(d, 0)
}

/// Byte offset of the lookahead-count field of the chained rule stored in
/// `d`.
pub open spec fn chained_lookahead_off(d: Seq<u8>) -> int {
    chained_input_off(d) + 2 + 2 * (be16(d, chained_input_off(d)) - 1)
}

/// Byte offset of the lookup-record-count field of the chained rule stored
/// in `d`.
pub open spec fn chained_records_off(d: Seq<u8>) -> int {
    chained_lookahead_off(d) + 2 + 2 * be16(d, chained_lookahead_off(d))
}

/// The bytes `d` hold a complete chained rule: an input glyph count of at
/// least one (the anchor) and all four declared lists present.
pub open spec fn chained_rule_ok(d: Seq<u8>) -> bool {
    &&& d.len() >= 2
    &&& d.len() >= chained_input_off(d) + 2
    &&& be16(d, chained_input_off(d)) >= 1
    &&& d.len() >= chained_lookahead_off(d) + 2
    &&& d.len() >= chained_records_off(d) + 2
    &&& d.len() >= chained_records_off(d) + 2 + 4 * be16(d, chained_records_off(d))
}

/// `r` is exactly the chained rule stored in the bytes `d`.
pub open spec fn chained_rule_decodes(d: Seq<u8>, r: ChainedSequenceRuleTable) -> bool {
    &&& r.backtrack_glyphs@ == be16_list(d, 2, be16(d, 0))
    &&& r.input_glyphs@ == be16_list(d, chained_input_off(d) + 2, be16(d, chained_input_off(d)) - 1)
    &&& r.lookahead_glyphs@ == be16_list(
        d,
        chained_lookahead_off(d) + 2,
        be16(d, chained_lookahead_off(d)),
    )
    &&& r.lookup_records@ == lookup_records_at(
        d,
        chained_records_off(d) + 2,
        be16(d, chained_records_off(d)),
    )
}

impl ChainedSequenceRuleTable {
    /// Decodes one chained rule from the head of `data`. A declared input
    /// glyph count of zero is malformed: every rule includes its anchor
    /// glyph.
    pub fn load(data: &[u8]) -> (r: Result<ChainedSequenceRuleTable, Error>)
        ensures
            match r {
                Ok(rule) => chained_rule_ok(data@) && chained_rule_decodes(data@, rule),
                Err(_) => !chained_rule_ok(data@),
            },
    {
        let backtrack_count = match get_u16(data, 0) {
            Ok(v) => v as usize,
            Err(e) => {
                return Err(e);
            },
        };
        let backtrack_glyphs = match load_u16_list(data, 2, backtrack_count) {
            Ok(v) => v,
            Err(e) => {
                return Err(e);
            },
        };
        let input_off = 2 + 2 * backtrack_count;
        let input_count_raw = match get_u16(data, input_off) {
            Ok(v) => v,
            Err(e) => {
                return Err(e);
            },
        };
        if input_count_raw == 0 {
            return Err(Error::InvalidFormat);
        }
        let input_count = (input_count_raw - 1) as usize;
        let input_glyphs = match load_u16_list(data, input_off + 2, input_count) {
            Ok(v) => v,
            Err(e) => {
                return Err(e);
            },
        };
        let lookahead_off = input_off + 2 + 2 * input_count;
        let lookahead_count = match get_u16(data, lookahead_off) {
            Ok(v) => v as usize,
            Err(e) => {
                return Err(e);
            },
        };
        let lookahead_glyphs = match load_u16_list(data, lookahead_off + 2, lookahead_count) {
            Ok(v) => v,
            Err(e) => {
                return Err(e);
            },
        };
        let records_off = lookahead_off + 2 + 2 * lookahead_count;
        let record_count = match get_u16(data, records_off) {
            Ok(v) => v as usize,
            Err(e) => {
                return Err(e);
            },
        };
        let lookup_records = match load_lookup_records(data, records_off + 2, record_count) {
            Ok(v) => v,
            Err(e) => {
                return Err(e);
            },
        };
        Ok(ChainedSequenceRuleTable { backtrack_glyphs, input_glyphs, lookahead_glyphs, lookup_records })
    }
}

/// The number of bytes the chained rule declared at the head of `d`
/// requires.
pub open spec fn chained_rule_size(d: Seq<u8>) -> int {
    chained_records_off(d) + 2 + 4 * be16(d, chained_records_off(d))
}

/// Truncating a chained rule to fewer bytes than its declared counts
/// require makes decoding fail — never a silent short read.
pub proof fn lemma_chained_rule_truncation(d: Seq<u8>, m: int)
    requires
        chained_rule_ok(d),
        0 <= m < chained_rule_size(d),
    ensures
        !chained_rule_ok(d.take(m)),
{
    let t = d.take(m);
    if m >= 2 {
        assert(be16(t, 0) == be16(d, 0));
        assert(chained_input_off(t) == chained_input_off(d));
        if m >= chained_input_off(d) + 2 {
            assert(be16(t, chained_input_off(d)) == be16(d, chained_input_off(d)));
            assert(chained_lookahead_off(t) == chained_lookahead_off(d));
            if m >= chained_lookahead_off(d) + 2 {
                assert(be16(t, chained_lookahead_off(d)) == be16(d, chained_lookahead_off(d)));
                assert(chained_records_off(t) == chained_records_off(d));
                if m >= chained_records_off(d) + 2 {
                    assert(be16(t, chained_records_off(d)) == be16(d, chained_records_off(d)));
                }
            }
        }
    }
}

/// The rule offset stored at position `i` of a chained rule set.
pub open spec fn chained_rule_offset(d: Seq<u8>, i: int) -> int {
    be16(d, 2 + 2 * i)
}

/// Entry `i` of a chained rule set points at a complete chained rule.
pub open spec fn chained_rule_entry_ok(d: Seq<u8>, i: int) -> bool {
    &&& chained_rule_offset(d, i) <= d.len()
    &&& chained_rule_ok(d.skip(chained_rule_offset(d, i)))
}

/// The bytes `d` hold a complete chained rule set.
pub open spec fn chained_rule_set_ok(d: Seq<u8>) -> bool {
    &&& d.len() >= 2 + 2 * be16(d, 0)
    &&& forall|i: int| 0 <= i < be16(d, 0) ==> chained_rule_entry_ok(d, i)
}

/// `rules` are exactly the chained rules the set stored in `d` points at,
/// in on-disk order.
pub open spec fn chained_rule_set_decodes(d: Seq<u8>, rules: Seq<ChainedSequenceRuleTable>) -> bool {
    &&& rules.len() == be16(d, 0)
    &&& forall|i: int|
        0 <= i < rules.len() ==> chained_rule_decodes(
            d.skip(chained_rule_offset(d, i)),
            #[trigger] rules[i],
        )
}

/// Decodes a chained rule set from the head of `data`.
#[verifier::loop_isolation(false)]
fn load_chained_rule_set(data: &[u8]) -> (r: Result<Vec<ChainedSequenceRuleTable>, Error>)
    ensures
        match r {
            Ok(v) => chained_rule_set_ok(data@) && chained_rule_set_decodes(data@, v@),
            Err(_) => !chained_rule_set_ok(data@),
        },
{
    let rule_count = match get_u16(data, 0) {
        Ok(v) => v as usize,
        Err(e) => {
            return Err(e);
        },
    };
    let mut rules: Vec<ChainedSequenceRuleTable> = Vec::new();
    for i in 0..rule_count
        invariant
            rules@.len() == i,
            data@.len() >= 2 + 2 * i,
            forall|j: int| 0 <= j < i ==> chained_rule_entry_ok(data@, j),
            forall|j: int|
                0 <= j < i ==> chained_rule_decodes(
                    data@.skip(chained_rule_offset(data@, j)),
                    #[trigger] rules@[j],
                ),
    {
        let rule_off = match get_u16(data, 2 + 2 * i) {
            Ok(v) => v as usize,
            Err(e) => {
                return Err(e);
            },
        };
        if rule_off > data.len() {
            proof {
                assert(!chained_rule_entry_ok(data@, i as int));
            }
            return Err(Error::InvalidFormat);
        }
        let sub = vstd::slice::slice_subrange(data, rule_off, data.len());
        proof {
            assert(sub@ =~= data@.skip(rule_off as int));
        }
        let rule = match ChainedSequenceRuleTable::load(sub) {
            Ok(v) => v,
            Err(e) => {
                proof {
                    assert(!chained_rule_entry_ok(data@, i as int));
                }
                return Err(e);
            },
        };
        rules.push(rule);
    }
    Ok(rules)
}

/// Slot `i` of a chained rule-set offset array is either absent (offset
/// zero) or points at a complete chained rule set.
pub open spec fn chained_slot_ok(d: Seq<u8>, base: int, i: int) -> bool {
    ||| crate::ctx_lookup::slot_offset(d, base, i) == 0
    ||| (crate::ctx_lookup::slot_offset(d, base, i) <= d.len() && chained_rule_set_ok(
        d.skip(crate::ctx_lookup::slot_offset(d, base, i)),
    ))
}

/// An array of `n` chained rule-set slots beginning at `base` is complete
/// and every present slot points at a complete chained rule set.
pub open spec fn chained_slots_ok(d: Seq<u8>, base: int, n: int) -> bool {
    &&& d.len() >= base + 2 * n
    &&& forall|i: int| 0 <= i < n ==> chained_slot_ok(d, base, i)
}

/// `slot` is exactly what chained slot `i` stores.
pub open spec fn chained_slot_decodes(
    d: Seq<u8>,
    base: int,
    i: int,
    slot: Option<Vec<ChainedSequenceRuleTable>>,
) -> bool {
    match slot {
        None => crate::ctx_lookup::slot_offset(d, base, i) == 0,
        Some(rules) => crate::ctx_lookup::slot_offset(d, base, i) != 0 && chained_rule_set_decodes(
            d.skip(crate::ctx_lookup::slot_offset(d, base, i)),
            rules@,
        ),
    }
}

/// `slots` are exactly the chained rule-set slots of the offset array at
/// `base`.
pub open spec fn chained_slots_decode(
    d: Seq<u8>,
    base: int,
    slots: Seq<Option<Vec<ChainedSequenceRuleTable>>>,
) -> bool {
    forall|i: int| 0 <= i < slots.len() ==> chained_slot_decodes(d, base, i, #[trigger] slots[i])
}

/// Reads `count` chained rule-set slots through the offset array beginning
/// at `base`.
#[verifier::loop_isolation(false)]
fn load_chained_rule_slots(data: &[u8], base: usize, count: usize) -> (r: Result<
    Vec<Option<Vec<ChainedSequenceRuleTable>>>,
    Error,
>)
    requires
        base + 2 * count <= usize::MAX,
        base <= data@.len(),
    ensures
        match r {
            Ok(v) => chained_slots_ok(data@, base as int, count as int) && v@.len() == count
                && chained_slots_decode(data@, base as int, v@),
            Err(_) => !chained_slots_ok(data@, base as int, count as int),
        },
{
    let mut out: Vec<Option<Vec<ChainedSequenceRuleTable>>> = Vec::new();
    for i in 0..count
        invariant
            out@.len() == i,
            data@.len() >= base + 2 * i,
            forall|j: int| 0 <= j < i ==> chained_slot_ok(data@, base as int, j),
            forall|j: int|
                0 <= j < i ==> chained_slot_decodes(data@, base as int, j, #[trigger] out@[j]),
    {
        let slot_off = match get_u16(data, base + 2 * i) {
            Ok(v) => v as usize,
            Err(e) => {
                return Err(e);
            },
        };
        if slot_off == 0 {
            out.push(None);
        } else if slot_off > data.len() {
            proof {
                assert(!chained_slot_ok(data@, base as int, i as int));
            }
            return Err(Error::InvalidFormat);
        } else {
            let sub = vstd::slice::slice_subrange(data, slot_off, data.len());
            proof {
                assert(sub@ =~= data@.skip(slot_off as int));
            }
            let rules = match load_chained_rule_set(sub) {
                Ok(v) => v,
                Err(e) => {
                    proof {
                        assert(!chained_slot_ok(data@, base as int, i as int));
                    }
                    return Err(e);
                },
            };
            out.push(Some(rules));
        }
    }
    Ok(out)
}

/// The glyphs immediately before the anchor satisfy `bt` by identity,
/// compared in reverse order: requirement `j` against the `j + 1`-th glyph
/// before the anchor.
pub open spec fn backtrack_matches(bt: Seq<u16>, before: Seq<u32>) -> bool {
    &&& bt.len() <= before.len()
    &&& forall|j: int|
        0 <= j < bt.len() ==> before[before.len() - 1 - j] == (#[trigger] bt[j]) as u32
}

/// The glyphs immediately before the anchor satisfy `bt` by class, compared
/// in reverse order.
pub open spec fn class_backtrack_matches(cd: ClassDef, bt: Seq<u16>, before: Seq<u32>) -> bool {
    &&& bt.len() <= before.len()
    &&& forall|j: int|
        0 <= j < bt.len() ==> cd.spec_class(before[before.len() - 1 - j]) == Some(
            (#[trigger] bt[j]) as u32,
        )
}

/// The chained rule `r` is satisfied by identity at a position with the
/// glyphs `before` preceding the anchor and `rest` following it.
pub open spec fn chained_rule_matches(
    r: ChainedSequenceRuleTable,
    before: Seq<u32>,
    rest: Seq<u32>,
) -> bool {
    &&& backtrack_matches(r.backtrack_glyphs@, before)
    &&& input_matches(r.input_glyphs@, rest)
    &&& input_matches(r.lookahead_glyphs@, rest.skip(r.input_glyphs@.len() as int))
}

/// The chained rule `r` is satisfied by class, each window against its own
/// class definition.
pub open spec fn chained_class_rule_matches(
    bt_cd: ClassDef,
    in_cd: ClassDef,
    la_cd: ClassDef,
    r: ChainedSequenceRuleTable,
    before: Seq<u32>,
    rest: Seq<u32>,
) -> bool {
    &&& class_backtrack_matches(bt_cd, r.backtrack_glyphs@, before)
    &&& class_input_matches(in_cd, r.input_glyphs@, rest)
    &&& class_input_matches(la_cd, r.lookahead_glyphs@, rest.skip(r.input_glyphs@.len() as int))
}

/// The index of the first chained rule satisfied by identity.
pub open spec fn first_chained_match(
    rules: Seq<ChainedSequenceRuleTable>,
    before: Seq<u32>,
    rest: Seq<u32>,
) -> Option<int>
    decreases rules.len(),
{
    if rules.len() == 0 {
        None
    } else if chained_rule_matches(rules[0], before, rest) {
        Some(0)
    } else {
        match first_chained_match(rules.drop_first(), before, rest) {
            Some(i) => Some(i + 1),
            None => None,
        }
    }
}

/// The index of the first chained rule satisfied by class.
pub open spec fn first_chained_class_match(
    bt_cd: ClassDef,
    in_cd: ClassDef,
    la_cd: ClassDef,
    rules: Seq<ChainedSequenceRuleTable>,
    before: Seq<u32>,
    rest: Seq<u32>,
) -> Option<int>
    decreases rules.len(),
{
    if rules.len() == 0 {
        None
    } else if chained_class_rule_matches(bt_cd, in_cd, la_cd, rules[0], before, rest) {
        Some(0)
    } else {
        match first_chained_class_match(bt_cd, in_cd, la_cd, rules.drop_first(), before, rest) {
            Some(i) => Some(i + 1),
            None => None,
        }
    }
}

/// The first chained identity match is a match with no earlier match;
/// `None` means no rule matches at all.
pub proof fn lemma_first_chained_match_characterizes(
    rules: Seq<ChainedSequenceRuleTable>,
    before: Seq<u32>,
    rest: Seq<u32>,
)
    ensures
        match first_chained_match(rules, before, rest) {
            Some(k) => 0 <= k < rules.len() && chained_rule_matches(rules[k], before, rest) && (
            forall|j: int|
                0 <= j < k ==> !chained_rule_matches(#[trigger] rules[j], before, rest)),
            None => forall|j: int|
                0 <= j < rules.len() ==> !chained_rule_matches(#[trigger] rules[j], before, rest),
        },
    decreases rules.len(),
{
    if rules.len() > 0 && !chained_rule_matches(rules[0], before, rest) {
        let tail = rules.drop_first();
        lemma_first_chained_match_characterizes(tail, before, rest);
        match first_chained_match(tail, before, rest) {
            Some(k) => {
                assert(rules[k + 1] == tail[k]);
                assert forall|j: int| 0 <= j < k + 1 implies !chained_rule_matches(
                    #[trigger] rules[j],
                    before,
                    rest,
                ) by {
                    if j > 0 {
                        assert(tail[j - 1] == rules[j]);
                    }
                }
            },
            None => {
                assert forall|j: int| 0 <= j < rules.len() implies !chained_rule_matches(
                    #[trigger] rules[j],
                    before,
                    rest,
                ) by {
                    if j > 0 {
                        assert(tail[j - 1] == rules[j]);
                    }
                }
            },
        }
    }
}

/// The first chained class match is a match with no earlier match; `None`
/// means no rule matches at all.
pub proof fn lemma_first_chained_class_match_characterizes(
    bt_cd: ClassDef,
    in_cd: ClassDef,
    la_cd: ClassDef,
    rules: Seq<ChainedSequenceRuleTable>,
    before: Seq<u32>,
    rest: Seq<u32>,
)
    ensures
        match first_chained_class_match(bt_cd, in_cd, la_cd, rules, before, rest) {
            Some(k) => 0 <= k < rules.len() && chained_class_rule_matches(
                bt_cd,
                in_cd,
                la_cd,
                rules[k],
                before,
                rest,
            ) && (forall|j: int|
                0 <= j < k ==> !chained_class_rule_matches(
                    bt_cd,
                    in_cd,
                    la_cd,
                    #[trigger] rules[j],
                    before,
                    rest,
                )),
            None => forall|j: int|
                0 <= j < rules.len() ==> !chained_class_rule_matches(
                    bt_cd,
                    in_cd,
                    la_cd,
                    #[trigger] rules[j],
                    before,
                    rest,
                ),
        },
    decreases rules.len(),
{
    if rules.len() > 0 && !chained_class_rule_matches(bt_cd, in_cd, la_cd, rules[0], before, rest) {
        let tail = rules.drop_first();
        lemma_first_chained_class_match_characterizes(bt_cd, in_cd, la_cd, tail, before, rest);
        match first_chained_class_match(bt_cd, in_cd, la_cd, tail, before, rest) {
            Some(k) => {
                assert(rules[k + 1] == tail[k]);
                assert forall|j: int| 0 <= j < k + 1 implies !chained_class_rule_matches(
                    bt_cd,
                    in_cd,
                    la_cd,
                    #[trigger] rules[j],
                    before,
                    rest,
                ) by {
                    if j > 0 {
                        assert(tail[j - 1] == rules[j]);
                    }
                }
            },
            None => {
                assert forall|j: int| 0 <= j < rules.len() implies !chained_class_rule_matches(
                    bt_cd,
                    in_cd,
                    la_cd,
                    #[trigger] rules[j],
                    before,
                    rest,
                ) by {
                    if j > 0 {
                        assert(tail[j - 1] == rules[j]);
                    }
                }
            },
        }
    }
}

/// Backtrack requirements are read right-to-left from the anchor:
/// requirement `j` constrains the glyph at `idx - 1 - j`, so requirement 0
/// names the glyph immediately before the anchor.
pub proof fn lemma_backtrack_direction(bt: Seq<u16>, gs: Seq<u32>, idx: int)
    requires
        0 <= idx <= gs.len(),
        bt.len() <= idx,
    ensures
        backtrack_matches(bt, gs.take(idx)) <==> (forall|j: int|
            0 <= j < bt.len() ==> gs[idx - 1 - j] == (#[trigger] bt[j]) as u32),
{
    let before = gs.take(idx);
    assert(before.len() == idx);
    if backtrack_matches(bt, before) {
        assert forall|j: int| 0 <= j < bt.len() implies gs[idx - 1 - j] == (#[trigger] bt[j])
            as u32 by {
            assert(before[before.len() - 1 - j] == gs[idx - 1 - j]);
        }
    }
    if forall|j: int| 0 <= j < bt.len() ==> gs[idx - 1 - j] == (#[trigger] bt[j]) as u32 {
        assert forall|j: int| 0 <= j < bt.len() implies before[before.len() - 1 - j] == (
        #[trigger] bt[j]) as u32 by {
            assert(before[before.len() - 1 - j] == gs[idx - 1 - j]);
        }
        assert(backtrack_matches(bt, before));
    }
}

/// A chained rule whose backtrack list is longer than the glyphs before the
/// anchor is always rejected, whatever its content — under identity or any
/// class matching.
pub proof fn lemma_insufficient_backtrack_rejected(
    bt_cd: ClassDef,
    in_cd: ClassDef,
    la_cd: ClassDef,
    rules: Seq<ChainedSequenceRuleTable>,
    before: Seq<u32>,
    rest: Seq<u32>,
    k: int,
)
    requires
        0 <= k < rules.len(),
        rules[k].backtrack_glyphs@.len() > before.len(),
    ensures
        first_chained_match(rules, before, rest) != Some(k),
        first_chained_class_match(bt_cd, in_cd, la_cd, rules, before, rest) != Some(k),
{
    lemma_first_chained_match_characterizes(rules, before, rest);
    lemma_first_chained_class_match_characterizes(bt_cd, in_cd, la_cd, rules, before, rest);
}

/// A decoded chained-sequence-context sub-table.
#[derive(Debug)]
pub enum ChainedSequenceContextFormat {
    Format1 {
        coverage: Coverage,
        seq_rules: Vec<Option<Vec<ChainedSequenceRuleTable>>>,
    },
    Format2 {
        coverage: Coverage,
        backtrack_classdef: ClassDef,
        input_classdef: ClassDef,
        lookahead_classdef: ClassDef,
        class_seq_rules: Vec<Option<Vec<ChainedSequenceRuleTable>>>,
    },
    Format3 {
        backtrack_coverages: Vec<Coverage>,
        input_coverages: Vec<Coverage>,
        lookahead_coverages: Vec<Coverage>,
        lookup_records: Vec<SequenceLookupRecord>,
    },
}

/// The bytes `d` hold a complete format-1 chained sequence context.
pub open spec fn chained_ctx1_ok(d: Seq<u8>) -> bool {
    &&& d.len() >= 6
    &&& be16(d, 0) == 1
    &&& be16(d, 2) <= d.len()
    &&& coverage_ok(d.skip(be16(d, 2)))
    &&& chained_slots_ok(d, 6, be16(d, 4))
}

/// The bytes `d` hold a complete format-2 chained sequence context.
pub open spec fn chained_ctx2_ok(d: Seq<u8>) -> bool {
    &&& d.len() >= 12
    &&& be16(d, 0) == 2
    &&& be16(d, 2) <= d.len()
    &&& coverage_ok(d.skip(be16(d, 2)))
    &&& be16(d, 4) <= d.len()
    &&& classdef_ok(d.skip(be16(d, 4)))
    &&& be16(d, 6) <= d.len()
    &&& classdef_ok(d.skip(be16(d, 6)))
    &&& be16(d, 8) <= d.len()
    &&& classdef_ok(d.skip(be16(d, 8)))
    &&& chained_slots_ok(d, 12, be16(d, 10))
}

/// Byte offset of the input-coverage-count field of the format-3 chained
/// context stored in `d`.
pub open spec fn chained3_input_off(d: Seq<u8>) -> int {
    4 + 2 * be16(d, 2)
}

/// Byte offset of the lookahead-coverage-count field.
pub open spec fn chained3_lookahead_off(d: Seq<u8>) -> int {
    chained3_input_off(d) + 2 + 2 * be16(d, chained3_input_off(d))
}

/// Byte offset of the lookup-record-count field.
pub open spec fn chained3_records_off(d: Seq<u8>) -> int {
    chained3_lookahead_off(d) + 2 + 2 * be16(d, chained3_lookahead_off(d))
}

/// The bytes `d` hold a complete format-3 chained sequence context.
pub open spec fn chained_ctx3_ok(d: Seq<u8>) -> bool {
    &&& d.len() >= 4
    &&& be16(d, 0) == 3
    &&& coverage_offsets_ok(d, 4, be16(d, 2))
    &&& d.len() >= chained3_input_off(d) + 2
    &&& coverage_offsets_ok(d, chained3_input_off(d) + 2, be16(d, chained3_input_off(d)))
    &&& d.len() >= chained3_lookahead_off(d) + 2
    &&& coverage_offsets_ok(d, chained3_lookahead_off(d) + 2, be16(d, chained3_lookahead_off(d)))
    &&& d.len() >= chained3_records_off(d) + 2
    &&& d.len() >= chained3_records_off(d) + 2 + 4 * be16(d, chained3_records_off(d))
}

/// The bytes `d` hold a complete chained sequence context of some
/// recognized format.
pub open spec fn chained_ctx_ok(d: Seq<u8>) -> bool {
    chained_ctx1_ok(d) || chained_ctx2_ok(d) || chained_ctx3_ok(d)
}

/// `f` is exactly the chained sequence context stored in the bytes `d`.
pub open spec fn chained_ctx_decodes(d: Seq<u8>, f: ChainedSequenceContextFormat) -> bool {
    match f {
        ChainedSequenceContextFormat::Format1 { coverage, seq_rules } => {
            &&& be16(d, 0) == 1
            &&& coverage_decodes(d.skip(be16(d, 2)), coverage)
            &&& seq_rules@.len() == be16(d, 4)
            &&& chained_slots_decode(d, 6, seq_rules@)
        },
        ChainedSequenceContextFormat::Format2 {
            coverage,
            backtrack_classdef,
            input_classdef,
            lookahead_classdef,
            class_seq_rules,
        } => {
            &&& be16(d, 0) == 2
            &&& coverage_decodes(d.skip(be16(d, 2)), coverage)
            &&& classdef_decodes(d.skip(be16(d, 4)), backtrack_classdef)
            &&& classdef_decodes(d.skip(be16(d, 6)), input_classdef)
            &&& classdef_decodes(d.skip(be16(d, 8)), lookahead_classdef)
            &&& class_seq_rules@.len() == be16(d, 10)
            &&& chained_slots_decode(d, 12, class_seq_rules@)
        },
        ChainedSequenceContextFormat::Format3 {
            backtrack_coverages,
            input_coverages,
            lookahead_coverages,
            lookup_records,
        } => {
            &&& be16(d, 0) == 3
            &&& backtrack_coverages@.len() == be16(d, 2)
            &&& coverage_list_decodes(d, 4, backtrack_coverages@)
            &&& input_coverages@.len() == be16(d, chained3_input_off(d))
            &&& coverage_list_decodes(d, chained3_input_off(d) + 2, input_coverages@)
            &&& lookahead_coverages@.len() == be16(d, chained3_lookahead_off(d))
            &&& coverage_list_decodes(d, chained3_lookahead_off(d) + 2, lookahead_coverages@)
            &&& lookup_records@ == lookup_records_at(
                d,
                chained3_records_off(d) + 2,
                be16(d, chained3_records_off(d)),
            )
        },
    }
}

/// The number of bytes the fields declared at the head of the chained
/// context table in `d` require, before any nested table is followed.
pub open spec fn chained_ctx_base_size(d: Seq<u8>) -> int {
    if be16(d, 0) == 1 {
        6 + 2 * be16(d, 4)
    } else if be16(d, 0) == 2 {
        12 + 2 * be16(d, 10)
    } else {
        chained3_records_off(d) + 2 + 4 * be16(d, chained3_records_off(d))
    }
}

/// Truncating a chained sequence context below even the size its head
/// fields declare makes decoding fail — never a silent short read.
pub proof fn lemma_chained_ctx_truncation(d: Seq<u8>, m: int)
    requires
        chained_ctx_ok(d),
        0 <= m < chained_ctx_base_size(d),
    ensures
        !chained_ctx_ok(d.take(m)),
{
    let t = d.take(m);
    if m >= 2 {
        assert(be16(t, 0) == be16(d, 0));
    }
    if m >= 4 {
        assert(be16(t, 2) == be16(d, 2));
    }
    if m >= 6 {
        assert(be16(t, 4) == be16(d, 4));
    }
    if m >= 12 {
        assert(be16(t, 10) == be16(d, 10));
    }
    if be16(d, 0) == 3 && m >= 4 {
        assert(chained3_input_off(t) == chained3_input_off(d));
        if m >= chained3_input_off(d) + 2 {
            assert(be16(t, chained3_input_off(d)) == be16(d, chained3_input_off(d)));
            assert(chained3_lookahead_off(t) == chained3_lookahead_off(d));
            if m >= chained3_lookahead_off(d) + 2 {
                assert(be16(t, chained3_lookahead_off(d)) == be16(d, chained3_lookahead_off(d)));
                assert(chained3_records_off(t) == chained3_records_off(d));
                if m >= chained3_records_off(d) + 2 {
                    assert(be16(t, chained3_records_off(d)) == be16(d, chained3_records_off(d)));
                }
            }
        }
    }
}

/// What `apply` yields on the glyph ids `gs` with the cursor at `idx`.
pub open spec fn spec_chained_apply(
    f: ChainedSequenceContextFormat,
    gs: Seq<u32>,
    idx: int,
) -> Option<(Seq<SequenceLookupRecord>, int)> {
    let before = gs.take(idx);
    let rest = gs.skip(idx + 1);
    match f {
        ChainedSequenceContextFormat::Format1 { coverage, seq_rules } => match coverage
            .spec_for_glyph(gs[idx]) {
            Some(ci) => match seq_rules@[ci] {
                Some(rules) => match first_chained_match(rules@, before, rest) {
                    Some(k) => Some(
                        (rules@[k].lookup_records@, 1 + rules@[k].input_glyphs@.len() as int),
                    ),
                    None => None,
                },
                None => None,
            },
            None => None,
        },
        ChainedSequenceContextFormat::Format2 {
            coverage,
            backtrack_classdef,
            input_classdef,
            lookahead_classdef,
            class_seq_rules,
        } => match coverage.spec_for_glyph(gs[idx]) {
            Some(_) => match input_classdef.spec_class(gs[idx]) {
                Some(cls) => match class_seq_rules@[cls as int] {
                    Some(rules) => match first_chained_class_match(
                        backtrack_classdef,
                        input_classdef,
                        lookahead_classdef,
                        rules@,
                        before,
                        rest,
                    ) {
                        Some(k) => Some(
                            (rules@[k].lookup_records@, 1 + rules@[k].input_glyphs@.len() as int),
                        ),
                        None => None,
                    },
                    None => None,
                },
                None => None,
            },
            None => None,
        },
        ChainedSequenceContextFormat::Format3 {
            backtrack_coverages,
            input_coverages,
            lookahead_coverages,
            lookup_records,
        } => {
            let bt = backtrack_coverages@;
            let inp = input_coverages@;
            let la = lookahead_coverages@;
            if bt.len() <= idx && inp.len() + la.len() <= rest.len() + 1 && (forall|j: int|
                0 <= j < bt.len() ==> (#[trigger] bt[j]).spec_for_glyph(gs[idx - 1 - j]) is Some)
                && (forall|j: int|
                0 <= j < inp.len() ==> (#[trigger] inp[j]).spec_for_glyph(gs[idx + j]) is Some) && (
            forall|j: int|
                0 <= j < la.len() ==> (#[trigger] la[j]).spec_for_glyph(
                    gs[idx + inp.len() + j],
                ) is Some) {
                Some((lookup_records@, inp.len() as int))
            } else {
                None
            }
        },
    }
}

impl ChainedSequenceContextFormat {
    /// The structural invariant the formats promise: every coverage index
    /// the dispatch coverage can yield (format 1), and every class the
    /// input class definition can yield (format 2), has a rule-set slot.
    pub open spec fn wf(&self) -> bool {
        match self {
            ChainedSequenceContextFormat::Format1 { coverage, seq_rules } => forall|g: u32|
                (#[trigger] coverage.spec_for_glyph(g)) matches Some(ci) ==> ci < seq_rules@.len(),
            ChainedSequenceContextFormat::Format2 { input_classdef, class_seq_rules, .. } =>
                input_classdef.classes_below(class_seq_rules@.len() as int),
            ChainedSequenceContextFormat::Format3 { .. } => true,
        }
    }

    /// Decodes a chained sequence context from the head of `data`,
    /// resolving every nested offset eagerly. Fails with `InvalidFormat`
    /// exactly when the format tag is not 1, 2 or 3 or any declared field
    /// runs past the end of its buffer.
    pub fn load(data: &[u8]) -> (r: Result<ChainedSequenceContextFormat, Error>)
        ensures
            match r {
                Ok(f) => chained_ctx_ok(data@) && chained_ctx_decodes(data@, f),
                Err(_) => !chained_ctx_ok(data@),
            },
    {
        let format = match get_u16(data, 0) {
            Ok(v) => v,
            Err(e) => {
                return Err(e);
            },
        };
        match format {
            1 => {
                let coverage_offset = match get_u16(data, 2) {
                    Ok(v) => v as usize,
                    Err(e) => {
                        return Err(e);
                    },
                };
                if coverage_offset > data.len() {
                    return Err(Error::InvalidFormat);
                }
                let cov_data = vstd::slice::slice_subrange(data, coverage_offset, data.len());
                proof {
                    assert(cov_data@ =~= data@.skip(coverage_offset as int));
                }
                let coverage = match Coverage::load(cov_data) {
                    Ok(v) => v,
                    Err(e) => {
                        return Err(e);
                    },
                };
                let rule_set_count = match get_u16(data, 4) {
                    Ok(v) => v as usize,
                    Err(e) => {
                        return Err(e);
                    },
                };
                let seq_rules = match load_chained_rule_slots(data, 6, rule_set_count) {
                    Ok(v) => v,
                    Err(e) => {
                        return Err(e);
                    },
                };
                Ok(ChainedSequenceContextFormat::Format1 { coverage, seq_rules })
            },
            2 => {
                let coverage_offset = match get_u16(data, 2) {
                    Ok(v) => v as usize,
                    Err(e) => {
                        return Err(e);
                    },
                };
                if coverage_offset > data.len() {
                    return Err(Error::InvalidFormat);
                }
                let cov_data = vstd::slice::slice_subrange(data, coverage_offset, data.len());
                proof {
                    assert(cov_data@ =~= data@.skip(coverage_offset as int));
                }
                let coverage = match Coverage::load(cov_data) {
                    Ok(v) => v,
                    Err(e) => {
                        return Err(e);
                    },
                };
                let backtrack_classdef = match load_classdef_at(data, 4) {
                    Ok(v) => v,
                    Err(e) => {
                        return Err(e);
                    },
                };
                let input_classdef = match load_classdef_at(data, 6) {
                    Ok(v) => v,
                    Err(e) => {
                        return Err(e);
                    },
                };
                let lookahead_classdef = match load_classdef_at(data, 8) {
                    Ok(v) => v,
                    Err(e) => {
                        return Err(e);
                    },
                };
                let rule_set_count = match get_u16(data, 10) {
                    Ok(v) => v as usize,
                    Err(e) => {
                        return Err(e);
                    },
                };
                let class_seq_rules = match load_chained_rule_slots(data, 12, rule_set_count) {
                    Ok(v) => v,
                    Err(e) => {
                        return Err(e);
                    },
                };
                Ok(
                    ChainedSequenceContextFormat::Format2 {
                        coverage,
                        backtrack_classdef,
                        input_classdef,
                        lookahead_classdef,
                        class_seq_rules,
                    },
                )
            },
            3 => {
                let backtrack_count = match get_u16(data, 2) {
                    Ok(v) => v as usize,
                    Err(e) => {
                        return Err(e);
                    },
                };
                let backtrack_coverages = match load_coverage_list(data, 4, backtrack_count) {
                    Ok(v) => v,
                    Err(e) => {
                        return Err(e);
                    },
                };
                let input_off = 4 + 2 * backtrack_count;
                let input_count = match get_u16(data, input_off) {
                    Ok(v) => v as usize,
                    Err(e) => {
                        return Err(e);
                    },
                };
                let input_coverages = match load_coverage_list(data, input_off + 2, input_count) {
                    Ok(v) => v,
                    Err(e) => {
                        return Err(e);
                    },
                };
                let lookahead_off = input_off + 2 + 2 * input_count;
                let lookahead_count = match get_u16(data, lookahead_off) {
                    Ok(v) => v as usize,
                    Err(e) => {
                        return Err(e);
                    },
                };
                let lookahead_coverages = match load_coverage_list(
                    data,
                    lookahead_off + 2,
                    lookahead_count,
                ) {
                    Ok(v) => v,
                    Err(e) => {
                        return Err(e);
                    },
                };
                let records_off = lookahead_off + 2 + 2 * lookahead_count;
                let record_count = match get_u16(data, records_off) {
                    Ok(v) => v as usize,
                    Err(e) => {
                        return Err(e);
                    },
                };
                let lookup_records = match load_lookup_records(data, records_off + 2, record_count) {
                    Ok(v) => v,
                    Err(e) => {
                        return Err(e);
                    },
                };
                Ok(
                    ChainedSequenceContextFormat::Format3 {
                        backtrack_coverages,
                        input_coverages,
                        lookahead_coverages,
                        lookup_records,
                    },
                )
            },
            _ => Err(Error::InvalidFormat),
        }
    }

    /// Evaluates this chained context at cursor position `idx` of
    /// `glyph_seq`. Yields the matched rule's lookup records and the
    /// consumed glyph count (anchor included; backtrack and lookahead are
    /// not consumed), or `None` when nothing matches; it never fails.
    #[verifier::loop_isolation(false)]
    #[verifier::rlimit(60)]
    pub fn apply<'a, T: GlyphData>(&'a self, glyph_seq: &[T], idx: usize) -> (r: Option<
        (&'a Vec<SequenceLookupRecord>, usize),
    >)
        requires
            idx < glyph_seq@.len(),
            self.wf(),
        ensures
            match r {
                Some(recs_n) => spec_chained_apply(*self, glyph_ids(glyph_seq@), idx as int)
                    == Some((recs_n.0@, recs_n.1 as int)),
                None => spec_chained_apply(*self, glyph_ids(glyph_seq@), idx as int) is None,
            },
    {
        let ghost gs = glyph_ids(glyph_seq@);
        let ghost before = gs.take(idx as int);
        let ghost rest = gs.skip(idx + 1);
        let rest_len = glyph_seq.len() - idx - 1;
        let anchor = vstd::slice::slice_index_get(glyph_seq, idx).glyph();
        proof {
            assert(gs[idx as int] == anchor.0);
        }
        match self {
            ChainedSequenceContextFormat::Format1 { coverage, seq_rules } => {
                let ci = match coverage.for_glyph(anchor) {
                    Some(ci) => ci,
                    None => {
                        return None;
                    },
                };
                let rules = match &seq_rules[ci] {
                    Some(rules) => rules,
                    None => {
                        return None;
                    },
                };
                for k in 0..rules.len()
                    invariant
                        forall|j: int|
                            0 <= j < k ==> !chained_rule_matches(
                                #[trigger] rules@[j],
                                before,
                                rest,
                            ),
                {
                    let rule = &rules[k];
                    if rule.backtrack_glyphs.len() <= idx && rule.input_glyphs.len() <= rest_len
                        && rule.lookahead_glyphs.len() <= rest_len - rule.input_glyphs.len() {
                        let m = chained_glyphs_match(glyph_seq, idx, rule);
                        if m {
                            proof {
                                lemma_first_chained_match_characterizes(rules@, before, rest);
                            }
                            return Some((&rule.lookup_records, 1 + rule.input_glyphs.len()));
                        }
                    } else {
                        proof {
                            assert(!chained_rule_matches(rules@[k as int], before, rest));
                        }
                    }
                }
                proof {
                    lemma_first_chained_match_characterizes(rules@, before, rest);
                }
                None
            },
            ChainedSequenceContextFormat::Format2 {
                coverage,
                backtrack_classdef,
                input_classdef,
                lookahead_classdef,
                class_seq_rules,
            } => {
                match coverage.for_glyph(anchor) {
                    Some(_) => (),
                    None => {
                        return None;
                    },
                };
                let cls = match input_classdef.glyph_class(anchor) {
                    Some(c) => c,
                    None => {
                        return None;
                    },
                };
                let rules = match &class_seq_rules[cls as usize] {
                    Some(rules) => rules,
                    None => {
                        return None;
                    },
                };
                for k in 0..rules.len()
                    invariant
                        forall|j: int|
                            0 <= j < k ==> !chained_class_rule_matches(
                                *backtrack_classdef,
                                *input_classdef,
                                *lookahead_classdef,
                                #[trigger] rules@[j],
                                before,
                                rest,
                            ),
                {
                    let rule = &rules[k];
                    if rule.backtrack_glyphs.len() <= idx && rule.input_glyphs.len() <= rest_len
                        && rule.lookahead_glyphs.len() <= rest_len - rule.input_glyphs.len() {
                        let m = chained_classes_match(
                            glyph_seq,
                            idx,
                            rule,
                            backtrack_classdef,
                            input_classdef,
                            lookahead_classdef,
                        );
                        if m {
                            proof {
                                lemma_first_chained_class_match_characterizes(
                                    *backtrack_classdef,
                                    *input_classdef,
                                    *lookahead_classdef,
                                    rules@,
                                    before,
                                    rest,
                                );
                            }
                            return Some((&rule.lookup_records, 1 + rule.input_glyphs.len()));
                        }
                    } else {
                        proof {
                            assert(!chained_class_rule_matches(
                                *backtrack_classdef,
                                *input_classdef,
                                *lookahead_classdef,
                                rules@[k as int],
                                before,
                                rest,
                            ));
                        }
                    }
                }
                proof {
                    lemma_first_chained_class_match_characterizes(
                        *backtrack_classdef,
                        *input_classdef,
                        *lookahead_classdef,
                        rules@,
                        before,
                        rest,
                    );
                }
                None
            },
            ChainedSequenceContextFormat::Format3 {
                backtrack_coverages,
                input_coverages,
                lookahead_coverages,
                lookup_records,
            } => {
                if backtrack_coverages.len() > idx {
                    return None;
                }
                if input_coverages.len() > rest_len + 1 || lookahead_coverages.len() > rest_len + 1
                    - input_coverages.len() {
                    return None;
                }
                let bn = backtrack_coverages.len();
                for j in 0..bn
                    invariant
                        forall|u: int|
                            0 <= u < j ==> (#[trigger] backtrack_coverages@[u]).spec_for_glyph(
                                gs[idx - 1 - u],
                            ) is Some,
                {
                    let g = vstd::slice::slice_index_get(glyph_seq, idx - 1 - j).glyph();
                    proof {
                        assert(gs[idx - 1 - j] == g.0);
                    }
                    match (&backtrack_coverages[j]).for_glyph(g) {
                        Some(_) => (),
                        None => {
                            return None;
                        },
                    };
                }
                let inn = input_coverages.len();
                for j in 0..inn
                    invariant
                        forall|u: int|
                            0 <= u < j ==> (#[trigger] input_coverages@[u]).spec_for_glyph(
                                gs[idx + u],
                            ) is Some,
                {
                    let g = vstd::slice::slice_index_get(glyph_seq, idx + j).glyph();
                    proof {
                        assert(gs[idx + j] == g.0);
                    }
                    match (&input_coverages[j]).for_glyph(g) {
                        Some(_) => (),
                        None => {
                            return None;
                        },
                    };
                }
                let ln = lookahead_coverages.len();
                for j in 0..ln
                    invariant
                        forall|u: int|
                            0 <= u < j ==> (#[trigger] lookahead_coverages@[u]).spec_for_glyph(
                                gs[idx + inn + u],
                            ) is Some,
                {
                    let g = vstd::slice::slice_index_get(glyph_seq, idx + inn + j).glyph();
                    proof {
                        assert(gs[idx + inn + j] == g.0);
                    }
                    match (&lookahead_coverages[j]).for_glyph(g) {
                        Some(_) => (),
                        None => {
                            return None;
                        },
                    };
                }
                Some((lookup_records, inn))
            },
        }
    }
}

/// Reads the class-definition offset at `off` and decodes the table it
/// points at; the offset is relative to the start of `data`.
fn load_classdef_at(data: &[u8], off: usize) -> (r: Result<ClassDef, Error>)
    ensures
        match r {
            Ok(c) => off + 2 <= data@.len() && be16(data@, off as int) <= data@.len()
                && classdef_ok(data@.skip(be16(data@, off as int))) && classdef_decodes(
                data@.skip(be16(data@, off as int)),
                c,
            ),
            Err(_) => !(off + 2 <= data@.len() && be16(data@, off as int) <= data@.len()
                && classdef_ok(data@.skip(be16(data@, off as int)))),
        },
{
    let classdef_offset = match get_u16(data, off) {
        Ok(v) => v as usize,
        Err(e) => {
            return Err(e);
        },
    };
    if classdef_offset > data.len() {
        return Err(Error::InvalidFormat);
    }
    let cd_data = vstd::slice::slice_subrange(data, classdef_offset, data.len());
    proof {
        assert(cd_data@ =~= data@.skip(classdef_offset as int));
    }
    ClassDef::load(cd_data)
}

/// Compares a chained rule's three requirement lists against the glyph
/// identities around the anchor.
#[verifier::loop_isolation(false)]
fn chained_glyphs_match<T: GlyphData>(
    glyph_seq: &[T],
    idx: usize,
    rule: &ChainedSequenceRuleTable,
) -> (m: bool)
    requires
        idx < glyph_seq@.len(),
        rule.backtrack_glyphs@.len() <= idx,
        rule.input_glyphs@.len() + rule.lookahead_glyphs@.len() <= glyph_seq@.len() - idx - 1,
    ensures
        m == chained_rule_matches(
            *rule,
            glyph_ids(glyph_seq@).take(idx as int),
            glyph_ids(glyph_seq@).skip(idx + 1),
        ),
{
    let ghost gs = glyph_ids(glyph_seq@);
    let ghost before = gs.take(idx as int);
    let ghost rest = gs.skip(idx + 1);
    let seq_len = glyph_seq.len();
    proof {
        assert(seq_len == glyph_seq@.len());
    }
    let mut m = true;
    let bn = rule.backtrack_glyphs.len();
    let mut j: usize = 0;
    while j < bn
        invariant
            j <= bn,
            m <==> (forall|t: int|
                0 <= t < j ==> before[before.len() - 1 - t] == (#[trigger] rule.backtrack_glyphs@[t])
                    as u32),
        decreases bn - j,
    {
        let g = vstd::slice::slice_index_get(glyph_seq, idx - 1 - j).glyph();
        proof {
            assert(before[before.len() - 1 - j] == gs[idx - 1 - j]);
            assert(gs[idx - 1 - j] == g.0);
        }
        if g.0 != (rule.backtrack_glyphs[j] as u32) {
            m = false;
        }
        j += 1;
    }
    let inn = rule.input_glyphs.len();
    let mut j: usize = 0;
    while j < inn
        invariant
            j <= inn,
            m <==> backtrack_matches(rule.backtrack_glyphs@, before) && (forall|t: int|
                0 <= t < j ==> rest[t] == (#[trigger] rule.input_glyphs@[t]) as u32),
        decreases inn - j,
    {
        let g = vstd::slice::slice_index_get(glyph_seq, idx + 1 + j).glyph();
        proof {
            assert(rest[j as int] == gs[idx + 1 + j]);
            assert(gs[idx + 1 + j] == g.0);
        }
        if g.0 != (rule.input_glyphs[j] as u32) {
            m = false;
        }
        j += 1;
    }
    let ln = rule.lookahead_glyphs.len();
    let mut j: usize = 0;
    while j < ln
        invariant
            j <= ln,
            m <==> backtrack_matches(rule.backtrack_glyphs@, before) && input_matches(
                rule.input_glyphs@,
                rest,
            ) && (forall|t: int|
                0 <= t < j ==> rest.skip(inn as int)[t] == (#[trigger] rule.lookahead_glyphs@[t])
                    as u32),
        decreases ln - j,
    {
        let g = vstd::slice::slice_index_get(glyph_seq, idx + 1 + inn + j).glyph();
        proof {
            assert(rest.skip(inn as int)[j as int] == rest[inn + j]);
            assert(rest[inn + j] == gs[idx + 1 + inn + j]);
            assert(gs[idx + 1 + inn + j] == g.0);
        }
        if g.0 != (rule.lookahead_glyphs[j] as u32) {
            m = false;
        }
        j += 1;
    }
    m
}

/// Compares a chained rule's three requirement lists against the glyph
/// classes around the anchor, each window under its own class definition.
#[verifier::loop_isolation(false)]
fn chained_classes_match<T: GlyphData>(
    glyph_seq: &[T],
    idx: usize,
    rule: &ChainedSequenceRuleTable,
    bt_cd: &ClassDef,
    in_cd: &ClassDef,
    la_cd: &ClassDef,
) -> (m: bool)
    requires
        idx < glyph_seq@.len(),
        rule.backtrack_glyphs@.len() <= idx,
        rule.input_glyphs@.len() + rule.lookahead_glyphs@.len() <= glyph_seq@.len() - idx - 1,
    ensures
        m == chained_class_rule_matches(
            *bt_cd,
            *in_cd,
            *la_cd,
            *rule,
            glyph_ids(glyph_seq@).take(idx as int),
            glyph_ids(glyph_seq@).skip(idx + 1),
        ),
{
    let ghost gs = glyph_ids(glyph_seq@);
    let ghost before = gs.take(idx as int);
    let ghost rest = gs.skip(idx + 1);
    let seq_len = glyph_seq.len();
    proof {
        assert(seq_len == glyph_seq@.len());
    }
    let mut m = true;
    let bn = rule.backtrack_glyphs.len();
    let mut j: usize = 0;
    while j < bn
        invariant
            j <= bn,
            m <==> (forall|t: int|
                0 <= t < j ==> bt_cd.spec_class(before[before.len() - 1 - t]) == Some(
                    (#[trigger] rule.backtrack_glyphs@[t]) as u32,
                )),
        decreases bn - j,
    {
        let g = vstd::slice::slice_index_get(glyph_seq, idx - 1 - j).glyph();
        proof {
            assert(before[before.len() - 1 - j] == gs[idx - 1 - j]);
            assert(gs[idx - 1 - j] == g.0);
        }
        let gc = bt_cd.glyph_class(g);
        let want = rule.backtrack_glyphs[j] as u32;
        let ok = match gc {
            Some(c) => c == want,
            None => false,
        };
        if !ok {
            m = false;
        }
        j += 1;
    }
    let inn = rule.input_glyphs.len();
    let mut j: usize = 0;
    while j < inn
        invariant
            j <= inn,
            m <==> class_backtrack_matches(*bt_cd, rule.backtrack_glyphs@, before) && (forall|
                t: int,
            |
                0 <= t < j ==> in_cd.spec_class(rest[t]) == Some(
                    (#[trigger] rule.input_glyphs@[t]) as u32,
                )),
        decreases inn - j,
    {
        let g = vstd::slice::slice_index_get(glyph_seq, idx + 1 + j).glyph();
        proof {
            assert(rest[j as int] == gs[idx + 1 + j]);
            assert(gs[idx + 1 + j] == g.0);
        }
        let gc = in_cd.glyph_class(g);
        let want = rule.input_glyphs[j] as u32;
        let ok = match gc {
            Some(c) => c == want,
            None => false,
        };
        if !ok {
            m = false;
        }
        j += 1;
    }
    let ln = rule.lookahead_glyphs.len();
    let mut j: usize = 0;
    while j < ln
        invariant
            j <= ln,
            m <==> class_backtrack_matches(*bt_cd, rule.backtrack_glyphs@, before)
                && class_input_matches(*in_cd, rule.input_glyphs@, rest) && (forall|t: int|
                0 <= t < j ==> la_cd.spec_class(rest.skip(inn as int)[t]) == Some(
                    (#[trigger] rule.lookahead_glyphs@[t]) as u32,
                )),
        decreases ln - j,
    {
        let g = vstd::slice::slice_index_get(glyph_seq, idx + 1 + inn + j).glyph();
        proof {
            assert(rest.skip(inn as int)[j as int] == rest[inn + j]);
            assert(rest[inn + j] == gs[idx + 1 + inn + j]);
            assert(gs[idx + 1 + inn + j] == g.0);
        }
        let gc = la_cd.glyph_class(g);
        let want = rule.lookahead_glyphs[j] as u32;
        let ok = match gc {
            Some(c) => c == want,
            None => false,
        };
        if !ok {
            m = false;
        }
        j += 1;
    }
    m
}

} // verus!
