//! The sequence-context engine: candidate rules dispatched by the anchor
//! glyph's coverage index (format 1) or class (format 2), or matched purely
//! by per-position coverage tables (format 3).
//!
//! Rules within a rule set are evaluated in on-disk order and the first
//! satisfied rule wins; a rule requiring more input glyphs than remain is
//! skipped without comparison. A match consumes the anchor glyph plus the
//! rule's input glyphs.

use vstd::prelude::*;
use crate::classdef::{classdef_decodes, classdef_ok, ClassDef};
use crate::coverage::{
    coverage_decodes, coverage_list_decodes, coverage_offsets_ok, coverage_ok, load_coverage_list,
    Coverage,
};
use crate::types::{be16, be16_list, get_u16, glyph_ids, load_u16_list, Error, GlyphData};

verus! {

/// An instruction fired by a matched rule: apply lookup `lookup_list_index`
/// at the matched position `sequence_index` (an offset from the match
/// start).
#[derive(Clone, Copy, Debug, PartialEq, Eq, Structural)]
pub struct SequenceLookupRecord {
    pub sequence_index: u16,
    pub lookup_list_index: u16,
}

/// The lookup record stored at byte offset `off`.
pub open spec fn lookup_record_at(d: Seq<u8>, off: int) -> SequenceLookupRecord {
    SequenceLookupRecord {
        sequence_index: be16(d, off) as u16,
        lookup_list_index: be16(d, off + 2) as u16,
    }
}

/// The `n` lookup records stored consecutively from `start`.
pub open spec fn lookup_records_at(d: Seq<u8>, start: int, n: int) -> Seq<SequenceLookupRecord> {
    Seq::new(n as nat, |i: int| lookup_record_at(d, start + 4 * i))
}

impl SequenceLookupRecord {
    /// Decodes one lookup record from the head of `data`.
    pub fn load(data: &[u8]) -> (r: Result<SequenceLookupRecord, Error>)
        ensures
            match r {
                Ok(rec) => data@.len() >= 4 && rec == lookup_record_at(data@, 0),
                Err(_) => data@.len() < 4,
            },
    {
        let sequence_index = match get_u16(data, 0) {
            Ok(v) => v,
            Err(e) => {
                return Err(e);
            },
        };
        let lookup_list_index = match get_u16(data, 2) {
            Ok(v) => v,
            Err(e) => {
                return Err(e);
            },
        };
        Ok(SequenceLookupRecord { sequence_index, lookup_list_index })
    }
}

/// Reads `count` consecutive lookup records starting at byte offset `start`.
pub fn load_lookup_records(data: &[u8], start: usize, count: usize) -> (r: Result<
    Vec<SequenceLookupRecord>,
    Error,
>)
    requires
        start + 4 * count <= usize::MAX,
        start <= data@.len(),
    ensures
        match r {
            Ok(v) => data@.len() >= start + 4 * count && v@ == lookup_records_at(
                data@,
                start as int,
                count as int,
            ),
            Err(_) => data@.len() < start + 4 * count,
        },
{
    let mut out: Vec<SequenceLookupRecord> = Vec::new();
    for i in 0..count
        invariant
            start + 4 * count <= usize::MAX,
            start <= data@.len(),
            out@.len() == i,
            data@.len() >= start + 4 * i,
            forall|j: int| 0 <= j < i ==> out@[j] == lookup_record_at(data@, start + 4 * j),
    {
        let off = start + 4 * i;
        if off > data.len() {
            return Err(Error::InvalidFormat);
        }
        let sub = vstd::slice::slice_subrange(data, off, data.len());
        proof {
            assert(sub@ =~= data@.skip(off as int));
        }
        let rec = match SequenceLookupRecord::load(sub) {
            Ok(v) => v,
            Err(e) => {
                return Err(e);
            },
        };
        proof {
            assert(rec == lookup_record_at(data@, off as int));
        }
        out.push(rec);
    }
    proof {
        assert(out@ =~= lookup_records_at(data@, start as int, count as int));
    }
    Ok(out)
}

/// One candidate rule of a sequence context: the input requirements for the
/// glyphs after the anchor (glyph ids in format 1, class numbers in format
/// 2) and the lookup records fired on a match.
///
/// Wire layout: `u16 glyphCount (anchor included), u16 seqLookupCount,
/// (glyphCount - 1) x u16, seqLookupCount x SequenceLookupRecord`.
#[derive(Debug)]
pub struct SequenceRuleTable {
    pub input_seq: Vec<u16>,
    pub lookup_records: Vec<SequenceLookupRecord>,
}

/// The bytes `d` hold a complete sequence rule: a glyph count of at least
/// one (the anchor) and all declared entries present.
pub open spec fn seq_rule_ok(d: Seq<u8>) -> bool {
    &&& d.len() >= 4
    &&& be16(d, 0) >= 1
    &&& d.len() >= 4 + 2 * (be16(d, 0) - 1) + 4 * be16(d, 2)
}

/// `r` is exactly the rule stored in the bytes `d`.
pub open spec fn seq_rule_decodes(d: Seq<u8>, r: SequenceRuleTable) -> bool {
    &&& r.input_seq@ == be16_list(d, 4, be16(d, 0) - 1)
    &&& r.lookup_records@ == lookup_records_at(d, 4 + 2 * (be16(d, 0) - 1), be16(d, 2))
}

impl SequenceRuleTable {
    /// Decodes one sequence rule from the head of `data`. A declared glyph
    /// count of zero is malformed: every rule includes its anchor glyph.
    pub fn load(data: &[u8]) -> (r: Result<SequenceRuleTable, Error>)
        ensures
            match r {
                Ok(rule) => seq_rule_ok(data@) && seq_rule_decodes(data@, rule),
                Err(_) => !seq_rule_ok(data@),
            },
    {
        let glyph_count = match get_u16(data, 0) {
            Ok(v) => v,
            Err(e) => {
                return Err(e);
            },
        };
        if glyph_count == 0 {
            return Err(Error::InvalidFormat);
        }
        let input_count = (glyph_count - 1) as usize;
        let seq_count = match get_u16(data, 2) {
            Ok(v) => v as usize,
            Err(e) => {
                return Err(e);
            },
        };
        let input_seq = match load_u16_list(data, 4, input_count) {
            Ok(v) => v,
            Err(e) => {
                return Err(e);
            },
        };
        let rec_start = 4 + 2 * input_count;
        let lookup_records = match load_lookup_records(data, rec_start, seq_count) {
            Ok(v) => v,
            Err(e) => {
                return Err(e);
            },
        };
        Ok(SequenceRuleTable { input_seq, lookup_records })
    }
}

/// The number of bytes the rule declared at the head of `d` requires.
pub open spec fn seq_rule_size(d: Seq<u8>) -> int {
    4 + 2 * (be16(d, 0) - 1) + 4 * be16(d, 2)
}

/// Truncating a sequence rule to fewer bytes than its declared counts
/// require makes decoding fail — never a silent short read.
pub proof fn lemma_seq_rule_truncation(d: Seq<u8>, m: int)
    requires
        seq_rule_ok(d),
        0 <= m < seq_rule_size(d),
    ensures
        !seq_rule_ok(d.take(m)),
{
    if m >= 4 {
        assert(be16(d.take(m), 0) == be16(d, 0));
        assert(be16(d.take(m), 2) == be16(d, 2));
    }
}

/// The rule offset stored at position `i` of a rule set.
pub open spec fn seq_rule_offset(d: Seq<u8>, i: int) -> int {
    be16(d, 2 + 2 * i)
}

/// Entry `i` of a rule set points at a complete rule within `d`.
pub open spec fn seq_rule_entry_ok(d: Seq<u8>, i: int) -> bool {
    &&& seq_rule_offset(d, i) <= d.len()
    &&& seq_rule_ok(d.skip(seq_rule_offset(d, i)))
}

/// The bytes `d` hold a complete rule set: `u16 ruleCount, ruleCount x u16
/// ruleOffset`, every offset pointing at a complete rule.
pub open spec fn seq_rule_set_ok(d: Seq<u8>) -> bool {
    &&& d.len() >= 2 + 2 * be16(d, 0)
    &&& forall|i: int| 0 <= i < be16(d, 0) ==> seq_rule_entry_ok(d, i)
}

/// `rules` are exactly the rules the set stored in `d` points at, in on-disk
/// order.
pub open spec fn seq_rule_set_decodes(d: Seq<u8>, rules: Seq<SequenceRuleTable>) -> bool {
    &&& rules.len() == be16(d, 0)
    &&& forall|i: int|
        0 <= i < rules.len() ==> seq_rule_decodes(d.skip(seq_rule_offset(d, i)), #[trigger] rules[i])
}

/// Decodes a rule set from the head of `data`.
#[verifier::loop_isolation(false)]
fn load_seq_rule_set(data: &[u8]) -> (r: Result<Vec<SequenceRuleTable>, Error>)
    ensures
        match r {
            Ok(v) => seq_rule_set_ok(data@) && seq_rule_set_decodes(data@, v@),
            Err(_) => !seq_rule_set_ok(data@),
        },
{
    let rule_count = match get_u16(data, 0) {
        Ok(v) => v as usize,
        Err(e) => {
            return Err(e);
        },
    };
    let mut rules: Vec<SequenceRuleTable> = Vec::new();
    for i in 0..rule_count
        invariant
            rules@.len() == i,
            data@.len() >= 2 + 2 * i,
            forall|j: int| 0 <= j < i ==> seq_rule_entry_ok(data@, j),
            forall|j: int|
                0 <= j < i ==> seq_rule_decodes(
                    data@.skip(seq_rule_offset(data@, j)),
                    #[trigger] rules@[j],
                ),
    {
        let rule_off = match get_u16(data, 2 + 2 * i) {
            Ok(v) => v as usize,
            Err(e) => {
                return Err(e);
            },
        };
        if rule_off > data.len() {
            proof {
                assert(!seq_rule_entry_ok(data@, i as int));
            }
            return Err(Error::InvalidFormat);
        }
        let sub = vstd::slice::slice_subrange(data, rule_off, data.len());
        proof {
            assert(sub@ =~= data@.skip(rule_off as int));
        }
        let rule = match SequenceRuleTable::load(sub) {
            Ok(v) => v,
            Err(e) => {
                proof {
                    assert(!seq_rule_entry_ok(data@, i as int));
                }
                return Err(e);
            },
        };
        rules.push(rule);
    }
    Ok(rules)
}

/// The rule-set offset stored at position `i` of an offset array beginning
/// at `base`; an offset of zero means the slot holds no rules.
pub open spec fn slot_offset(d: Seq<u8>, base: int, i: int) -> int {
    be16(d, base + 2 * i)
}

/// Slot `i` is either absent (offset zero) or points at a complete rule set.
pub open spec fn seq_slot_ok(d: Seq<u8>, base: int, i: int) -> bool {
    ||| slot_offset(d, base, i) == 0
    ||| (slot_offset(d, base, i) <= d.len() && seq_rule_set_ok(d.skip(slot_offset(d, base, i))))
}

/// An array of `n` rule-set slots beginning at `base` is complete and every
/// present slot points at a complete rule set.
pub open spec fn seq_slots_ok(d: Seq<u8>, base: int, n: int) -> bool {
    &&& d.len() >= base + 2 * n
    &&& forall|i: int| 0 <= i < n ==> seq_slot_ok(d, base, i)
}

/// `slot` is exactly what slot `i` stores: `None` for a zero offset, else
/// the decoded rule set.
pub open spec fn seq_slot_decodes(
    d: Seq<u8>,
    base: int,
    i: int,
    slot: Option<Vec<SequenceRuleTable>>,
) -> bool {
    match slot {
        None => slot_offset(d, base, i) == 0,
        Some(rules) => slot_offset(d, base, i) != 0 && seq_rule_set_decodes(
            d.skip(slot_offset(d, base, i)),
            rules@,
        ),
    }
}

/// `slots` are exactly the rule-set slots of the offset array at `base`.
pub open spec fn seq_slots_decode(
    d: Seq<u8>,
    base: int,
    slots: Seq<Option<Vec<SequenceRuleTable>>>,
) -> bool {
    forall|i: int| 0 <= i < slots.len() ==> seq_slot_decodes(d, base, i, #[trigger] slots[i])
}

/// Reads `count` rule-set slots through the offset array beginning at
/// `base`; each offset is relative to the start of `data`.
#[verifier::loop_isolation(false)]
fn load_seq_rule_slots(data: &[u8], base: usize, count: usize) -> (r: Result<
    Vec<Option<Vec<SequenceRuleTable>>>,
    Error,
>)
    requires
        base + 2 * count <= usize::MAX,
        base <= data@.len(),
    ensures
        match r {
            Ok(v) => seq_slots_ok(data@, base as int, count as int) && v@.len() == count
                && seq_slots_decode(data@, base as int, v@),
            Err(_) => !seq_slots_ok(data@, base as int, count as int),
        },
{
    let mut out: Vec<Option<Vec<SequenceRuleTable>>> = Vec::new();
    for i in 0..count
        invariant
            out@.len() == i,
            data@.len() >= base + 2 * i,
            forall|j: int| 0 <= j < i ==> seq_slot_ok(data@, base as int, j),
            forall|j: int| 0 <= j < i ==> seq_slot_decodes(data@, base as int, j, #[trigger] out@[j]),
    {
        let slot_off = match get_u16(data, base + 2 * i) {
            Ok(v) => v as usize,
            Err(e) => {
                return Err(e);
            },
        };
        if slot_off == 0 {
            out.push(None);
        } else if slot_off > data.len() {
            proof {
                assert(!seq_slot_ok(data@, base as int, i as int));
            }
            return Err(Error::InvalidFormat);
        } else {
            let sub = vstd::slice::slice_subrange(data, slot_off, data.len());
            proof {
                assert(sub@ =~= data@.skip(slot_off as int));
            }
            let rules = match load_seq_rule_set(sub) {
                Ok(v) => v,
                Err(e) => {
                    proof {
                        assert(!seq_slot_ok(data@, base as int, i as int));
                    }
                    return Err(e);
                },
            };
            out.push(Some(rules));
        }
    }
    Ok(out)
}

/// The glyphs of `rest` satisfy `input` position for position by identity.
pub open spec fn input_matches(input: Seq<u16>, rest: Seq<u32>) -> bool {
    &&& input.len() <= rest.len()
    &&& forall|j: int| 0 <= j < input.len() ==> rest[j] == (#[trigger] input[j]) as u32
}

/// The index of the first rule whose input requirements `rest` satisfies by
/// glyph identity — the on-disk order tie-break of the format.
pub open spec fn first_glyph_match(rules: Seq<SequenceRuleTable>, rest: Seq<u32>) -> Option<int>
    decreases rules.len(),
{
    if rules.len() == 0 {
        None
    } else if input_matches(rules[0].input_seq@, rest) {
        Some(0)
    } else {
        match first_glyph_match(rules.drop_first(), rest) {
            Some(i) => Some(i + 1),
            None => None,
        }
    }
}

/// The glyphs of `rest` satisfy `input` position for position by class.
pub open spec fn class_input_matches(cd: ClassDef, input: Seq<u16>, rest: Seq<u32>) -> bool {
    &&& input.len() <= rest.len()
    &&& forall|j: int|
        0 <= j < input.len() ==> cd.spec_class(rest[j]) == Some((#[trigger] input[j]) as u32)
}

/// The index of the first rule whose input requirements `rest` satisfies by
/// glyph class.
pub open spec fn first_class_match(cd: ClassDef, rules: Seq<SequenceRuleTable>, rest: Seq<u32>) -> Option<
    int,
>
    decreases rules.len(),
{
    if rules.len() == 0 {
        None
    } else if class_input_matches(cd, rules[0].input_seq@, rest) {
        Some(0)
    } else {
        match first_class_match(cd, rules.drop_first(), rest) {
            Some(i) => Some(i + 1),
            None => None,
        }
    }
}

/// The first glyph-identity match is a match with no earlier match; `None`
/// means no rule matches at all.
pub proof fn lemma_first_glyph_match_characterizes(rules: Seq<SequenceRuleTable>, rest: Seq<u32>)
    ensures
        match first_glyph_match(rules, rest) {
            Some(k) => 0 <= k < rules.len() && input_matches(rules[k].input_seq@, rest) && (forall|
                j: int,
            |
                0 <= j < k ==> !input_matches((#[trigger] rules[j]).input_seq@, rest)),
            None => forall|j: int|
                0 <= j < rules.len() ==> !input_matches((#[trigger] rules[j]).input_seq@, rest),
        },
    decreases rules.len(),
{
    if rules.len() > 0 && !input_matches(rules[0].input_seq@, rest) {
        let tail = rules.drop_first();
        lemma_first_glyph_match_characterizes(tail, rest);
        match first_glyph_match(tail, rest) {
            Some(k) => {
                assert(rules[k + 1] == tail[k]);
                assert forall|j: int| 0 <= j < k + 1 implies !input_matches(
                    (#[trigger] rules[j]).input_seq@,
                    rest,
                ) by {
                    if j > 0 {
                        assert(tail[j - 1] == rules[j]);
                    }
                }
            },
            None => {
                assert forall|j: int| 0 <= j < rules.len() implies !input_matches(
                    (#[trigger] rules[j]).input_seq@,
                    rest,
                ) by {
                    if j > 0 {
                        assert(tail[j - 1] == rules[j]);
                    }
                }
            },
        }
    }
}

/// The first glyph-class match is a match with no earlier match; `None`
/// means no rule matches at all.
pub proof fn lemma_first_class_match_characterizes(
    cd: ClassDef,
    rules: Seq<SequenceRuleTable>,
    rest: Seq<u32>,
)
    ensures
        match first_class_match(cd, rules, rest) {
            Some(k) => 0 <= k < rules.len() && class_input_matches(cd, rules[k].input_seq@, rest)
                && (forall|j: int|
                0 <= j < k ==> !class_input_matches(cd, (#[trigger] rules[j]).input_seq@, rest)),
            None => forall|j: int|
                0 <= j < rules.len() ==> !class_input_matches(
                    cd,
                    (#[trigger] rules[j]).input_seq@,
                    rest,
                ),
        },
    decreases rules.len(),
{
    if rules.len() > 0 && !class_input_matches(cd, rules[0].input_seq@, rest) {
        let tail = rules.drop_first();
        lemma_first_class_match_characterizes(cd, tail, rest);
        match first_class_match(cd, tail, rest) {
            Some(k) => {
                assert(rules[k + 1] == tail[k]);
                assert forall|j: int| 0 <= j < k + 1 implies !class_input_matches(
                    cd,
                    (#[trigger] rules[j]).input_seq@,
                    rest,
                ) by {
                    if j > 0 {
                        assert(tail[j - 1] == rules[j]);
                    }
                }
            },
            None => {
                assert forall|j: int| 0 <= j < rules.len() implies !class_input_matches(
                    cd,
                    (#[trigger] rules[j]).input_seq@,
                    rest,
                ) by {
                    if j > 0 {
                        assert(tail[j - 1] == rules[j]);
                    }
                }
            },
        }
    }
}

/// First-match-wins: if rule `k` is satisfied and no rule before it is, the
/// scan selects rule `k` — never a later rule, however well it matches.
pub proof fn lemma_first_match_wins(rules: Seq<SequenceRuleTable>, rest: Seq<u32>, k: int)
    requires
        0 <= k < rules.len(),
        input_matches(rules[k].input_seq@, rest),
        forall|j: int| 0 <= j < k ==> !input_matches((#[trigger] rules[j]).input_seq@, rest),
    ensures
        first_glyph_match(rules, rest) == Some(k),
{
    lemma_first_glyph_match_characterizes(rules, rest);
}

/// First-match-wins at the engine level: when the anchor's coverage index
/// dispatches a format-1 context to a rule set in which rule `k` is
/// satisfied and no earlier rule is, the engine yields rule `k`'s lookup
/// records and its span — never a later rule's, however well it matches.
pub proof fn lemma_seq_apply_first_match_wins(
    coverage: Coverage,
    seq_rules: Vec<Option<Vec<SequenceRuleTable>>>,
    rules: Vec<SequenceRuleTable>,
    gs: Seq<u32>,
    idx: int,
    ci: int,
    k: int,
)
    requires
        0 <= idx < gs.len(),
        coverage.spec_for_glyph(gs[idx]) == Some(ci),
        seq_rules@[ci] == Some(rules),
        0 <= k < rules@.len(),
        input_matches(rules@[k].input_seq@, gs.skip(idx + 1)),
        forall|j: int|
            0 <= j < k ==> !input_matches((#[trigger] rules@[j]).input_seq@, gs.skip(idx + 1)),
    ensures
        spec_seq_apply((SequenceContextFormat::Format1 { coverage, seq_rules }), gs, idx) == Some(
            (rules@[k].lookup_records@, 1 + rules@[k].input_seq@.len() as int),
        ),
{
    lemma_first_match_wins(rules@, gs.skip(idx + 1), k);
}

/// A rule requiring more input glyphs than remain after the anchor is never
/// the selected rule, under glyph-identity or any class matching: it is
/// skipped without any comparison.
pub proof fn lemma_insufficient_input_rejected(
    cd: ClassDef,
    rules: Seq<SequenceRuleTable>,
    rest: Seq<u32>,
    k: int,
)
    requires
        0 <= k < rules.len(),
        rules[k].input_seq@.len() > rest.len(),
    ensures
        first_glyph_match(rules, rest) != Some(k),
        first_class_match(cd, rules, rest) != Some(k),
{
    lemma_first_glyph_match_characterizes(rules, rest);
    lemma_first_class_match_characterizes(cd, rules, rest);
}

/// A decoded sequence-context sub-table.
#[derive(Debug)]
pub enum SequenceContextFormat {
    Format1 { coverage: Coverage, seq_rules: Vec<Option<Vec<SequenceRuleTable>>> },
    Format2 { coverage: Coverage, classdef: ClassDef, seq_rules: Vec<Option<Vec<SequenceRuleTable>>> },
    Format3 { coverages: Vec<Coverage>, lookup_records: Vec<SequenceLookupRecord> },
}

/// The bytes `d` hold a complete format-1 sequence context.
pub open spec fn seq_ctx1_ok(d: Seq<u8>) -> bool {
    &&& d.len() >= 6
    &&& be16(d, 0) == 1
    &&& be16(d, 2) <= d.len()
    &&& coverage_ok(d.skip(be16(d, 2)))
    &&& seq_slots_ok(d, 6, be16(d, 4))
}

/// The bytes `d` hold a complete format-2 sequence context.
pub open spec fn seq_ctx2_ok(d: Seq<u8>) -> bool {
    &&& d.len() >= 8
    &&& be16(d, 0) == 2
    &&& be16(d, 2) <= d.len()
    &&& coverage_ok(d.skip(be16(d, 2)))
    &&& be16(d, 4) <= d.len()
    &&& classdef_ok(d.skip(be16(d, 4)))
    &&& seq_slots_ok(d, 8, be16(d, 6))
}

/// The bytes `d` hold a complete format-3 sequence context.
pub open spec fn seq_ctx3_ok(d: Seq<u8>) -> bool {
    &&& d.len() >= 6
    &&& be16(d, 0) == 3
    &&& coverage_offsets_ok(d, 6, be16(d, 2))
    &&& d.len() >= 6 + 2 * be16(d, 2) + 4 * be16(d, 4)
}

/// The bytes `d` hold a complete sequence context of some recognized format.
pub open spec fn seq_ctx_ok(d: Seq<u8>) -> bool {
    seq_ctx1_ok(d) || seq_ctx2_ok(d) || seq_ctx3_ok(d)
}

/// `f` is exactly the sequence context stored in the bytes `d`.
pub open spec fn seq_ctx_decodes(d: Seq<u8>, f: SequenceContextFormat) -> bool {
    match f {
        SequenceContextFormat::Format1 { coverage, seq_rules } => {
            &&& be16(d, 0) == 1
            &&& coverage_decodes(d.skip(be16(d, 2)), coverage)
            &&& seq_rules@.len() == be16(d, 4)
            &&& seq_slots_decode(d, 6, seq_rules@)
        },
        SequenceContextFormat::Format2 { coverage, classdef, seq_rules } => {
            &&& be16(d, 0) == 2
            &&& coverage_decodes(d.skip(be16(d, 2)), coverage)
            &&& classdef_decodes(d.skip(be16(d, 4)), classdef)
            &&& seq_rules@.len() == be16(d, 6)
            &&& seq_slots_decode(d, 8, seq_rules@)
        },
        SequenceContextFormat::Format3 { coverages, lookup_records } => {
            &&& be16(d, 0) == 3
            &&& coverages@.len() == be16(d, 2)
            &&& coverage_list_decodes(d, 6, coverages@)
            &&& lookup_records@ == lookup_records_at(d, 6 + 2 * be16(d, 2), be16(d, 4))
        },
    }
}

/// The number of bytes the fields declared at the head of the context table
/// in `d` require, before any nested table is followed.
pub open spec fn seq_ctx_base_size(d: Seq<u8>) -> int {
    if be16(d, 0) == 1 {
        6 + 2 * be16(d, 4)
    } else if be16(d, 0) == 2 {
        8 + 2 * be16(d, 6)
    } else {
        6 + 2 * be16(d, 2) + 4 * be16(d, 4)
    }
}

/// Truncating a sequence context below even the size its head fields
/// declare makes decoding fail — never a silent short read.
pub proof fn lemma_seq_ctx_truncation(d: Seq<u8>, m: int)
    requires
        seq_ctx_ok(d),
        0 <= m < seq_ctx_base_size(d),
    ensures
        !seq_ctx_ok(d.take(m)),
{
    if m >= 2 {
        assert(be16(d.take(m), 0) == be16(d, 0));
    }
    if m >= 4 {
        assert(be16(d.take(m), 2) == be16(d, 2));
    }
    if m >= 6 {
        assert(be16(d.take(m), 4) == be16(d, 4));
    }
    if m >= 8 {
        assert(be16(d.take(m), 6) == be16(d, 6));
    }
}

/// What `apply` yields on the glyph ids `gs` with the cursor at `idx`: the
/// lookup records of the selected rule and the number of glyphs consumed,
/// anchor included.
pub open spec fn spec_seq_apply(f: SequenceContextFormat, gs: Seq<u32>, idx: int) -> Option<
    (Seq<SequenceLookupRecord>, int),
> {
    let rest = gs.skip(idx + 1);
    match f {
        SequenceContextFormat::Format1 { coverage, seq_rules } => match coverage.spec_for_glyph(
            gs[idx],
        ) {
            Some(ci) => match seq_rules@[ci] {
                Some(rules) => match first_glyph_match(rules@, rest) {
                    Some(k) => Some(
                        (rules@[k].lookup_records@, 1 + rules@[k].input_seq@.len() as int),
                    ),
                    None => None,
                },
                None => None,
            },
            None => None,
        },
        SequenceContextFormat::Format2 { coverage, classdef, seq_rules } => match coverage
            .spec_for_glyph(gs[idx]) {
            Some(_) => match classdef.spec_class(gs[idx]) {
                Some(cls) => match seq_rules@[cls as int] {
                    Some(rules) => match first_class_match(classdef, rules@, rest) {
                        Some(k) => Some(
                            (rules@[k].lookup_records@, 1 + rules@[k].input_seq@.len() as int),
                        ),
                        None => None,
                    },
                    None => None,
                },
                None => None,
            },
            None => None,
        },
        SequenceContextFormat::Format3 { coverages, lookup_records } => {
            if coverages@.len() <= rest.len() + 1 && (forall|t: int|
                0 <= t < coverages@.len() ==> (#[trigger] coverages@[t]).spec_for_glyph(
                    gs[idx + t],
                ) is Some) {
                Some((lookup_records@, coverages@.len() as int))
            } else {
                None
            }
        },
    }
}

impl SequenceContextFormat {
    /// The structural invariant the formats promise: every coverage index
    /// the dispatch coverage can yield (format 1), and every class the
    /// class definition can yield (format 2), has a rule-set slot.
    pub open spec fn wf(&self) -> bool {
        match self {
            SequenceContextFormat::Format1 { coverage, seq_rules } => forall|g: u32|
                (#[trigger] coverage.spec_for_glyph(g)) matches Some(ci) ==> ci < seq_rules@.len(),
            SequenceContextFormat::Format2 { coverage, classdef, seq_rules } => classdef
                .classes_below(seq_rules@.len() as int),
            SequenceContextFormat::Format3 { .. } => true,
        }
    }

    /// Decodes a sequence context from the head of `data`, resolving every
    /// nested offset eagerly. Fails with `InvalidFormat` exactly when the
    /// format tag is not 1, 2 or 3 or any declared field runs past the end
    /// of its buffer.
    pub fn load(data: &[u8]) -> (r: Result<SequenceContextFormat, Error>)
        ensures
            match r {
                Ok(f) => seq_ctx_ok(data@) && seq_ctx_decodes(data@, f),
                Err(_) => !seq_ctx_ok(data@),
            },
    {
        let format = match get_u16(data, 0) {
            Ok(v) => v,
            Err(e) => {
                return Err(e);
            },
        };
        match format {
            1 => {
                let coverage_offset = match get_u16(data, 2) {
                    Ok(v) => v as usize,
                    Err(e) => {
                        return Err(e);
                    },
                };
                if coverage_offset > data.len() {
                    return Err(Error::InvalidFormat);
                }
                let cov_data = vstd::slice::slice_subrange(data, coverage_offset, data.len());
                proof {
                    assert(cov_data@ =~= data@.skip(coverage_offset as int));
                }
                let coverage = match Coverage::load(cov_data) {
                    Ok(v) => v,
                    Err(e) => {
                        return Err(e);
                    },
                };
                let rule_set_count = match get_u16(data, 4) {
                    Ok(v) => v as usize,
                    Err(e) => {
                        return Err(e);
                    },
                };
                let seq_rules = match load_seq_rule_slots(data, 6, rule_set_count) {
                    Ok(v) => v,
                    Err(e) => {
                        return Err(e);
                    },
                };
                Ok(SequenceContextFormat::Format1 { coverage, seq_rules })
            },
            2 => {
                let coverage_offset = match get_u16(data, 2) {
                    Ok(v) => v as usize,
                    Err(e) => {
                        return Err(e);
                    },
                };
                if coverage_offset > data.len() {
                    return Err(Error::InvalidFormat);
                }
                let cov_data = vstd::slice::slice_subrange(data, coverage_offset, data.len());
                proof {
                    assert(cov_data@ =~= data@.skip(coverage_offset as int));
                }
                let coverage = match Coverage::load(cov_data) {
                    Ok(v) => v,
                    Err(e) => {
                        return Err(e);
                    },
                };
                let classdef_offset = match get_u16(data, 4) {
                    Ok(v) => v as usize,
                    Err(e) => {
                        return Err(e);
                    },
                };
                if classdef_offset > data.len() {
                    return Err(Error::InvalidFormat);
                }
                let cd_data = vstd::slice::slice_subrange(data, classdef_offset, data.len());
                proof {
                    assert(cd_data@ =~= data@.skip(classdef_offset as int));
                }
                let classdef = match ClassDef::load(cd_data) {
                    Ok(v) => v,
                    Err(e) => {
                        return Err(e);
                    },
                };
                let rule_set_count = match get_u16(data, 6) {
                    Ok(v) => v as usize,
                    Err(e) => {
                        return Err(e);
                    },
                };
                let seq_rules = match load_seq_rule_slots(data, 8, rule_set_count) {
                    Ok(v) => v,
                    Err(e) => {
                        return Err(e);
                    },
                };
                Ok(SequenceContextFormat::Format2 { coverage, classdef, seq_rules })
            },
            3 => {
                let glyph_count = match get_u16(data, 2) {
                    Ok(v) => v as usize,
                    Err(e) => {
                        return Err(e);
                    },
                };
                let seq_count = match get_u16(data, 4) {
                    Ok(v) => v as usize,
                    Err(e) => {
                        return Err(e);
                    },
                };
                let coverages = match load_coverage_list(data, 6, glyph_count) {
                    Ok(v) => v,
                    Err(e) => {
                        return Err(e);
                    },
                };
                let rec_start = 6 + 2 * glyph_count;
                let lookup_records = match load_lookup_records(data, rec_start, seq_count) {
                    Ok(v) => v,
                    Err(e) => {
                        return Err(e);
                    },
                };
                Ok(SequenceContextFormat::Format3 { coverages, lookup_records })
            },
            _ => Err(Error::InvalidFormat),
        }
    }

    /// Evaluates this context at cursor position `idx` of `glyph_seq`.
    /// Yields the matched rule's lookup records and the consumed glyph
    /// count (anchor included), or `None` when nothing matches; it never
    /// fails.
    #[verifier::loop_isolation(false)]
    pub fn apply<'a, T: GlyphData>(&'a self, glyph_seq: &[T], idx: usize) -> (r: Option<
        (&'a Vec<SequenceLookupRecord>, usize),
    >)
        requires
            idx < glyph_seq@.len(),
            self.wf(),
        ensures
            match r {
                Some(recs_n) => spec_seq_apply(*self, glyph_ids(glyph_seq@), idx as int) == Some(
                    (recs_n.0@, recs_n.1 as int),
                ),
                None => spec_seq_apply(*self, glyph_ids(glyph_seq@), idx as int) is None,
            },
    {
        let ghost gs = glyph_ids(glyph_seq@);
        let ghost rest = gs.skip(idx + 1);
        let rest_len = glyph_seq.len() - idx - 1;
        let anchor = vstd::slice::slice_index_get(glyph_seq, idx).glyph();
        proof {
            assert(gs[idx as int] == anchor.0);
        }
        match self {
            SequenceContextFormat::Format1 { coverage, seq_rules } => {
                let ci = match coverage.for_glyph(anchor) {
                    Some(ci) => ci,
                    None => {
                        return None;
                    },
                };
                let rules = match &seq_rules[ci] {
                    Some(rules) => rules,
                    None => {
                        return None;
                    },
                };
                for k in 0..rules.len()
                    invariant
                        forall|j: int|
                            0 <= j < k ==> !input_matches((#[trigger] rules@[j]).input_seq@, rest),
                {
                    let rule = &rules[k];
                    if rule.input_seq.len() <= rest_len {
                        let n = rule.input_seq.len();
                        let mut m = true;
                        let mut j: usize = 0;
                        while j < n
                            invariant
                                j <= n,
                                m <==> (forall|t: int|
                                    0 <= t < j ==> rest[t] == (#[trigger] rule.input_seq@[t])
                                        as u32),
                            decreases n - j,
                        {
                            let g = vstd::slice::slice_index_get(glyph_seq, idx + 1 + j).glyph();
                            proof {
                                assert(rest[j as int] == gs[idx + 1 + j]);
                                assert(gs[idx + 1 + j] == g.0);
                            }
                            if g.0 != (rule.input_seq[j] as u32) {
                                m = false;
                            }
                            j += 1;
                        }
                        if m {
                            proof {
                                assert(input_matches(rule.input_seq@, rest));
                                lemma_first_match_wins(rules@, rest, k as int);
                            }
                            return Some((&rule.lookup_records, 1 + rule.input_seq.len()));
                        }
                    }
                }
                proof {
                    lemma_first_glyph_match_characterizes(rules@, rest);
                }
                None
            },
            SequenceContextFormat::Format2 { coverage, classdef, seq_rules } => {
                match coverage.for_glyph(anchor) {
                    Some(_) => (),
                    None => {
                        return None;
                    },
                };
                let cls = match classdef.glyph_class(anchor) {
                    Some(c) => c,
                    None => {
                        return None;
                    },
                };
                let rules = match &seq_rules[cls as usize] {
                    Some(rules) => rules,
                    None => {
                        return None;
                    },
                };
                for k in 0..rules.len()
                    invariant
                        forall|j: int|
                            0 <= j < k ==> !class_input_matches(
                                *classdef,
                                (#[trigger] rules@[j]).input_seq@,
                                rest,
                            ),
                {
                    let rule = &rules[k];
                    if rule.input_seq.len() <= rest_len {
                        let n = rule.input_seq.len();
                        let mut m = true;
                        let mut j: usize = 0;
                        while j < n
                            invariant
                                j <= n,
                                m <==> (forall|t: int|
                                    0 <= t < j ==> classdef.spec_class(rest[t]) == Some(
                                        (#[trigger] rule.input_seq@[t]) as u32,
                                    )),
                            decreases n - j,
                        {
                            let g = vstd::slice::slice_index_get(glyph_seq, idx + 1 + j).glyph();
                            proof {
                                assert(rest[j as int] == gs[idx + 1 + j]);
                                assert(gs[idx + 1 + j] == g.0);
                            }
                            let gc = classdef.glyph_class(g);
                            if gc != Some(rule.input_seq[j] as u32) {
                                m = false;
                            }
                            j += 1;
                        }
                        if m {
                            proof {
                                assert(class_input_matches(*classdef, rule.input_seq@, rest));
                                lemma_first_class_match_characterizes(*classdef, rules@, rest);
                            }
                            return Some((&rule.lookup_records, 1 + rule.input_seq.len()));
                        }
                    }
                }
                proof {
                    lemma_first_class_match_characterizes(*classdef, rules@, rest);
                }
                None
            },
            SequenceContextFormat::Format3 { coverages, lookup_records } => {
                if coverages.len() > rest_len + 1 {
                    return None;
                }
                let n = coverages.len();
                for t in 0..n
                    invariant
                        forall|u: int|
                            0 <= u < t ==> (#[trigger] coverages@[u]).spec_for_glyph(
                                gs[idx + u],
                            ) is Some,
                {
                    let g = vstd::slice::slice_index_get(glyph_seq, idx + t).glyph();
                    proof {
                        assert(gs[idx + t] == g.0);
                    }
                    let cov = &coverages[t];
                    match cov.for_glyph(g) {
                        Some(_) => (),
                        None => {
                            return None;
                        },
                    };
                }
                Some((lookup_records, n))
            },
        }
    }
}

} // verus!
