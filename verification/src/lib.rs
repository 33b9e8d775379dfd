//! Glyph-substitution matching core of an OpenType shaper: coverage tables
//! and the sequence-context / chained-sequence-context engines of the GSUB
//! table, decoded from big-endian sub-table buffers and queried per glyph.

pub mod types;
pub mod coverage;
pub mod classdef;
pub mod ctx_lookup;
pub mod chained;
