//! The permission gate: computes the 8-bit capability mask that is
//! attached to a base relation when the relation is created.
//!
//! Bit meanings: bit 0 gates the cross-principal answer feed, bit 1
//! gates the research aggregate, bit 2 is the core flag and is always
//! set while the owning shard is live.  A relation's mask is fixed at
//! node-creation time; changing a principal's permission rebuilds the
//! gated relation rather than editing the mask in place.

use vstd::prelude::*;

verus! {

/// Bit 0: rows may appear in the cross-principal answer feed.
pub const MASK_ANSWERS_VISIBLE: u8 = 1;

/// Bit 1: the principal opted into the research aggregate.
pub const MASK_RESEARCH: u8 = 2;

/// Bit 2: core flag, set while the shard is live.
pub const MASK_CORE: u8 = 4;

/// Staff receive every capability: visible, research and core.
pub const MASK_STAFF: u8 = 7;

/// Whether a relation with this mask feeds the cross-principal answer feed.
pub open spec fn answers_visible(mask: u8) -> bool {
    mask & MASK_ANSWERS_VISIBLE != 0
}

/// Whether a relation with this mask feeds the research aggregate.
pub open spec fn research_opted_in(mask: u8) -> bool {
    mask & MASK_RESEARCH != 0
}

/// Whether the core flag is set; it must be while the shard is live.
pub open spec fn core_live(mask: u8) -> bool {
    mask & MASK_CORE != 0
}

/// The mask a freshly provisioned shard's relations receive: staff get
/// the full capability set, ordinary principals get the configured
/// default with the core flag forced on.
pub open spec fn spec_mask_for(is_staff: bool, default_mask: u8) -> u8 {
    if is_staff {
        MASK_STAFF
    } else {
        default_mask | MASK_CORE
    }
}

/// Forcing the core flag on keeps it on, whatever the default was.
pub proof fn lemma_mask_for_core(is_staff: bool, default_mask: u8)
    ensures
        core_live(spec_mask_for(is_staff, default_mask)),
{
    assert(7u8 & 4u8 != 0) by (bit_vector);
    assert((default_mask | 4u8) & 4u8 != 0) by (bit_vector);
}

/// Computes the mask for a new shard's relations.
pub fn mask_for(is_staff: bool, default_mask: u8) -> (m: u8)
    ensures
        m == spec_mask_for(is_staff, default_mask),
        core_live(m),
{
    proof {
        lemma_mask_for_core(is_staff, default_mask);
    }
    if is_staff {
        MASK_STAFF
    } else {
        default_mask | MASK_CORE
    }
}

/// Tests bit 0 of a mask at run time.
pub fn mask_allows_answers(mask: u8) -> (b: bool)
    ensures
        b == answers_visible(mask),
{
    mask & MASK_ANSWERS_VISIBLE != 0
}

/// Tests bit 1 of a mask at run time.
pub fn mask_allows_research(mask: u8) -> (b: bool)
    ensures
        b == research_opted_in(mask),
{
    mask & MASK_RESEARCH != 0
}

/// Tests the core flag of a mask at run time.
pub fn mask_is_core(mask: u8) -> (b: bool)
    ensures
        b == core_live(mask),
{
    mask & MASK_CORE != 0
}

} // verus!
