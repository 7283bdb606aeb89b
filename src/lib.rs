//! Aggregation and rewriting of base-modification calls carried by aligned
//! sequencing reads in MM/ML tags.
use vstd::prelude::*;

pub mod delta_list;
pub mod dna;
pub mod mod_base_code;
pub mod motif;
pub mod interval_chunks;
pub mod mm_tag;
pub mod mod_bam;
pub mod mod_pileup;
pub mod mod_probs;
pub mod profile;
pub mod read_cache;
pub mod read_ids_to_base_mod_probs;
pub mod record;
pub mod thresholds;

verus! {

} // verus!
