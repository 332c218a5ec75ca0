use vstd::prelude::*;
use vstd::string::StringSliceAdditionalSpecFns;

pub mod codec;
pub mod compressor;
pub mod delta;
pub mod errors;
pub mod tree;

pub use compressor::DeltaCompressor;
pub use delta::{Delta, Op};
pub use errors::RstzError;

use compressor::{delta_ops, lemma_length_conservation, lemma_ops_in_bounds, lemma_reconstruction};
use delta::{apply_ops, inserts_full_between, ops_in_bounds, ops_len};

verus! {

/// Compresses `target` against `source` into a delta of copies and inserts.
pub fn xdelta(source: &str, target: &str) -> (d: Delta)
    ensures
        d@.source_size == source.spec_bytes().len(),
        d@.target_size == target.spec_bytes().len(),
        d@.ops == delta_ops(source.spec_bytes(), target.spec_bytes()),
        apply_ops(source.spec_bytes(), d@.ops) == target.spec_bytes(),
        ops_len(d@.ops) == d@.target_size,
        ops_in_bounds(source.spec_bytes().len(), d@.ops),
        inserts_full_between(d@.ops),
{
    let mut compressor = DeltaCompressor::new(source.as_bytes(), target.as_bytes());
    compressor.compress();
    proof {
        lemma_reconstruction(source.spec_bytes(), target.spec_bytes());
        lemma_length_conservation(source.spec_bytes(), target.spec_bytes());
        lemma_ops_in_bounds(source.spec_bytes(), target.spec_bytes());
    }
    compressor.gendelta()
}

} // verus!
