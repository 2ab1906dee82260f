//! The compute side of embedding generation: the batching bound, the fixed
//! vector dimensionality, and the exact string handed to the embedding model
//! for each text. The model call itself is outside work performed by the
//! program around this library.

use vstd::prelude::*;
use vstd::string::StringExecFns;

verus! {

/// Chunks are embedded in bounded batches of at most this many strings.
pub const EMBEDDING_BATCH_SIZE: usize = 256;

/// The fixed dimensionality of the embedding vectors.
pub const EMBEDDING_DIMENSIONS: usize = 768;

/// The instruction prefixed to every text before it is embedded.
pub open spec fn embedding_prefix() -> Seq<char> {
    "Represent this sentence for searching relevant passages: "@
}

/// The exact string handed to the embedding model for a text: the retrieval
/// instruction followed by the text itself.
pub fn embedding_input(text: &str) -> (r: String)
    ensures
        r@ == embedding_prefix() + text@,
{
    let mut s = "Represent this sentence for searching relevant passages: ".to_owned();
    s.append(text);
    s
}

} // verus!
