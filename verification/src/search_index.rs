//! The retrieval-time join: nearest-neighbor keys coming back from the vector
//! index are resolved through the metadata store to the source document path,
//! page number and chunk text, in the order the index returned them. A key
//! with no matching metadata row is a consistency violation, surfaced as an
//! error distinct from an empty result.

use vstd::prelude::*;
use crate::database::{Database, DbView, StoreError};
use crate::index_pdf::cross_consistent;
use crate::vector_index::VectorIndexState;

verus! {

/// The errors of retrieval.
#[derive(Clone, Copy, PartialEq, Eq, Structural, Debug)]
pub enum SearchError {
    /// The vector index returned this key, but the metadata store has no
    /// chunk row for it: the two stores disagree about the identifier space.
    ConsistencyViolation(u64),
}

/// One resolved result: the key the vector index returned, and the source
/// document path, page number and chunk text it resolves to.
pub struct ResolvedMatch {
    pub key: u64,
    pub path: String,
    pub page_no: usize,
    pub text: String,
}

/// The store can resolve `key` as a chunk identifier.
pub open spec fn key_resolves(v: DbView, key: u64) -> bool {
    1 <= key <= v.chunks.len()
}

/// `m` is the resolution of `key` through the store: the joined document
/// path, the page number and the page text sliced by the chunk's span.
pub open spec fn match_resolved(v: DbView, key: u64, m: ResolvedMatch) -> bool {
    let c = v.chunks[key - 1];
    let p = v.pages[c.page_id - 1];
    let d = v.docs[p.document_id - 1];
    &&& m.key == key
    &&& m.path@ == d.path@
    &&& m.page_no == p.page_no
    &&& m.text@ == p.text@.subrange(c.span.char_start as int, c.span.char_end as int)
}

/// Resolves the returned keys in order. Succeeds exactly when every key has a
/// chunk row; otherwise reports the first key that has none as a consistency
/// violation.
pub fn resolve_matches(db: &Database, keys: &Vec<u64>) -> (r: Result<
    Vec<ResolvedMatch>,
    SearchError,
>)
    requires
        db@.wf(),
    ensures
        (forall|k: int| 0 <= k < keys@.len() ==> key_resolves(db@, #[trigger] keys@[k])) <==> r
            is Ok,
        r is Ok ==> r->Ok_0@.len() == keys@.len() && forall|k: int|
            0 <= k < keys@.len() ==> match_resolved(db@, keys@[k], #[trigger] r->Ok_0@[k]),
        r is Err ==> exists|j: int|
            0 <= j < keys@.len() && !key_resolves(db@, #[trigger] keys@[j]) && (forall|i: int|
                0 <= i < j ==> key_resolves(db@, #[trigger] keys@[i])) && r->Err_0
                == SearchError::ConsistencyViolation(keys@[j]),
{
    let mut out: Vec<ResolvedMatch> = Vec::new();
    let mut k: usize = 0;
    while k < keys.len()
        invariant
            db@.wf(),
            k <= keys@.len(),
            out@.len() == k,
            forall|t: int| 0 <= t < k ==> key_resolves(db@, #[trigger] keys@[t]),
            forall|t: int| 0 <= t < k ==> match_resolved(db@, keys@[t], #[trigger] out@[t]),
        decreases keys@.len() - k,
    {
        let key = keys[k];
        match db.get_document(key) {
            Ok((path, page_no, text)) => {
                out.push(ResolvedMatch { key, path, page_no, text });
            },
            Err(_) => {
                return Err(SearchError::ConsistencyViolation(key));
            },
        }
        k += 1;
    }
    Ok(out)
}

/// Cross-store law: under the identifier invariant, every key the vector
/// index holds resolves through the metadata store, and resolving it yields
/// exactly the chunk row it was assigned for.
pub proof fn lemma_index_keys_resolve(v: DbView, x: VectorIndexState)
    requires
        v.wf(),
        cross_consistent(v, x),
    ensures
        forall|k: int|
            0 <= k < x.keys_seq().len() ==> key_resolves(v, #[trigger] x.keys_seq()[k]),
        forall|k: int|
            0 <= k < x.keys_seq().len() ==> v.chunks[#[trigger] x.keys_seq()[k] - 1].id
                == x.keys_seq()[k],
{
    assert forall|k: int| 0 <= k < x.keys_seq().len() implies key_resolves(
        v,
        #[trigger] x.keys_seq()[k],
    ) && v.chunks[x.keys_seq()[k] - 1].id == x.keys_seq()[k] by {
        assert(x.keys_seq()[k] == (k + 1) as u64);
        assert(v.chunks[k].id == k + 1);
    }
}

} // verus!
