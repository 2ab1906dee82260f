//! The indexing orchestrator: for one document, insert the document row, then
//! page by page the page row, the chunk rows of the page's spans in bounded
//! batches, and a vector-index key per chunk — the key being exactly the
//! chunk's identifier in the metadata store, which keeps the two stores
//! joinable. Already-indexed paths are skipped.

use vstd::prelude::*;
use vstd::pervasive::unreached;
use vstd::string::StrSliceExecFns;
use crate::chunk_text::{
    chunk_spans, chunk_spans_of, lemma_grapheme_safety, lemma_span_bounds,
    lemma_span_count_le_text_len, lemma_spans_wf, ChunkSpan,
};
use crate::database::{span_wf, ChunkRow, Database, DbView};
use crate::graphemes::grapheme_facts;
use crate::vector_index::VectorIndexState;

verus! {

/// The default window size of the chunker, in grapheme clusters.
pub const CHUNK_SIZE: usize = 512;

/// The default stride of the chunker, in grapheme clusters.
pub const CHUNK_STRIDE: usize = 64;

/// The errors of the orchestrator: invalid chunking arguments.
#[derive(Clone, Copy, PartialEq, Eq, Structural, Debug)]
pub enum IndexError {
    /// `chunk_size` must be at least 1.
    InvalidChunkSize,
    /// `stride` must be at least 1.
    InvalidStride,
    /// `batch_size` must be at least 1.
    InvalidBatchSize,
}

/// One bounded group of chunks of a single page to be embedded: the page's
/// position, the chunk identifiers, and, in the same order, the texts to
/// embed under them.
pub struct EmbeddingBatch {
    pub page_no: usize,
    pub chunk_ids: Vec<i64>,
    pub texts: Vec<String>,
}

/// What indexing one document produced: its document row identifier and the
/// embedding batches, in order.
pub struct IndexedDocument {
    pub document_id: i64,
    pub batches: Vec<EmbeddingBatch>,
}

/// The outcome of `index_document`: the path was already indexed and skipped,
/// or the document was indexed.
pub enum IndexOutcome {
    Skipped,
    Indexed(IndexedDocument),
}

/// The number of characters over the first `k` page texts.
pub open spec fn total_chars(pages: Seq<String>, k: int) -> int
    decreases k,
{
    if k <= 0 {
        0
    } else {
        total_chars(pages, k - 1) + pages[k - 1]@.len()
    }
}

/// The chunk spans of page `p`.
pub open spec fn page_spans(pages: Seq<String>, p: int, size: int, stride: int) -> Seq<ChunkSpan> {
    chunk_spans_of(pages[p]@, size, stride)
}

/// The number of chunk spans over the first `p` pages.
pub open spec fn spans_before(pages: Seq<String>, p: int, size: int, stride: int) -> int
    decreases p,
{
    if p <= 0 {
        0
    } else {
        spans_before(pages, p - 1, size, stride) + page_spans(pages, p - 1, size, stride).len()
    }
}

/// The chunk rows that indexing page `p` adds, when `cc` chunk rows and `pp`
/// page rows existed before the document was indexed.
pub open spec fn page_chunk_rows(
    pages: Seq<String>,
    p: int,
    size: int,
    stride: int,
    cc: int,
    pp: int,
) -> Seq<ChunkRow> {
    Seq::new(
        page_spans(pages, p, size, stride).len(),
        |s: int|
            ChunkRow {
                id: (cc + spans_before(pages, p, size, stride) + s + 1) as i64,
                page_id: (pp + p + 1) as i64,
                span: page_spans(pages, p, size, stride)[s],
            },
    )
}

/// The chunk rows that indexing the first `p` pages adds.
pub open spec fn chunk_rows_upto(
    pages: Seq<String>,
    p: int,
    size: int,
    stride: int,
    cc: int,
    pp: int,
) -> Seq<ChunkRow>
    decreases p,
{
    if p <= 0 {
        Seq::empty()
    } else {
        chunk_rows_upto(pages, p - 1, size, stride, cc, pp) + page_chunk_rows(
            pages,
            p - 1,
            size,
            stride,
            cc,
            pp,
        )
    }
}

/// The texts of page `p`'s chunks, in span order.
pub open spec fn page_chunk_texts(pages: Seq<String>, p: int, size: int, stride: int) -> Seq<
    Seq<char>,
> {
    Seq::new(
        page_spans(pages, p, size, stride).len(),
        |s: int|
            pages[p]@.subrange(
                page_spans(pages, p, size, stride)[s].char_start as int,
                page_spans(pages, p, size, stride)[s].char_end as int,
            ),
    )
}

/// The texts of the first `p` pages' chunks, in order.
pub open spec fn chunk_texts_upto(pages: Seq<String>, p: int, size: int, stride: int) -> Seq<
    Seq<char>,
>
    decreases p,
{
    if p <= 0 {
        Seq::empty()
    } else {
        chunk_texts_upto(pages, p - 1, size, stride) + page_chunk_texts(pages, p - 1, size, stride)
    }
}

/// The cumulative rows and texts have one entry per span.
pub proof fn lemma_upto_lens(pages: Seq<String>, p: int, size: int, stride: int, cc: int, pp: int)
    requires
        0 <= p,
    ensures
        chunk_rows_upto(pages, p, size, stride, cc, pp).len() == spans_before(
            pages,
            p,
            size,
            stride,
        ),
        chunk_texts_upto(pages, p, size, stride).len() == spans_before(pages, p, size, stride),
    decreases p,
{
    if p > 0 {
        lemma_upto_lens(pages, p - 1, size, stride, cc, pp);
    }
}

/// The cross-store invariant: the vector index holds exactly the chunk
/// identifiers of the metadata store, in insertion order.
pub open spec fn cross_consistent(v: DbView, x: VectorIndexState) -> bool {
    &&& x.keys_seq().len() == v.chunks.len()
    &&& forall|k: int| 0 <= k < v.chunks.len() ==> (#[trigger] x.keys_seq()[k]) == (k + 1) as u64
}

/// The text of chunk row `k` of the store: its page's text sliced by the
/// chunk's span.
pub open spec fn chunk_text_at(v: DbView, k: int) -> Seq<char> {
    v.pages[v.chunks[k].page_id - 1].text@.subrange(
        v.chunks[k].span.char_start as int,
        v.chunks[k].span.char_end as int,
    )
}

/// The chunk identifiers of the batches, flattened in order.
pub open spec fn flat_ids(bs: Seq<EmbeddingBatch>) -> Seq<i64> {
    bs.map_values(|b: EmbeddingBatch| b.chunk_ids@).flatten()
}

/// The texts of the batches, flattened in order.
pub open spec fn flat_texts(bs: Seq<EmbeddingBatch>) -> Seq<Seq<char>> {
    bs.map_values(|b: EmbeddingBatch| b.texts@.map_values(|t: String| t@)).flatten()
}

/// Every batch holds as many identifiers as texts, at least one and at most
/// `bsz` of each.
pub open spec fn batches_bounded(bs: Seq<EmbeddingBatch>, bsz: int) -> bool {
    forall|b: int|
        0 <= b < bs.len() ==> {
            let eb = #[trigger] bs[b];
            eb.chunk_ids@.len() == eb.texts@.len() && 1 <= eb.chunk_ids@.len() <= bsz
        }
}

/// The batches are grouped page by page: page positions never decrease, and
/// only the last batch of a page may hold fewer than `bsz` chunks.
pub open spec fn batches_page_grouped(bs: Seq<EmbeddingBatch>, bsz: int) -> bool {
    &&& forall|b1: int, b2: int|
        0 <= b1 <= b2 < bs.len() ==> (#[trigger] bs[b1]).page_no <= (#[trigger] bs[b2]).page_no
    &&& forall|b: int|
        0 <= b && b + 1 < bs.len() && (#[trigger] bs[b]).chunk_ids@.len() < bsz ==> bs[b].page_no
            < bs[b + 1].page_no
}

/// Neither store changed.
pub open spec fn stores_unchanged(
    v0: DbView,
    v1: DbView,
    x0: VectorIndexState,
    x1: VectorIndexState,
) -> bool {
    &&& v1 == v0
    &&& x1.keys_seq() == x0.keys_seq()
    &&& x1.cap() == x0.cap()
}

/// The store state after indexing one document against state `(v0, x0)`: one
/// new document row for `path`, one new page row per page text in order, the
/// chunk rows of every page's spans in span order, a matching vector-index
/// key per chunk, and embedding batches that carry exactly the new chunks'
/// identifiers and texts, in bounded groups.
pub open spec fn document_indexed(
    v0: DbView,
    x0: VectorIndexState,
    path: Seq<char>,
    pages: Seq<String>,
    size: int,
    stride: int,
    bsz: int,
    v1: DbView,
    x1: VectorIndexState,
    rep: IndexedDocument,
) -> bool {
    let dd = v0.docs.len() as int;
    let pp = v0.pages.len() as int;
    let cc = v0.chunks.len() as int;
    let nn = pages.len() as int;
    let tt = spans_before(pages, nn, size, stride);
    &&& rep.document_id == dd + 1
    &&& v1.docs.len() == dd + 1
    &&& v1.docs.take(dd) == v0.docs
    &&& v1.docs.last().id == dd + 1
    &&& v1.docs.last().path@ == path
    &&& v1.pages.len() == pp + nn
    &&& v1.pages.take(pp) == v0.pages
    &&& forall|k: int|
        0 <= k < nn ==> {
            let pr = #[trigger] v1.pages[pp + k];
            pr.id == pp + k + 1 && pr.document_id == dd + 1 && pr.page_no == k && pr.text@
                == pages[k]@
        }
    &&& v1.chunks == v0.chunks + chunk_rows_upto(pages, nn, size, stride, cc, pp)
    &&& x1.cap() == x0.cap() + tt
    &&& cross_consistent(v1, x1)
    &&& flat_ids(rep.batches@) == Seq::new(tt as nat, |g: int| (cc + g + 1) as i64)
    &&& flat_texts(rep.batches@) == chunk_texts_upto(pages, nn, size, stride)
    &&& batches_bounded(rep.batches@, bsz)
    &&& forall|b: int| 0 <= b < rep.batches@.len() ==> (#[trigger] rep.batches@[b]).page_no < nn
    &&& batches_page_grouped(rep.batches@, bsz)
    &&& forall|b: int, t: int|
        0 <= b < rep.batches@.len() && 0 <= t < rep.batches@[b].chunk_ids@.len() ==> {
            let id = #[trigger] rep.batches@[b].chunk_ids@[t];
            cc < id <= v1.chunks.len() && v1.chunks[id - 1].page_id == pp + rep.batches@[b].page_no
                + 1
        }
}

/// Pushing a batch appends its identifiers and texts to the flattened views.
proof fn lemma_flat_push(bs: Seq<EmbeddingBatch>, b: EmbeddingBatch)
    ensures
        flat_ids(bs.push(b)) == flat_ids(bs) + b.chunk_ids@,
        flat_texts(bs.push(b)) == flat_texts(bs) + b.texts@.map_values(|t: String| t@),
{
    broadcast use Seq::<_>::group_seq_flatten;
    broadcast use Seq::<_>::group_seq_flatten;

    assert(bs.push(b).map_values(|eb: EmbeddingBatch| eb.chunk_ids@) =~= bs.map_values(
        |eb: EmbeddingBatch| eb.chunk_ids@,
    ).push(b.chunk_ids@));
    assert(flat_ids(bs.push(b)) =~= flat_ids(bs) + b.chunk_ids@);
    assert(bs.push(b).map_values(|eb: EmbeddingBatch| eb.texts@.map_values(|t: String| t@))
        =~= bs.map_values(|eb: EmbeddingBatch| eb.texts@.map_values(|t: String| t@)).push(
        b.texts@.map_values(|t: String| t@),
    ));
    assert(flat_texts(bs.push(b)) =~= flat_texts(bs) + b.texts@.map_values(|t: String| t@));
}

/// The spans the chunker emits satisfy the store's span well-formedness for
/// the same text.
proof fn lemma_spans_are_store_wf(t: Seq<char>, size: int, stride: int)
    requires
        grapheme_facts(t),
        size >= 1,
        stride >= 1,
    ensures
        forall|k: int|
            0 <= k < chunk_spans_of(t, size, stride).len() ==> span_wf(
                t,
                #[trigger] chunk_spans_of(t, size, stride)[k],
            ),
{
    lemma_spans_wf(t, size, stride);
    lemma_grapheme_safety(t, size, stride);
    assert forall|k: int| 0 <= k < chunk_spans_of(t, size, stride).len() implies span_wf(
        t,
        #[trigger] chunk_spans_of(t, size, stride)[k],
    ) by {
        lemma_span_bounds(t, chunk_spans_of(t, size, stride)[k]);
    }
}

/// Character totals only grow with the page position.
proof fn lemma_total_chars_monotone(pages: Seq<String>, p: int, q: int)
    requires
        0 <= p <= q,
    ensures
        total_chars(pages, p) <= total_chars(pages, q),
    decreases q - p,
{
    if p < q {
        lemma_total_chars_monotone(pages, p, q - 1);
    }
}

/// Indexes one page: inserts the page row, computes the page's chunk spans,
/// and per bounded batch inserts the chunk rows, reserves vector-index
/// capacity, adds one key per chunk identifier, and appends the embedding
/// batch. Returns the page row identifier.
#[verifier::rlimit(100)]
fn index_page(
    db: &mut Database,
    vindex: &mut VectorIndexState,
    document_id: i64,
    page_no: usize,
    text: &str,
    chunk_size: usize,
    stride: usize,
    batch_size: usize,
    batches: &mut Vec<EmbeddingBatch>,
) -> (page_id: i64)
    requires
        old(db)@.wf(),
        cross_consistent(old(db)@, *old(vindex)),
        old(vindex).cap() >= old(vindex).keys_seq().len(),
        1 <= document_id <= old(db)@.docs.len(),
        old(db)@.pages.len() < i64::MAX,
        old(db)@.chunks.len() + text@.len() <= i64::MAX,
        old(vindex).cap() + text@.len() <= usize::MAX,
        chunk_size >= 1,
        stride >= 1,
        batch_size >= 1,
    ensures
        ({
            let sp = chunk_spans_of(text@, chunk_size as int, stride as int);
            let pp = old(db)@.pages.len() as int;
            let cc = old(db)@.chunks.len() as int;
            &&& final(db)@.wf()
            &&& grapheme_facts(text@)
            &&& sp.len() <= text@.len()
            &&& page_id == pp + 1
            &&& final(db)@.docs == old(db)@.docs
            &&& final(db)@.pages.len() == pp + 1
            &&& final(db)@.pages.take(pp) == old(db)@.pages
            &&& final(db)@.pages.last().id == pp + 1
            &&& final(db)@.pages.last().document_id == document_id
            &&& final(db)@.pages.last().page_no == page_no
            &&& final(db)@.pages.last().text@ == text@
            &&& final(db)@.chunks == old(db)@.chunks + Seq::new(
                sp.len(),
                |s: int|
                    ChunkRow {
                        id: (cc + s + 1) as i64,
                        page_id: (pp + 1) as i64,
                        span: sp[s],
                    },
            )
            &&& final(vindex).cap() == old(vindex).cap() + sp.len()
            &&& final(vindex).cap() >= final(vindex).keys_seq().len()
            &&& cross_consistent(final(db)@, *final(vindex))
            &&& final(batches)@.len() >= old(batches)@.len()
            &&& final(batches)@.take(old(batches)@.len() as int) == old(batches)@
            &&& flat_ids(final(batches)@) == flat_ids(old(batches)@) + Seq::new(
                sp.len(),
                |s: int| (cc + s + 1) as i64,
            )
            &&& flat_texts(final(batches)@) == flat_texts(old(batches)@) + Seq::new(
                sp.len(),
                |s: int| text@.subrange(sp[s].char_start as int, sp[s].char_end as int),
            )
            &&& forall|b: int|
                old(batches)@.len() <= b < final(batches)@.len() ==> {
                    let eb = #[trigger] final(batches)@[b];
                    eb.chunk_ids@.len() == eb.texts@.len() && 1 <= eb.chunk_ids@.len()
                        <= batch_size && eb.page_no == page_no
                }
            &&& forall|b: int|
                old(batches)@.len() <= b && b + 1 < final(batches)@.len() ==> (
                #[trigger] final(batches)@[b]).chunk_ids@.len() == batch_size
            &&& forall|b: int, t: int|
                old(batches)@.len() <= b < final(batches)@.len() && 0 <= t < final(
                    batches)@[b].chunk_ids@.len() ==> {
                    let id = #[trigger] final(batches)@[b].chunk_ids@[t];
                    cc < id <= cc + sp.len() && final(db)@.chunks[id - 1].page_id == pp + 1
                }
        }),
{
    let ghost v0 = old(db)@;
    let ghost x0 = *old(vindex);
    let ghost b0 = old(batches)@;
    let ghost size = chunk_size as int;
    let ghost stri = stride as int;
    let page_id = db.insert_page(document_id, page_no, text).unwrap();
    let spans = chunk_spans(text, chunk_size, stride);
    proof {
        lemma_spans_are_store_wf(text@, size, stri);
        lemma_span_count_le_text_len(text@, size, stri);
    }
    let ghost sp = chunk_spans_of(text@, size, stri);
    let ghost pp = v0.pages.len() as int;
    let ghost cc = v0.chunks.len() as int;
    let mut s: usize = 0;
    while s < spans.len()
        invariant
            chunk_size >= 1,
            stride >= 1,
            batch_size >= 1,
            size == chunk_size as int,
            stri == stride as int,
            sp == chunk_spans_of(text@, size, stri),
            spans@ == sp,
            grapheme_facts(text@),
            forall|k: int| 0 <= k < sp.len() ==> span_wf(text@, #[trigger] sp[k]),
            sp.len() <= text@.len(),
            s <= sp.len(),
            pp == v0.pages.len(),
            cc == v0.chunks.len(),
            cc + text@.len() <= i64::MAX,
            x0.cap() + text@.len() <= usize::MAX,
            x0.cap() >= cc,
            db@.wf(),
            1 <= page_id <= db@.pages.len(),
            page_id == pp + 1,
            db@.docs == v0.docs,
            db@.pages.len() == pp + 1,
            db@.pages.take(pp) == v0.pages,
            db@.pages.last().id == pp + 1,
            db@.pages.last().document_id == document_id,
            db@.pages.last().page_no == page_no,
            db@.pages.last().text@ == text@,
            db@.chunks == v0.chunks + Seq::new(
                s as nat,
                |t: int| ChunkRow { id: (cc + t + 1) as i64, page_id: (pp + 1) as i64, span: sp[t] },
            ),
            vindex.cap() == x0.cap() + s,
            cross_consistent(db@, *vindex),
            batches@.len() >= b0.len(),
            batches@.take(b0.len() as int) == b0,
            flat_ids(batches@) == flat_ids(b0) + Seq::new(s as nat, |t: int| (cc + t + 1) as i64),
            flat_texts(batches@) == flat_texts(b0) + Seq::new(
                s as nat,
                |t: int| text@.subrange(sp[t].char_start as int, sp[t].char_end as int),
            ),
            forall|b: int|
                b0.len() <= b < batches@.len() ==> {
                    let eb = #[trigger] batches@[b];
                    eb.chunk_ids@.len() == eb.texts@.len() && 1 <= eb.chunk_ids@.len()
                        <= batch_size && eb.page_no == page_no
                },
            forall|b: int|
                b0.len() <= b && b + 1 < batches@.len() ==> (
                #[trigger] batches@[b]).chunk_ids@.len() == batch_size,
            s < sp.len() && batches@.len() > b0.len() ==> batches@.last().chunk_ids@.len()
                == batch_size,
            forall|b: int, t: int|
                b0.len() <= b < batches@.len() && 0 <= t < batches@[b].chunk_ids@.len() ==> {
                    let id = #[trigger] batches@[b].chunk_ids@[t];
                    cc < id <= cc + s && db@.chunks[id - 1].page_id == pp + 1
                },
        decreases sp.len() - s,
    {
        let ghost dbs = db@;
        let ghost bprev = batches@;
        let m = if spans.len() - s < batch_size {
            spans.len() - s
        } else {
            batch_size
        };
        let e = s + m;
        let mut sub: Vec<ChunkSpan> = Vec::new();
        let mut texts: Vec<String> = Vec::new();
        let mut j = s;
        while j < e
            invariant
                s <= j <= e <= sp.len(),
                spans@ == sp,
                grapheme_facts(text@),
                forall|k: int| 0 <= k < sp.len() ==> span_wf(text@, #[trigger] sp[k]),
                sub@ == sp.subrange(s as int, j as int),
                texts@.len() == j - s,
                forall|t: int|
                    0 <= t < j - s ==> (#[trigger] texts@[t])@ == text@.subrange(
                        sp[s + t].char_start as int,
                        sp[s + t].char_end as int,
                    ),
            decreases e - j,
        {
            let sw = spans[j];
            proof {
                assert(span_wf(text@, sp[j as int]));
            }
            sub.push(sw);
            texts.push(text.substring_char(sw.char_start, sw.char_end).to_owned());
            proof {
                assert(sub@ =~= sp.subrange(s as int, j + 1 as int));
            }
            j += 1;
        }
        let ids = match db.insert_chunks(page_id, &sub) {
            Ok(ids) => ids,
            Err(_) => unreached(),
        };
        proof {
            assert(db@.chunks =~= v0.chunks + Seq::new(
                e as nat,
                |t: int| ChunkRow { id: (cc + t + 1) as i64, page_id: (pp + 1) as i64, span: sp[t] },
            )) by {
                assert(db@.chunks.len() == cc + e);
                assert(db@.chunks.take(cc + s) == dbs.chunks);
                assert forall|k: int| 0 <= k < cc + e implies db@.chunks[k] == (v0.chunks
                    + Seq::new(
                    e as nat,
                    |t: int|
                        ChunkRow { id: (cc + t + 1) as i64, page_id: (pp + 1) as i64, span: sp[t] },
                ))[k] by {
                    if k < cc + s {
                        assert(db@.chunks.take(cc + s)[k] == db@.chunks[k]);
                        assert(dbs.chunks[k] == (v0.chunks + Seq::new(
                            s as nat,
                            |t: int|
                                ChunkRow {
                                    id: (cc + t + 1) as i64,
                                    page_id: (pp + 1) as i64,
                                    span: sp[t],
                                },
                        ))[k]);
                    } else {
                        let t = k - (cc + s);
                        assert(db@.chunks[cc + s + t].id == cc + s + t + 1 && db@.chunks[cc + s
                            + t].page_id == page_id && db@.chunks[cc + s + t].span == sub@[t]);
                        assert(sub@[t] == sp[s + t]);
                    }
                }
            }
        }
        let newcap = vindex.capacity() + ids.len();
        vindex.reserve(newcap);
        let mut t: usize = 0;
        while t < ids.len()
            invariant
                t <= ids@.len(),
                ids@.len() == m,
                s + m == e <= sp.len(),
                cc == v0.chunks.len(),
                db@.chunks.len() == cc + e,
                forall|k: int| 0 <= k < m ==> #[trigger] ids@[k] == cc + s + k + 1,
                vindex.cap() == x0.cap() + e,
                vindex.cap() == x0.cap() + s + m,
                x0.cap() >= cc,
                vindex.keys_seq().len() == cc + s + t,
                forall|k: int|
                    0 <= k < cc + s + t ==> (#[trigger] vindex.keys_seq()[k]) == (k + 1) as u64,
            decreases ids@.len() - t,
        {
            let id = ids[t];
            let res = vindex.add(id as u64);
            proof {
                assert(res is Ok);
            }
            t += 1;
        }
        proof {
            lemma_flat_push(
                batches@,
                EmbeddingBatch { page_no, chunk_ids: ids, texts: texts },
            );
        }
        let ghost idsv = ids@;
        let ghost textsv = texts@;
        batches.push(EmbeddingBatch { page_no, chunk_ids: ids, texts });
        proof {
            assert(batches@.take(b0.len() as int) =~= bprev.take(b0.len() as int));
            assert(flat_ids(batches@) == flat_ids(bprev) + idsv);
            assert(flat_ids(batches@) =~= flat_ids(b0) + Seq::new(
                e as nat,
                |t: int| (cc + t + 1) as i64,
            ));
            assert(textsv.map_values(|t: String| t@) =~= Seq::new(
                (e - s) as nat,
                |t: int| text@.subrange(sp[s + t].char_start as int, sp[s + t].char_end as int),
            ));
            assert(flat_texts(batches@) =~= flat_texts(b0) + Seq::new(
                e as nat,
                |t: int| text@.subrange(sp[t].char_start as int, sp[t].char_end as int),
            ));
            assert forall|b: int|
                b0.len() <= b < batches@.len() implies {
                let eb = #[trigger] batches@[b];
                eb.chunk_ids@.len() == eb.texts@.len() && 1 <= eb.chunk_ids@.len() <= batch_size
            } by {
                if b < bprev.len() {
                    assert(batches@[b] == bprev[b]);
                }
            }
        }
        s = e;
    }
    page_id
}

/// Indexes one document given its page texts: skips paths that are already
/// indexed, rejects invalid chunking arguments, and otherwise inserts the
/// document, its pages and their chunks, reserves vector-index capacity and
/// adds one key per chunk — the chunk's own store identifier — and returns
/// the embedding batches for the caller to run. On success or skip, the
/// cross-store identifier invariant is preserved.
#[verifier::rlimit(100)]
pub fn index_document(
    db: &mut Database,
    vindex: &mut VectorIndexState,
    path: &str,
    pages: &Vec<String>,
    chunk_size: usize,
    stride: usize,
    batch_size: usize,
) -> (r: Result<IndexOutcome, IndexError>)
    requires
        old(db)@.wf(),
        cross_consistent(old(db)@, *old(vindex)),
        old(vindex).cap() >= old(vindex).keys_seq().len(),
        old(db)@.docs.len() < i64::MAX,
        old(db)@.pages.len() + pages@.len() <= i64::MAX,
        old(db)@.chunks.len() + total_chars(pages@, pages@.len() as int) <= i64::MAX,
        old(vindex).cap() + total_chars(pages@, pages@.len() as int) <= usize::MAX,
    ensures
        final(db)@.wf(),
        final(vindex).cap() >= final(vindex).keys_seq().len(),
        cross_consistent(final(db)@, *final(vindex)),
        chunk_size == 0 ==> r == Err::<IndexOutcome, IndexError>(IndexError::InvalidChunkSize)
            && stores_unchanged(old(db)@, final(db)@, *old(vindex), *final(vindex)),
        chunk_size >= 1 && stride == 0 ==> r == Err::<IndexOutcome, IndexError>(
            IndexError::InvalidStride,
        ) && stores_unchanged(old(db)@, final(db)@, *old(vindex), *final(vindex)),
        chunk_size >= 1 && stride >= 1 && batch_size == 0 ==> r == Err::<IndexOutcome, IndexError>(
            IndexError::InvalidBatchSize,
        ) && stores_unchanged(old(db)@, final(db)@, *old(vindex), *final(vindex)),
        chunk_size >= 1 && stride >= 1 && batch_size >= 1 && old(db)@.contains_path(path@) ==> r
            is Ok && r->Ok_0 is Skipped && stores_unchanged(
            old(db)@,
            final(db)@,
            *old(vindex),
            *final(vindex),
        ),
        chunk_size >= 1 && stride >= 1 && batch_size >= 1 && !old(db)@.contains_path(path@) ==> r
            is Ok && r->Ok_0 is Indexed && document_indexed(
            old(db)@,
            *old(vindex),
            path@,
            pages@,
            chunk_size as int,
            stride as int,
            batch_size as int,
            final(db)@,
            *final(vindex),
            r->Ok_0->Indexed_0,
        ),
{
    if chunk_size == 0 {
        return Err(IndexError::InvalidChunkSize);
    }
    if stride == 0 {
        return Err(IndexError::InvalidStride);
    }
    if batch_size == 0 {
        return Err(IndexError::InvalidBatchSize);
    }
    if db.document_exists(path) {
        return Ok(IndexOutcome::Skipped);
    }
    let ghost v0 = old(db)@;
    let ghost x0 = *old(vindex);
    let ghost pv = pages@;
    let ghost size = chunk_size as int;
    let ghost stri = stride as int;
    let ghost nn = pages@.len() as int;
    let ghost dd = v0.docs.len() as int;
    let ghost pp = v0.pages.len() as int;
    let ghost cc = v0.chunks.len() as int;
    let document_id = db.insert_document(path).unwrap();
    let mut batches: Vec<EmbeddingBatch> = Vec::new();
    let mut p: usize = 0;
    proof {
        assert(flat_ids(batches@) =~= Seq::new(0nat, |t: int| (cc + t + 1) as i64));
        assert(flat_texts(batches@) =~= chunk_texts_upto(pv, 0, size, stri));
        assert(db@.chunks =~= v0.chunks + chunk_rows_upto(pv, 0, size, stri, cc, pp));
    }
    while p < pages.len()
        invariant
            chunk_size >= 1,
            stride >= 1,
            batch_size >= 1,
            size == chunk_size as int,
            stri == stride as int,
            pv == pages@,
            nn == pv.len(),
            dd == v0.docs.len(),
            pp == v0.pages.len(),
            cc == v0.chunks.len(),
            p <= nn,
            v0.wf(),
            dd < i64::MAX,
            pp + nn <= i64::MAX,
            cc + total_chars(pv, nn) <= i64::MAX,
            x0.cap() + total_chars(pv, nn) <= usize::MAX,
            x0.cap() >= cc,
            db@.wf(),
            document_id == dd + 1,
            db@.docs.len() == dd + 1,
            db@.docs.take(dd) == v0.docs,
            db@.docs.last().id == dd + 1,
            db@.docs.last().path@ == path@,
            db@.pages.len() == pp + p,
            db@.pages.take(pp) == v0.pages,
            forall|k: int|
                0 <= k < p ==> {
                    let pr = #[trigger] db@.pages[pp + k];
                    pr.id == pp + k + 1 && pr.document_id == dd + 1 && pr.page_no == k && pr.text@
                        == pv[k]@
                },
            db@.chunks == v0.chunks + chunk_rows_upto(pv, p as int, size, stri, cc, pp),
            db@.chunks.len() == cc + spans_before(pv, p as int, size, stri),
            spans_before(pv, p as int, size, stri) <= total_chars(pv, p as int),
            vindex.cap() == x0.cap() + spans_before(pv, p as int, size, stri),
            cross_consistent(db@, *vindex),
            flat_ids(batches@) == Seq::new(
                spans_before(pv, p as int, size, stri) as nat,
                |g: int| (cc + g + 1) as i64,
            ),
            flat_texts(batches@) == chunk_texts_upto(pv, p as int, size, stri),
            batches_bounded(batches@, batch_size as int),
            forall|b: int| 0 <= b < batches@.len() ==> (#[trigger] batches@[b]).page_no < p,
            batches_page_grouped(batches@, batch_size as int),
            forall|b: int, t: int|
                0 <= b < batches@.len() && 0 <= t < batches@[b].chunk_ids@.len() ==> {
                    let id = #[trigger] batches@[b].chunk_ids@[t];
                    cc < id <= db@.chunks.len() && db@.chunks[id - 1].page_id == pp
                        + batches@[b].page_no + 1
                },
        decreases nn - p,
    {
        let ghost dbp = db@;
        let ghost bp = batches@;
        let ghost sbp = spans_before(pv, p as int, size, stri);
        proof {
            lemma_total_chars_monotone(pv, p + 1 as int, nn);
            assert(total_chars(pv, p + 1 as int) == total_chars(pv, p as int)
                + pv[p as int]@.len());
            lemma_upto_lens(pv, p as int, size, stri, cc, pp);
        }
        let text = &pages[p];
        let page_id = index_page(
            db,
            vindex,
            document_id,
            p,
            text.as_str(),
            chunk_size,
            stride,
            batch_size,
            &mut batches,
        );
        proof {
            let sp = chunk_spans_of(pv[p as int]@, size, stri);
            assert(page_spans(pv, p as int, size, stri) == sp);
            assert(spans_before(pv, p + 1 as int, size, stri) == sbp + sp.len());
            lemma_upto_lens(pv, p + 1 as int, size, stri, cc, pp);
            // pages: prefix is stable, the new last row matches
            assert(db@.pages.take(pp) =~= v0.pages) by {
                assert(db@.pages.take(pp + p) == dbp.pages);
                assert forall|k: int| 0 <= k < pp implies db@.pages[k] == v0.pages[k] by {
                    assert(db@.pages.take(pp + p)[k] == db@.pages[k]);
                    assert(dbp.pages.take(pp)[k] == dbp.pages[k]);
                }
            }
            assert forall|k: int| 0 <= k < p + 1 implies {
                let pr = #[trigger] db@.pages[pp + k];
                pr.id == pp + k + 1 && pr.document_id == dd + 1 && pr.page_no == k && pr.text@
                    == pv[k]@
            } by {
                if k < p {
                    assert(db@.pages.take(pp + p)[pp + k] == db@.pages[pp + k]);
                    assert(db@.pages[pp + k] == dbp.pages[pp + k]);
                } else {
                    assert(db@.pages[pp + p] == db@.pages.last());
                }
            }
            // chunks: the appended rows of this page extend the cumulative rows
            assert(Seq::new(
                sp.len(),
                |s: int|
                    ChunkRow {
                        id: (cc + sbp + s + 1) as i64,
                        page_id: (pp + p + 1) as i64,
                        span: sp[s],
                    },
            ) =~= page_chunk_rows(pv, p as int, size, stri, cc, pp));
            assert(db@.chunks =~= v0.chunks + chunk_rows_upto(pv, p + 1 as int, size, stri, cc, pp));
            // flattened identifiers and texts extend
            assert(flat_ids(batches@) =~= Seq::new(
                (sbp + sp.len()) as nat,
                |g: int| (cc + g + 1) as i64,
            ));
            assert(Seq::new(
                sp.len(),
                |s: int| pv[p as int]@.subrange(sp[s].char_start as int, sp[s].char_end as int),
            ) =~= page_chunk_texts(pv, p as int, size, stri));
            assert(flat_texts(batches@) =~= chunk_texts_upto(pv, p + 1 as int, size, stri));
            assert forall|k: int| 0 <= k < bp.len() implies batches@[k] == bp[k] by {
                assert(batches@.take(bp.len() as int)[k] == batches@[k]);
            }
            assert forall|b: int| 0 <= b < batches@.len() implies {
                let eb = #[trigger] batches@[b];
                eb.chunk_ids@.len() == eb.texts@.len() && 1 <= eb.chunk_ids@.len() <= batch_size
            } by {
                if b < bp.len() {
                    assert(batches@[b] == bp[b]);
                }
            }
            assert forall|b: int| 0 <= b < batches@.len() implies (#[trigger] batches@[b]).page_no
                < p + 1 by {
                if b < bp.len() {
                    assert(batches@[b] == bp[b]);
                }
            }
            assert forall|b1: int, b2: int| 0 <= b1 <= b2 < batches@.len() implies (
            #[trigger] batches@[b1]).page_no <= (#[trigger] batches@[b2]).page_no by {
                if b1 < bp.len() && b2 < bp.len() {
                    assert(batches@[b1] == bp[b1] && batches@[b2] == bp[b2]);
                } else if b1 < bp.len() {
                    assert(batches@[b1] == bp[b1]);
                    assert(batches@[b1].page_no < p);
                    assert(batches@[b2].page_no == p);
                }
            }
            assert forall|b: int|
                0 <= b && b + 1 < batches@.len() && (#[trigger] batches@[b]).chunk_ids@.len()
                    < batch_size implies batches@[b].page_no < batches@[b + 1].page_no by {
                if b + 1 < bp.len() {
                    assert(batches@[b] == bp[b] && batches@[b + 1] == bp[b + 1]);
                } else if b < bp.len() {
                    assert(batches@[b] == bp[b]);
                    assert(batches@[b].page_no < p);
                    assert(batches@[b + 1].page_no == p);
                } else {
                    assert(batches@[b].chunk_ids@.len() == batch_size);
                }
            }
            assert forall|b: int, t: int|
                0 <= b < batches@.len() && 0 <= t < batches@[b].chunk_ids@.len() implies {
                let id = #[trigger] batches@[b].chunk_ids@[t];
                cc < id <= db@.chunks.len() && db@.chunks[id - 1].page_id == pp
                    + batches@[b].page_no + 1
            } by {
                let id = batches@[b].chunk_ids@[t];
                if b < bp.len() {
                    assert(batches@[b] == bp[b]);
                    assert(cc < id <= dbp.chunks.len());
                    assert(db@.chunks[id - 1] == dbp.chunks[id - 1]);
                } else {
                    assert(cc + sbp < id <= cc + sbp + sp.len());
                    assert(db@.chunks[id - 1].page_id == pp + p + 1);
                    assert(batches@[b].page_no == p);
                }
            }
        }
        p += 1;
    }
    proof {
        assert(chunk_rows_upto(pv, nn, size, stri, cc, pp) == chunk_rows_upto(
            pv,
            p as int,
            size,
            stri,
            cc,
            pp,
        ));
    }
    Ok(IndexOutcome::Indexed(IndexedDocument { document_id, batches }))
}

/// Indexing into the cumulative chunk rows and texts: entry
/// `spans_before(p) + s` belongs to span `s` of page `p`.
proof fn lemma_upto_index(
    pages: Seq<String>,
    nn: int,
    size: int,
    stride: int,
    cc: int,
    pp: int,
    p: int,
    s: int,
)
    requires
        0 <= p < nn,
        0 <= s < page_spans(pages, p, size, stride).len(),
    ensures
        chunk_rows_upto(pages, nn, size, stride, cc, pp)[spans_before(pages, p, size, stride) + s]
            == (ChunkRow {
            id: (cc + spans_before(pages, p, size, stride) + s + 1) as i64,
            page_id: (pp + p + 1) as i64,
            span: page_spans(pages, p, size, stride)[s],
        }),
        chunk_texts_upto(pages, nn, size, stride)[spans_before(pages, p, size, stride) + s]
            == pages[p]@.subrange(
            page_spans(pages, p, size, stride)[s].char_start as int,
            page_spans(pages, p, size, stride)[s].char_end as int,
        ),
        0 <= spans_before(pages, p, size, stride) + s < spans_before(pages, nn, size, stride),
    decreases nn,
{
    lemma_upto_lens(pages, nn, size, stride, cc, pp);
    lemma_upto_lens(pages, nn - 1, size, stride, cc, pp);
    lemma_spans_before_monotone(pages, p, nn - 1, size, stride);
    if p < nn - 1 {
        lemma_upto_index(pages, nn - 1, size, stride, cc, pp, p, s);
        lemma_upto_lens(pages, p + 1, size, stride, cc, pp);
        lemma_spans_before_monotone(pages, p + 1, nn - 1, size, stride);
    } else {
        assert(chunk_rows_upto(pages, nn, size, stride, cc, pp) == chunk_rows_upto(
            pages,
            nn - 1,
            size,
            stride,
            cc,
            pp,
        ) + page_chunk_rows(pages, nn - 1, size, stride, cc, pp));
        assert(chunk_texts_upto(pages, nn, size, stride) == chunk_texts_upto(
            pages,
            nn - 1,
            size,
            stride,
        ) + page_chunk_texts(pages, nn - 1, size, stride));
    }
}

/// Span totals only grow with the page position.
proof fn lemma_spans_before_monotone(
    pages: Seq<String>,
    p: int,
    q: int,
    size: int,
    stride: int,
)
    requires
        0 <= p <= q,
    ensures
        spans_before(pages, p, size, stride) <= spans_before(pages, q, size, stride),
    decreases q - p,
{
    if p < q {
        lemma_spans_before_monotone(pages, p, q - 1, size, stride);
    }
}

/// Every position among the new chunks lies within exactly one page's spans.
proof fn lemma_locate_span(pages: Seq<String>, nn: int, size: int, stride: int, g: int)
    requires
        0 <= g < spans_before(pages, nn, size, stride),
        0 <= nn,
    ensures
        exists|p: int|
            0 <= p < nn && #[trigger] spans_before(pages, p, size, stride) <= g && g
                < spans_before(pages, p, size, stride) + page_spans(pages, p, size, stride).len(),
    decreases nn,
{
    if nn > 0 {
        if g < spans_before(pages, nn - 1, size, stride) {
            lemma_locate_span(pages, nn - 1, size, stride, g);
        } else {
            assert(spans_before(pages, nn - 1, size, stride) <= g < spans_before(
                pages,
                nn - 1,
                size,
                stride,
            ) + page_spans(pages, nn - 1, size, stride).len());
        }
    }
}

/// Round-trip law (identifier and text): after indexing, each flattened batch
/// entry `g` carries the identifier of chunk row `cc + g`, the vector index
/// holds the same identifier at the same position, and the batch text equals
/// that chunk's text as the store resolves it — so looking the key up returns
/// exactly what was embedded under it.
pub proof fn lemma_round_trip_resolution(
    v0: DbView,
    x0: VectorIndexState,
    path: Seq<char>,
    pages: Seq<String>,
    size: int,
    stride: int,
    bsz: int,
    v1: DbView,
    x1: VectorIndexState,
    rep: IndexedDocument,
)
    requires
        v1.wf(),
        document_indexed(v0, x0, path, pages, size, stride, bsz, v1, x1, rep),
    ensures
        forall|g: int|
            0 <= g < flat_ids(rep.batches@).len() ==> {
                let cc = v0.chunks.len() as int;
                &&& (#[trigger] flat_ids(rep.batches@)[g]) == v1.chunks[cc + g].id
                &&& x1.keys_seq()[cc + g] == flat_ids(rep.batches@)[g] as u64
                &&& flat_texts(rep.batches@)[g] == chunk_text_at(v1, cc + g)
            },
{
    let cc = v0.chunks.len() as int;
    let pp = v0.pages.len() as int;
    let nn = pages.len() as int;
    let tt = spans_before(pages, nn, size, stride);
    lemma_upto_lens(pages, nn, size, stride, cc, pp);
    crate::database::lemma_wf_len_bounds(v1);
    assert(v1.chunks.len() == cc + tt);
    assert forall|g: int| 0 <= g < flat_ids(rep.batches@).len() implies {
        &&& (#[trigger] flat_ids(rep.batches@)[g]) == v1.chunks[cc + g].id
        &&& x1.keys_seq()[cc + g] == flat_ids(rep.batches@)[g] as u64
        &&& flat_texts(rep.batches@)[g] == chunk_text_at(v1, cc + g)
    } by {
        lemma_locate_span(pages, nn, size, stride, g);
        let p = choose|p: int|
            0 <= p < nn && #[trigger] spans_before(pages, p, size, stride) <= g && g
                < spans_before(pages, p, size, stride) + page_spans(pages, p, size, stride).len();
        let s = g - spans_before(pages, p, size, stride);
        lemma_upto_index(pages, nn, size, stride, cc, pp, p, s);
        assert(v1.chunks[cc + g] == chunk_rows_upto(pages, nn, size, stride, cc, pp)[g]);
        assert(v1.chunks[cc + g] == ChunkRow {
            id: (cc + g + 1) as i64,
            page_id: (pp + p + 1) as i64,
            span: page_spans(pages, p, size, stride)[s],
        });
        assert(v1.pages[pp + p].text@ == pages[p]@);
        assert(chunk_text_at(v1, cc + g) == pages[p]@.subrange(
            page_spans(pages, p, size, stride)[s].char_start as int,
            page_spans(pages, p, size, stride)[s].char_end as int,
        ));
        assert(flat_texts(rep.batches@)[g] == chunk_texts_upto(pages, nn, size, stride)[g]);
    }
}

/// Re-indexing law: once a document was indexed under a path, the store
/// contains that path, so by the contract of `index_document` a second call
/// for the same path is skipped and leaves both stores unchanged.
pub proof fn lemma_reindexing_skips(
    v0: DbView,
    x0: VectorIndexState,
    path: Seq<char>,
    pages: Seq<String>,
    size: int,
    stride: int,
    bsz: int,
    v1: DbView,
    x1: VectorIndexState,
    rep: IndexedDocument,
)
    requires
        document_indexed(v0, x0, path, pages, size, stride, bsz, v1, x1, rep),
    ensures
        v1.contains_path(path),
{
    let n = v1.docs.len() as int;
    assert(v1.docs[n - 1].path@ == path);
}

} // verus!
