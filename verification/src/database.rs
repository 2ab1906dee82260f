//! The relational metadata store: documents, pages and chunks, with dense
//! monotonically increasing identifiers, a uniqueness constraint on document
//! paths, and the join used at retrieval time.

use vstd::prelude::*;
use vstd::string::{StrSliceExecFns, StringSliceAdditionalSpecFns};
use vstd::utf8::encode_utf8;
use crate::chunk_text::ChunkSpan;

verus! {

/// One row of the documents table.
pub struct DocumentRow {
    pub id: i64,
    pub path: String,
}

/// One row of the pages table.
pub struct PageRow {
    pub id: i64,
    pub document_id: i64,
    pub page_no: usize,
    pub text: String,
}

/// One row of the chunks table.
#[derive(Clone, Copy)]
pub struct ChunkRow {
    pub id: i64,
    pub page_id: i64,
    pub span: ChunkSpan,
}

/// The errors of the metadata store.
#[derive(Clone, Copy, PartialEq, Eq, Structural, Debug)]
pub enum StoreError {
    /// A document with the same path already exists.
    DuplicatePath,
    /// The named document row does not exist.
    MissingDocument,
    /// The named page row does not exist.
    MissingPage,
    /// The named chunk row does not exist.
    NotFound,
}

/// The span lies within the page text `t`: its character offsets are strictly
/// increasing and in bounds, and its byte offsets are the UTF-8 lengths of the
/// text before the corresponding character offsets.
pub open spec fn span_wf(t: Seq<char>, s: ChunkSpan) -> bool {
    &&& s.char_start < s.char_end <= t.len()
    &&& s.start == encode_utf8(t.take(s.char_start as int)).len()
    &&& s.end == encode_utf8(t.take(s.char_end as int)).len()
}

/// The mathematical contents of the store: the three tables as row sequences.
pub struct DbView {
    pub docs: Seq<DocumentRow>,
    pub pages: Seq<PageRow>,
    pub chunks: Seq<ChunkRow>,
}

impl DbView {
    /// Some document row carries the path `p`.
    pub open spec fn contains_path(self, p: Seq<char>) -> bool {
        exists|k: int| 0 <= k < self.docs.len() && (#[trigger] self.docs[k]).path@ == p
    }

    /// Well-formedness of the store: identifiers are dense and assigned in
    /// insertion order starting from 1, paths are unique, every page belongs
    /// to a document, and every chunk belongs to a page with a span that lies
    /// within that page's text.
    pub open spec fn wf(self) -> bool {
        &&& forall|k: int| 0 <= k < self.docs.len() ==> (#[trigger] self.docs[k]).id == k + 1
        &&& forall|k1: int, k2: int|
            0 <= k1 < self.docs.len() && 0 <= k2 < self.docs.len() && k1 != k2 ==> (
            #[trigger] self.docs[k1]).path@ != (#[trigger] self.docs[k2]).path@
        &&& forall|k: int|
            0 <= k < self.pages.len() ==> {
                let p = #[trigger] self.pages[k];
                p.id == k + 1 && 1 <= p.document_id <= self.docs.len()
            }
        &&& forall|k: int|
            0 <= k < self.chunks.len() ==> {
                let c = #[trigger] self.chunks[k];
                c.id == k + 1 && 1 <= c.page_id <= self.pages.len() && span_wf(
                    self.pages[c.page_id - 1].text@,
                    c.span,
                )
            }
    }
}

/// The metadata store itself.
pub struct Database {
    documents: Vec<DocumentRow>,
    pages: Vec<PageRow>,
    chunks: Vec<ChunkRow>,
}

impl View for Database {
    type V = DbView;

    closed spec fn view(&self) -> DbView {
        DbView { docs: self.documents@, pages: self.pages@, chunks: self.chunks@ }
    }
}

impl Database {
    /// A fresh, empty store.
    pub fn new() -> (db: Database)
        ensures
            db@.wf(),
            db@.docs.len() == 0,
            db@.pages.len() == 0,
            db@.chunks.len() == 0,
    {
        Database { documents: Vec::new(), pages: Vec::new(), chunks: Vec::new() }
    }

    /// How many document rows the store holds.
    pub fn document_count(&self) -> (r: usize)
        ensures
            r == self@.docs.len(),
    {
        self.documents.len()
    }

    /// How many page rows the store holds.
    pub fn page_count(&self) -> (r: usize)
        ensures
            r == self@.pages.len(),
    {
        self.pages.len()
    }

    /// How many chunk rows the store holds.
    pub fn chunk_count(&self) -> (r: usize)
        ensures
            r == self@.chunks.len(),
    {
        self.chunks.len()
    }

    /// The chunk row at position `k`, in insertion order.
    pub fn get_chunk(&self, k: usize) -> (r: ChunkRow)
        requires
            k < self@.chunks.len(),
        ensures
            r == self@.chunks[k as int],
    {
        self.chunks[k]
    }

    /// Whether a document with the given path exists; used to skip
    /// re-indexing.
    pub fn document_exists(&self, path: &str) -> (r: bool)
        ensures
            r == self@.contains_path(path@),
    {
        let mut k: usize = 0;
        while k < self.documents.len()
            invariant
                k <= self@.docs.len(),
                forall|t: int| 0 <= t < k ==> (#[trigger] self@.docs[t]).path@ != path@,
            decreases self@.docs.len() - k,
        {
            if str_eq(self.documents[k].path.as_str(), path) {
                return true;
            }
            k += 1;
        }
        false
    }

    /// Inserts a document row and returns its identifier. Fails exactly when
    /// a document with the same path already exists, leaving the store
    /// unchanged.
    pub fn insert_document(&mut self, path: &str) -> (r: Result<i64, StoreError>)
        requires
            old(self)@.wf(),
            old(self)@.docs.len() < i64::MAX,
        ensures
            final(self)@.wf(),
            old(self)@.contains_path(path@) ==> r == Err::<i64, StoreError>(
                StoreError::DuplicatePath,
            ) && final(self)@ == old(self)@,
            !old(self)@.contains_path(path@) ==> {
                &&& r == Ok::<i64, StoreError>((old(self)@.docs.len() + 1) as i64)
                &&& final(self)@.docs.len() == old(self)@.docs.len() + 1
                &&& final(self)@.docs.take(old(self)@.docs.len() as int) == old(self)@.docs
                &&& final(self)@.docs.last().id == old(self)@.docs.len() + 1
                &&& final(self)@.docs.last().path@ == path@
                &&& final(self)@.pages == old(self)@.pages
                &&& final(self)@.chunks == old(self)@.chunks
            },
    {
        if self.document_exists(path) {
            return Err(StoreError::DuplicatePath);
        }
        let id: i64 = (self.documents.len() as i64) + 1;
        let row = DocumentRow { id, path: path.to_owned() };
        self.documents.push(row);
        proof {
            assert(final(self)@.docs.take(old(self)@.docs.len() as int) =~= old(self)@.docs);
            assert forall|k: int|
                0 <= k < old(self)@.docs.len() implies (#[trigger] old(self)@.docs[k]).path@
                != path@ by {
                if old(self)@.docs[k].path@ == path@ {
                    assert(old(self)@.contains_path(path@));
                }
            }
            assert forall|k1: int, k2: int|
                0 <= k1 < final(self)@.docs.len() && 0 <= k2 < final(self)@.docs.len() && k1
                != k2 implies (#[trigger] final(self)@.docs[k1]).path@ != (
            #[trigger] final(self)@.docs[k2]).path@ by {
                let n = old(self)@.docs.len() as int;
                if k1 < n && k2 < n {
                    assert(final(self)@.docs[k1] == old(self)@.docs[k1]);
                    assert(final(self)@.docs[k2] == old(self)@.docs[k2]);
                } else if k1 < n {
                    assert(final(self)@.docs[k2].path@ == path@);
                    assert(final(self)@.docs[k1] == old(self)@.docs[k1]);
                } else {
                    assert(final(self)@.docs[k1].path@ == path@);
                    assert(final(self)@.docs[k2] == old(self)@.docs[k2]);
                }
            }
            assert forall|k: int|
                0 <= k < final(self)@.docs.len() implies (#[trigger] final(self)@.docs[k]).id == k
                + 1 by {
                if k < old(self)@.docs.len() {
                    assert(final(self)@.docs[k] == old(self)@.docs[k]);
                }
            }
            assert forall|k: int|
                0 <= k < final(self)@.pages.len() implies {
                let p = #[trigger] final(self)@.pages[k];
                p.id == k + 1 && 1 <= p.document_id <= final(self)@.docs.len()
            } by {
                assert(old(self)@.pages[k].id == k + 1 && 1 <= old(self)@.pages[k].document_id
                    <= old(self)@.docs.len());
            }
            assert forall|k: int|
                0 <= k < final(self)@.chunks.len() implies {
                let c = #[trigger] final(self)@.chunks[k];
                c.id == k + 1 && 1 <= c.page_id <= final(self)@.pages.len() && span_wf(
                    final(self)@.pages[c.page_id - 1].text@,
                    c.span,
                )
            } by {
                let c = old(self)@.chunks[k];
                assert(c.id == k + 1 && 1 <= c.page_id <= old(self)@.pages.len() && span_wf(
                    old(self)@.pages[c.page_id - 1].text@,
                    c.span,
                ));
            }
            assert(final(self)@.wf());
        }
        Ok(id)
    }

    /// Inserts a page row for the given document and returns its identifier.
    /// Fails exactly when the document does not exist, leaving the store
    /// unchanged.
    pub fn insert_page(&mut self, document_id: i64, page_no: usize, text: &str) -> (r: Result<
        i64,
        StoreError,
    >)
        requires
            old(self)@.wf(),
            old(self)@.pages.len() < i64::MAX,
        ensures
            final(self)@.wf(),
            !(1 <= document_id <= old(self)@.docs.len()) ==> r == Err::<i64, StoreError>(
                StoreError::MissingDocument,
            ) && final(self)@ == old(self)@,
            1 <= document_id <= old(self)@.docs.len() ==> {
                &&& r == Ok::<i64, StoreError>((old(self)@.pages.len() + 1) as i64)
                &&& final(self)@.pages.len() == old(self)@.pages.len() + 1
                &&& final(self)@.pages.take(old(self)@.pages.len() as int) == old(self)@.pages
                &&& final(self)@.pages.last().id == old(self)@.pages.len() + 1
                &&& final(self)@.pages.last().document_id == document_id
                &&& final(self)@.pages.last().page_no == page_no
                &&& final(self)@.pages.last().text@ == text@
                &&& final(self)@.docs == old(self)@.docs
                &&& final(self)@.chunks == old(self)@.chunks
            },
    {
        proof {
            lemma_wf_len_bounds(self@);
        }
        if document_id < 1 || document_id > self.documents.len() as i64 {
            return Err(StoreError::MissingDocument);
        }
        let id: i64 = (self.pages.len() as i64) + 1;
        let row = PageRow { id, document_id, page_no, text: text.to_owned() };
        self.pages.push(row);
        proof {
            assert(final(self)@.pages.take(old(self)@.pages.len() as int) =~= old(self)@.pages);
        }
        Ok(id)
    }

    /// Inserts one chunk row per span for the given page, in order, and
    /// returns the identifiers in the same order. Fails exactly when the page
    /// does not exist, leaving the store unchanged.
    pub fn insert_chunks(&mut self, page_id: i64, spans: &Vec<ChunkSpan>) -> (r: Result<
        Vec<i64>,
        StoreError,
    >)
        requires
            old(self)@.wf(),
            old(self)@.chunks.len() + spans@.len() <= i64::MAX,
            1 <= page_id <= old(self)@.pages.len() ==> forall|k: int|
                0 <= k < spans@.len() ==> span_wf(
                    old(self)@.pages[page_id - 1].text@,
                    #[trigger] spans@[k],
                ),
        ensures
            final(self)@.wf(),
            !(1 <= page_id <= old(self)@.pages.len()) ==> r == Err::<Vec<i64>, StoreError>(
                StoreError::MissingPage,
            ) && final(self)@ == old(self)@,
            1 <= page_id <= old(self)@.pages.len() ==> {
                &&& r is Ok
                &&& r->Ok_0@.len() == spans@.len()
                &&& forall|k: int|
                    0 <= k < spans@.len() ==> r->Ok_0@[k] == old(self)@.chunks.len() + k + 1
                &&& final(self)@.chunks.len() == old(self)@.chunks.len() + spans@.len()
                &&& final(self)@.chunks.take(old(self)@.chunks.len() as int) == old(self)@.chunks
                &&& forall|k: int|
                    0 <= k < spans@.len() ==> {
                        let c = #[trigger] final(self)@.chunks[old(self)@.chunks.len() + k];
                        c.id == old(self)@.chunks.len() + k + 1 && c.page_id == page_id && c.span
                            == spans@[k]
                    }
                &&& final(self)@.docs == old(self)@.docs
                &&& final(self)@.pages == old(self)@.pages
            },
    {
        proof {
            lemma_wf_len_bounds(self@);
        }
        if page_id < 1 || page_id > self.pages.len() as i64 {
            return Err(StoreError::MissingPage);
        }
        let ghost base = self@.chunks.len() as int;
        let mut ids: Vec<i64> = Vec::new();
        let mut k: usize = 0;
        while k < spans.len()
            invariant
                old(self)@.wf(),
                1 <= page_id <= old(self)@.pages.len(),
                old(self)@.chunks.len() + spans@.len() <= i64::MAX,
                forall|t: int|
                    0 <= t < spans@.len() ==> span_wf(
                        old(self)@.pages[page_id - 1].text@,
                        #[trigger] spans@[t],
                    ),
                base == old(self)@.chunks.len(),
                k <= spans@.len(),
                ids@.len() == k,
                forall|t: int| 0 <= t < k ==> ids@[t] == base + t + 1,
                self@.docs == old(self)@.docs,
                self@.pages == old(self)@.pages,
                self@.chunks.len() == base + k,
                self@.chunks.take(base) == old(self)@.chunks,
                forall|t: int|
                    0 <= t < k ==> {
                        let c = #[trigger] self@.chunks[base + t];
                        c.id == base + t + 1 && c.page_id == page_id && c.span == spans@[t]
                    },
            decreases spans@.len() - k,
        {
            let id: i64 = (self.chunks.len() as i64) + 1;
            let row = ChunkRow { id, page_id, span: spans[k] };
            self.chunks.push(row);
            ids.push(id);
            proof {
                assert(self@.chunks.take(base) =~= old(self)@.chunks);
            }
            k += 1;
        }
        proof {
            lemma_insert_chunks_wf(old(self)@, self@, page_id as int, spans@);
        }
        Ok(ids)
    }

    /// Resolves a chunk identifier to the document path, the page number and
    /// the chunk's text, joining chunks to pages to documents and slicing the
    /// page text by the chunk's stored span. Fails exactly when no chunk row
    /// has the identifier.
    pub fn get_document(&self, chunk_id: u64) -> (r: Result<(String, usize, String), StoreError>)
        requires
            self@.wf(),
        ensures
            !(1 <= chunk_id <= self@.chunks.len()) ==> r == Err::<
                (String, usize, String),
                StoreError,
            >(StoreError::NotFound),
            1 <= chunk_id <= self@.chunks.len() ==> {
                let c = self@.chunks[chunk_id - 1];
                let p = self@.pages[c.page_id - 1];
                let d = self@.docs[p.document_id - 1];
                &&& r is Ok
                &&& r->Ok_0.0@ == d.path@
                &&& r->Ok_0.1 == p.page_no
                &&& r->Ok_0.2@ == p.text@.subrange(c.span.char_start as int, c.span.char_end as int)
            },
    {
        proof {
            lemma_wf_len_bounds(self@);
        }
        if chunk_id < 1 || chunk_id > self.chunks.len() as u64 {
            return Err(StoreError::NotFound);
        }
        let idx: usize = (chunk_id - 1) as usize;
        proof {
            let v = self@;
            let c0 = v.chunks[idx as int];
            assert(c0.id == idx + 1 && 1 <= c0.page_id <= v.pages.len() && span_wf(
                v.pages[c0.page_id - 1].text@,
                c0.span,
            ));
            let p0 = v.pages[c0.page_id - 1];
            assert(p0.id == c0.page_id && 1 <= p0.document_id <= v.docs.len());
        }
        let npages = self.pages.len();
        let ndocs = self.documents.len();
        let c = &self.chunks[idx];
        let page_idx: usize = (c.page_id - 1) as usize;
        let p = &self.pages[page_idx];
        let doc_idx: usize = (p.document_id - 1) as usize;
        let d = &self.documents[doc_idx];
        let text = p.text.as_str().substring_char(c.span.char_start, c.span.char_end).to_owned();
        Ok((d.path.clone(), p.page_no, text))
    }
}

/// The chunk span described by a persisted offset quadruple
/// `(start, end, char_start, char_end)`.
pub open spec fn span_of_tuple(o: (usize, usize, usize, usize)) -> ChunkSpan {
    ChunkSpan { start: o.0, end: o.1, char_start: o.2, char_end: o.3 }
}

/// Rebuilds the chunk spans of one page from persisted offsets. Returns the
/// spans exactly when every quadruple describes a real window of `text`:
/// strictly increasing character offsets within the text, with byte offsets
/// equal to the UTF-8 lengths of the corresponding character prefixes.
pub fn spans_from_offsets(text: &str, offsets: &Vec<(usize, usize, usize, usize)>) -> (r: Option<
    Vec<ChunkSpan>,
>)
    ensures
        r is Some <==> forall|k: int|
            0 <= k < offsets@.len() ==> span_wf(text@, span_of_tuple(#[trigger] offsets@[k])),
        r is Some ==> r->0@ == offsets@.map_values(|o: (usize, usize, usize, usize)| span_of_tuple(o)),
{
    let clusters = crate::graphemes::grapheme_clusters(text);
    proof {
        crate::graphemes::lemma_cluster_facts(clusters@, text@);
        crate::graphemes::lemma_total_offsets(text@);
    }
    let n = text.unicode_len();
    let mut spans: Vec<ChunkSpan> = Vec::new();
    let mut k: usize = 0;
    while k < offsets.len()
        invariant
            k <= offsets@.len(),
            crate::graphemes::grapheme_facts(text@),
            n == text@.len(),
            spans@ == offsets@.take(k as int).map_values(
                |o: (usize, usize, usize, usize)| span_of_tuple(o),
            ),
            forall|t: int|
                0 <= t < k ==> span_wf(text@, span_of_tuple(#[trigger] offsets@[t])),
        decreases offsets@.len() - k,
    {
        let (start, end, char_start, char_end) = offsets[k];
        if !(char_start < char_end && char_end <= n) {
            proof {
                assert(!span_wf(text@, span_of_tuple(offsets@[k as int])));
            }
            return None;
        }
        proof {
            lemma_prefix_encoding_fits(text@, char_start as int);
            lemma_prefix_encoding_fits(text@, char_end as int);
        }
        let byte_start = text.substring_char(0, char_start).len();
        let byte_end = text.substring_char(0, char_end).len();
        if byte_start != start || byte_end != end {
            proof {
                assert(!span_wf(text@, span_of_tuple(offsets@[k as int])));
            }
            return None;
        }
        spans.push(ChunkSpan { start, end, char_start, char_end });
        proof {
            assert(spans@ =~= offsets@.take(k + 1 as int).map_values(
                |o: (usize, usize, usize, usize)| span_of_tuple(o),
            ));
        }
        k += 1;
    }
    proof {
        assert(offsets@.take(offsets@.len() as int) =~= offsets@);
    }
    Some(spans)
}

/// Under `grapheme_facts`, the UTF-8 encoding of any character prefix of the
/// text is no longer than the whole text's, which fits in `usize`.
proof fn lemma_prefix_encoding_fits(s: Seq<char>, i: int)
    requires
        crate::graphemes::grapheme_facts(s),
        0 <= i <= s.len(),
    ensures
        encode_utf8(s.take(i)).len() <= encode_utf8(s).len() <= usize::MAX,
        s.subrange(0, i) == s.take(i),
{
    crate::graphemes::lemma_total_offsets(s);
    assert(s =~= s.take(i) + s.skip(i));
    crate::graphemes::lemma_encode_utf8_concat(s.take(i), s.skip(i));
    assert(s.subrange(0, i) =~= s.take(i));
}

/// A well-formed store never holds more rows per table than `i64::MAX`.
pub proof fn lemma_wf_len_bounds(v: DbView)
    requires
        v.wf(),
    ensures
        v.docs.len() <= i64::MAX,
        v.pages.len() <= i64::MAX,
        v.chunks.len() <= i64::MAX,
{
    if v.docs.len() > 0 {
        assert(v.docs[v.docs.len() - 1].id == v.docs.len() as int);
    }
    if v.pages.len() > 0 {
        assert(v.pages[v.pages.len() - 1].id == v.pages.len() as int);
    }
    if v.chunks.len() > 0 {
        assert(v.chunks[v.chunks.len() - 1].id == v.chunks.len() as int);
    }
}

/// Appending well-formed chunk rows for an existing page keeps the store
/// well-formed.
proof fn lemma_insert_chunks_wf(pre: DbView, post: DbView, page_id: int, spans: Seq<ChunkSpan>)
    requires
        pre.wf(),
        1 <= page_id <= pre.pages.len(),
        forall|t: int|
            0 <= t < spans.len() ==> span_wf(pre.pages[page_id - 1].text@, #[trigger] spans[t]),
        post.docs == pre.docs,
        post.pages == pre.pages,
        post.chunks.len() == pre.chunks.len() + spans.len(),
        post.chunks.take(pre.chunks.len() as int) == pre.chunks,
        forall|t: int|
            0 <= t < spans.len() ==> {
                let c = #[trigger] post.chunks[pre.chunks.len() + t];
                c.id == pre.chunks.len() + t + 1 && c.page_id == page_id && c.span == spans[t]
            },
    ensures
        post.wf(),
{
    assert forall|k: int| 0 <= k < post.chunks.len() implies {
        let c = #[trigger] post.chunks[k];
        c.id == k + 1 && 1 <= c.page_id <= post.pages.len() && span_wf(
            post.pages[c.page_id - 1].text@,
            c.span,
        )
    } by {
        if k < pre.chunks.len() {
            assert(post.chunks[k] == pre.chunks.take(pre.chunks.len() as int)[k]);
            assert(post.chunks[k] == pre.chunks[k]);
        } else {
            let t = k - pre.chunks.len();
            assert(post.chunks[pre.chunks.len() + t].id == pre.chunks.len() + t + 1);
            assert(span_wf(pre.pages[page_id - 1].text@, spans[t]));
        }
    }
}

/// Two strings are equal exactly when their character sequences are: their
/// UTF-8 byte slices are compared, and equal encodings decode to equal texts.
pub fn str_eq(a: &str, b: &str) -> (r: bool)
    ensures
        r == (a@ == b@),
{
    let ab = a.as_bytes();
    let bb = b.as_bytes();
    proof {
        broadcast use vstd::utf8::encode_utf8_decode_utf8;

        if a.spec_bytes() == b.spec_bytes() {
            assert(vstd::utf8::decode_utf8(encode_utf8(a@)) == a@);
            assert(vstd::utf8::decode_utf8(encode_utf8(b@)) == b@);
        }
    }
    if ab.len() != bb.len() {
        proof {
            assert(a.spec_bytes() != b.spec_bytes());
            if a@ == b@ {
                assert(a.spec_bytes() =~= b.spec_bytes());
            }
        }
        return false;
    }
    let mut k: usize = 0;
    while k < ab.len()
        invariant
            ab@ == a.spec_bytes(),
            bb@ == b.spec_bytes(),
            ab@.len() == bb@.len(),
            k <= ab@.len(),
            forall|t: int| 0 <= t < k ==> ab@[t] == bb@[t],
            (a@ == b@) == (a.spec_bytes() == b.spec_bytes()),
        decreases ab@.len() - k,
    {
        if ab[k] != bb[k] {
            proof {
                if a.spec_bytes() == b.spec_bytes() {
                    assert(ab@[k as int] == bb@[k as int]);
                }
            }
            return false;
        }
        k += 1;
    }
    proof {
        assert(ab@ =~= bb@);
    }
    true
}

} // verus!
