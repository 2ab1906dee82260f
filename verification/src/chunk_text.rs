//! Sliding-window chunking over grapheme clusters: window sizes and strides
//! are counted in user-perceived characters, and the emitted offsets never
//! fall inside a multi-code-point cluster.

use vstd::prelude::*;
use vstd::string::StrSliceExecFns;
use vstd::utf8::encode_utf8;
use crate::graphemes::{
    byte_off, char_off, cluster_views, grapheme_clusters, grapheme_facts, graphemes_of,
    lemma_char_off_le_byte_off, lemma_cluster_facts, lemma_off_monotone, lemma_total_offsets,
};

verus! {

/// One chunking window: `start`/`end` are byte offsets usable as slice bounds
/// on the original text, `char_start`/`char_end` the character offsets they
/// correspond to.
#[derive(Clone, Copy, PartialEq, Eq, Structural, Debug)]
pub struct ChunkSpan {
    pub start: usize,
    pub end: usize,
    pub char_start: usize,
    pub char_end: usize,
}

/// The window ranges over `n` grapheme clusters, in cluster positions, for a
/// cursor standing at position `i`: each window spans `size` clusters (clipped
/// to the end), cursors advance by `stride`, and the first window that reaches
/// the end of the text is the last one emitted.
pub open spec fn windows_from(n: int, size: int, stride: int, i: int) -> Seq<(int, int)>
    decreases (if i <= n { n - i } else { 0 }),
{
    if size < 1 || stride < 1 || i < 0 || i >= n {
        Seq::empty()
    } else if i + size >= n {
        seq![(i, n)]
    } else {
        seq![(i, i + size)] + windows_from(n, size, stride, i + stride)
    }
}

/// All window ranges over `n` grapheme clusters.
pub open spec fn grapheme_windows(n: int, size: int, stride: int) -> Seq<(int, int)> {
    windows_from(n, size, stride, 0)
}

/// The chunk span of the window `w`, in cluster positions, over the clusters `gs`.
pub open spec fn span_of(gs: Seq<Seq<char>>, w: (int, int)) -> ChunkSpan {
    ChunkSpan {
        start: byte_off(gs, w.0) as usize,
        end: byte_off(gs, w.1) as usize,
        char_start: char_off(gs, w.0) as usize,
        char_end: char_off(gs, w.1) as usize,
    }
}

/// The chunk spans of a text for the given window size and stride, both
/// counted in grapheme clusters.
pub open spec fn chunk_spans_of(t: Seq<char>, size: int, stride: int) -> Seq<ChunkSpan> {
    grapheme_windows(graphemes_of(t).len() as int, size, stride).map_values(
        |w: (int, int)| span_of(graphemes_of(t), w),
    )
}

/// The byte-offset pairs of the chunk spans of a text.
pub open spec fn index_pairs_of(t: Seq<char>, size: int, stride: int) -> Seq<(usize, usize)> {
    chunk_spans_of(t, size, stride).map_values(|s: ChunkSpan| (s.start, s.end))
}

/// `s` is the span of some window between two grapheme-cluster boundaries of `t`.
pub open spec fn span_in_text(t: Seq<char>, s: ChunkSpan) -> bool {
    exists|gi: int, gj: int|
        0 <= gi < gj <= graphemes_of(t).len() && s == span_of(graphemes_of(t), (gi, gj))
}

/// Every window emitted from cursor `i` lies between `i` and `n`, spans at
/// most `size` clusters, reaches `i + size` or the end, and stands `k * stride`
/// clusters after the cursor it was emitted for.
pub proof fn lemma_windows_from_wf(n: int, size: int, stride: int, i: int)
    requires
        size >= 1,
        stride >= 1,
        0 <= i,
    ensures
        forall|k: int|
            0 <= k < windows_from(n, size, stride, i).len() ==> {
                let w = #[trigger] windows_from(n, size, stride, i)[k];
                &&& i <= w.0 < w.1 <= n
                &&& w.1 <= w.0 + size
                &&& (w.1 == w.0 + size || w.1 == n)
                &&& w.0 == i + k * stride
            },
    decreases (if i <= n { n - i } else { 0 }),
{
    if i < n && i + size < n {
        lemma_windows_from_wf(n, size, stride, i + stride);
        assert forall|k: int| 0 <= k < windows_from(n, size, stride, i).len() implies {
            let w = #[trigger] windows_from(n, size, stride, i)[k];
            &&& i <= w.0 < w.1 <= n
            &&& w.1 <= w.0 + size
            &&& (w.1 == w.0 + size || w.1 == n)
            &&& w.0 == i + k * stride
        } by {
            if k > 0 {
                let w = windows_from(n, size, stride, i)[k];
                assert(w == windows_from(n, size, stride, i + stride)[k - 1]);
                assert(w.0 == i + stride + (k - 1) * stride);
                assert(i + stride + (k - 1) * stride == i + k * stride) by (nonlinear_arith);
            }
        }
    }
}

/// There are never more windows than clusters.
pub proof fn lemma_windows_from_count(n: int, size: int, stride: int, i: int)
    requires
        size >= 1,
        stride >= 1,
        0 <= i,
    ensures
        windows_from(n, size, stride, i).len() <= n - i || windows_from(
            n,
            size,
            stride,
            i,
        ).len() == 0,
    decreases (if i <= n { n - i } else { 0 }),
{
    if i < n && i + size < n {
        lemma_windows_from_count(n, size, stride, i + stride);
    }
}

/// A text never yields more chunk spans than it has characters.
pub proof fn lemma_span_count_le_text_len(t: Seq<char>, size: int, stride: int)
    requires
        grapheme_facts(t),
        size >= 1,
        stride >= 1,
    ensures
        chunk_spans_of(t, size, stride).len() <= t.len(),
{
    let gs = graphemes_of(t);
    let n = gs.len() as int;
    lemma_windows_from_count(n, size, stride, 0);
    crate::graphemes::lemma_char_off_ge(gs, n);
    lemma_total_offsets(t);
}

/// Helper: the spans emitted for a text are spans of windows between cluster
/// boundaries, with strictly increasing offsets that stay within the text.
pub proof fn lemma_spans_wf(t: Seq<char>, size: int, stride: int)
    requires
        grapheme_facts(t),
        size >= 1,
        stride >= 1,
    ensures
        forall|k: int|
            0 <= k < chunk_spans_of(t, size, stride).len() ==> span_in_text(
                t,
                #[trigger] chunk_spans_of(t, size, stride)[k],
            ),
{
    let gs = graphemes_of(t);
    let n = gs.len() as int;
    lemma_windows_from_wf(n, size, stride, 0);
    assert forall|k: int| 0 <= k < chunk_spans_of(t, size, stride).len() implies span_in_text(
        t,
        #[trigger] chunk_spans_of(t, size, stride)[k],
    ) by {
        let w = grapheme_windows(n, size, stride)[k];
        assert(chunk_spans_of(t, size, stride)[k] == span_of(gs, w));
        assert(0 <= w.0 < w.1 <= n);
    }
}

/// A span between cluster boundaries has strictly increasing offsets, both in
/// characters and in bytes, and stays within the text.
pub proof fn lemma_span_bounds(t: Seq<char>, s: ChunkSpan)
    requires
        grapheme_facts(t),
        span_in_text(t, s),
    ensures
        s.char_start < s.char_end <= t.len(),
        s.start < s.end <= encode_utf8(t).len(),
        encode_utf8(t).len() <= usize::MAX,
        t.len() <= usize::MAX,
{
    let gs = graphemes_of(t);
    let n = gs.len() as int;
    let (gi, gj): (int, int) = choose|gi: int, gj: int|
        0 <= gi < gj <= graphemes_of(t).len() && s == span_of(graphemes_of(t), (gi, gj));
    lemma_total_offsets(t);
    lemma_off_monotone(gs, 0, gi);
    lemma_off_monotone(gs, gi, gj);
    lemma_off_monotone(gs, gj, n);
    lemma_char_off_le_byte_off(gs, n);
}

/// Cluster position `g` lies inside some window emitted from cursor `i`.
pub open spec fn cluster_covered(n: int, size: int, stride: int, i: int, g: int) -> bool {
    exists|k: int|
        0 <= k < windows_from(n, size, stride, i).len() && (#[trigger] windows_from(
            n,
            size,
            stride,
            i,
        )[k]).0 <= g < windows_from(n, size, stride, i)[k].1
}

/// Helper for the coverage law: every cluster position from the cursor `i` to
/// the end lies inside some window, and the last window ends at `n`.
proof fn lemma_windows_cover(n: int, size: int, stride: int, i: int)
    requires
        1 <= stride <= size,
        0 <= i < n,
    ensures
        windows_from(n, size, stride, i).len() >= 1,
        windows_from(n, size, stride, i).last().1 == n,
        forall|g: int| i <= g < n ==> #[trigger] cluster_covered(n, size, stride, i, g),
    decreases n - i,
{
    let ws = windows_from(n, size, stride, i);
    if i + size >= n {
        assert(ws =~= seq![(i, n)]);
        assert forall|g: int| i <= g < n implies #[trigger] cluster_covered(
            n,
            size,
            stride,
            i,
            g,
        ) by {
            assert(ws[0].0 <= g < ws[0].1);
        }
    } else {
        lemma_windows_cover(n, size, stride, i + stride);
        let rest = windows_from(n, size, stride, i + stride);
        assert(ws =~= seq![(i, i + size)] + rest);
        assert(ws.last() == rest.last());
        assert forall|g: int| i <= g < n implies #[trigger] cluster_covered(
            n,
            size,
            stride,
            i,
            g,
        ) by {
            if g < i + size {
                assert(ws[0].0 <= g < ws[0].1);
            } else {
                assert(i + stride <= g < n);
                assert(cluster_covered(n, size, stride, i + stride, g));
                let k0 = choose|k0: int|
                    0 <= k0 < rest.len() && (#[trigger] rest[k0]).0 <= g < rest[k0].1;
                assert(ws[k0 + 1] == rest[k0]);
                assert(ws[k0 + 1].0 <= g < ws[k0 + 1].1);
            }
        }
    }
}

/// Chunk-coverage law: for non-empty text and `stride <= chunk_size`, at least
/// one span is emitted, window `k` starts at cluster `k * stride` and spans
/// `chunk_size` clusters clipped to the end of the text, every cluster lies in
/// some window, and the final span ends exactly at the end of the text, in
/// characters and in bytes.
pub proof fn lemma_chunk_coverage(t: Seq<char>, size: int, stride: int)
    requires
        grapheme_facts(t),
        1 <= stride <= size,
        graphemes_of(t).len() >= 1,
    ensures
        chunk_spans_of(t, size, stride).len() >= 1,
        chunk_spans_of(t, size, stride).last().char_end == t.len(),
        chunk_spans_of(t, size, stride).last().end == encode_utf8(t).len(),
        forall|k: int|
            0 <= k < chunk_spans_of(t, size, stride).len() ==> {
                let w = #[trigger] grapheme_windows(graphemes_of(t).len() as int, size, stride)[k];
                w.0 == k * stride && w.1 == (if k * stride + size <= graphemes_of(t).len() {
                    k * stride + size
                } else {
                    graphemes_of(t).len() as int
                })
            },
        forall|g: int|
            0 <= g < graphemes_of(t).len() ==> #[trigger] cluster_covered(
                graphemes_of(t).len() as int,
                size,
                stride,
                0,
                g,
            ),
{
    let gs = graphemes_of(t);
    let n = gs.len() as int;
    let ws = grapheme_windows(n, size, stride);
    lemma_windows_cover(n, size, stride, 0);
    lemma_windows_from_wf(n, size, stride, 0);
    lemma_total_offsets(t);
    lemma_char_off_le_byte_off(gs, n);
    let last = ws.len() - 1;
    assert(ws[last].1 == n);
    assert(chunk_spans_of(t, size, stride)[last] == span_of(gs, ws[last]));
    assert forall|k: int| 0 <= k < chunk_spans_of(t, size, stride).len() implies {
        let w = #[trigger] grapheme_windows(graphemes_of(t).len() as int, size, stride)[k];
        w.0 == k * stride && w.1 == (if k * stride + size <= graphemes_of(t).len() {
            k * stride + size
        } else {
            graphemes_of(t).len() as int
        })
    } by {
        let w = ws[k];
        assert(w.0 == 0 + k * stride);
        assert(w.1 == w.0 + size || w.1 == n);
        assert(w.1 <= w.0 + size && w.1 <= n);
        if w.1 == w.0 + size {
            assert(w.1 <= n);
        } else {
            assert(w.1 == n);
            if k * stride + size <= n {
                assert(w.1 >= n || w.1 == w.0 + size);
            }
        }
    }
}

/// Short-text law: if the whole text has at most `chunk_size` grapheme
/// clusters (and at least one), exactly one span is emitted, and it covers the
/// entire text.
pub proof fn lemma_short_text_single_chunk(t: Seq<char>, size: int, stride: int)
    requires
        grapheme_facts(t),
        size >= 1,
        stride >= 1,
        1 <= graphemes_of(t).len() <= size,
    ensures
        chunk_spans_of(t, size, stride).len() == 1,
        chunk_spans_of(t, size, stride)[0].char_start == 0,
        chunk_spans_of(t, size, stride)[0].char_end == t.len(),
        chunk_spans_of(t, size, stride)[0].start == 0,
        chunk_spans_of(t, size, stride)[0].end == encode_utf8(t).len(),
        t.subrange(0, t.len() as int) == t,
{
    let gs = graphemes_of(t);
    let n = gs.len() as int;
    assert(grapheme_windows(n, size, stride) =~= seq![(0int, n)]);
    lemma_total_offsets(t);
    lemma_char_off_le_byte_off(gs, n);
    assert(chunk_spans_of(t, size, stride)[0] == span_of(gs, (0int, n)));
    assert(t.subrange(0, t.len() as int) =~= t);
}

/// Grapheme-safety law: every emitted boundary falls on a grapheme-cluster
/// boundary of the text — each span runs between two cluster positions, and
/// its byte offsets are the UTF-8 lengths of the text before its character
/// offsets.
pub proof fn lemma_grapheme_safety(t: Seq<char>, size: int, stride: int)
    requires
        grapheme_facts(t),
        size >= 1,
        stride >= 1,
    ensures
        forall|k: int|
            0 <= k < chunk_spans_of(t, size, stride).len() ==> span_in_text(
                t,
                #[trigger] chunk_spans_of(t, size, stride)[k],
            ),
        forall|k: int|
            0 <= k < chunk_spans_of(t, size, stride).len() ==> {
                let s = #[trigger] chunk_spans_of(t, size, stride)[k];
                s.start == encode_utf8(t.take(s.char_start as int)).len() && s.end == encode_utf8(
                    t.take(s.char_end as int),
                ).len()
            },
{
    let gs = graphemes_of(t);
    let n = gs.len() as int;
    lemma_spans_wf(t, size, stride);
    assert forall|k: int| 0 <= k < chunk_spans_of(t, size, stride).len() implies {
        let s = #[trigger] chunk_spans_of(t, size, stride)[k];
        s.start == encode_utf8(t.take(s.char_start as int)).len() && s.end == encode_utf8(
            t.take(s.char_end as int),
        ).len()
    } by {
        let s = chunk_spans_of(t, size, stride)[k];
        assert(span_in_text(t, s));
        let (gi, gj): (int, int) = choose|gi: int, gj: int|
            0 <= gi < gj <= graphemes_of(t).len() && s == span_of(graphemes_of(t), (gi, gj));
        crate::graphemes::lemma_prefix_is_text_take(t, gi);
        crate::graphemes::lemma_prefix_is_text_take(t, gj);
        lemma_off_monotone(gs, 0, gi);
        lemma_off_monotone(gs, gi, gj);
        lemma_off_monotone(gs, gj, n);
        lemma_char_off_le_byte_off(gs, n);
        lemma_total_offsets(t);
    }
}

/// Splits `text` into its chunk spans: windows of `chunk_size` grapheme
/// clusters whose starting positions advance by `stride` clusters, clipped to
/// the end of the text; the first window that reaches the end is the last.
/// Empty text yields no spans.
#[verifier::rlimit(50)]
pub fn chunk_spans(text: &str, chunk_size: usize, stride: usize) -> (r: Vec<ChunkSpan>)
    requires
        chunk_size >= 1,
        stride >= 1,
    ensures
        r@ == chunk_spans_of(text@, chunk_size as int, stride as int),
        grapheme_facts(text@),
{
    let clusters = grapheme_clusters(text);
    proof {
        lemma_cluster_facts(clusters@, text@);
    }
    let ghost gs = graphemes_of(text@);
    let ghost size = chunk_size as int;
    let ghost stri = stride as int;
    let n = clusters.len();
    let total_bytes = text.len();
    proof {
        lemma_total_offsets(text@);
        assert(total_bytes == byte_off(gs, n as int));
    }

    // cumulative character offsets: ch_offs[k] == char_off(gs, k)
    let mut ch_offs: Vec<usize> = Vec::new();
    ch_offs.push(0);
    let mut k: usize = 0;
    while k < n
        invariant
            k <= n,
            n == clusters@.len(),
            gs == cluster_views(clusters@),
            grapheme_facts(text@),
            gs.len() == n,
            byte_off(gs, n as int) <= usize::MAX,
            ch_offs@.len() == k + 1,
            forall|t: int| 0 <= t <= k ==> #[trigger] ch_offs@[t] == char_off(gs, t),
        decreases n - k,
    {
        let c_len = clusters[k].1.as_str().unicode_len();
        proof {
            assert(clusters@[k as int].1@ == gs[k as int]);
            lemma_char_off_le_byte_off(gs, k + 1 as int);
            lemma_off_monotone(gs, k + 1 as int, n as int);
            assert(char_off(gs, k + 1 as int) <= usize::MAX);
        }
        let base = ch_offs[k];
        ch_offs.push(base + c_len);
        k += 1;
    }

    let mut result: Vec<ChunkSpan> = Vec::new();
    let ghost mut emitted: Seq<(int, int)> = Seq::empty();
    if n == 0 {
        proof {
            assert(grapheme_windows(0, size, stri) =~= Seq::<(int, int)>::empty());
            assert(result@ =~= chunk_spans_of(text@, size, stri));
        }
        return result;
    }
    let mut i: usize = 0;
    loop
        invariant
            chunk_size >= 1,
            stride >= 1,
            size == chunk_size as int,
            stri == stride as int,
            1 <= n,
            0 <= i < n,
            n == clusters@.len(),
            gs == cluster_views(clusters@),
            gs == graphemes_of(text@),
            gs.len() == n,
            grapheme_facts(text@),
            byte_off(gs, n as int) <= usize::MAX,
            total_bytes == byte_off(gs, n as int),
            ch_offs@.len() == n + 1,
            forall|t: int| 0 <= t <= n ==> #[trigger] ch_offs@[t] == char_off(gs, t),
            forall|t: int|
                0 <= t < clusters@.len() ==> (#[trigger] clusters@[t]).0 == byte_off(gs, t),
            grapheme_windows(n as int, size, stri) == emitted + windows_from(
                n as int,
                size,
                stri,
                i as int,
            ),
            result@ == emitted.map_values(|w: (int, int)| span_of(gs, w)),
        decreases n - i,
    {
        proof {
            lemma_off_monotone(gs, i as int, n as int);
            lemma_char_off_le_byte_off(gs, n as int);
        }
        if chunk_size >= n - i {
            // the window reaches the end of the text: emit it and stop
            let s = ChunkSpan {
                start: clusters[i].0,
                end: total_bytes,
                char_start: ch_offs[i],
                char_end: ch_offs[n],
            };
            result.push(s);
            proof {
                let w = (i as int, n as int);
                assert(windows_from(n as int, size, stri, i as int) =~= seq![w]);
                assert(s == span_of(gs, w));
                emitted = emitted.push(w);
                assert(emitted =~= grapheme_windows(n as int, size, stri));
                assert(result@ =~= emitted.map_values(|w: (int, int)| span_of(gs, w)));
                assert(result@ =~= chunk_spans_of(text@, size, stri));
            }
            return result;
        } else {
            let j = i + chunk_size;
            let s = ChunkSpan {
                start: clusters[i].0,
                end: clusters[j].0,
                char_start: ch_offs[i],
                char_end: ch_offs[j],
            };
            result.push(s);
            proof {
                let w = (i as int, j as int);
                assert(windows_from(n as int, size, stri, i as int) =~= seq![w] + windows_from(
                    n as int,
                    size,
                    stri,
                    i as int + stri,
                ));
                assert(s == span_of(gs, w));
                let ghost prev = emitted;
                emitted = emitted.push(w);
                assert(emitted =~= prev + seq![w]);
                assert((prev + seq![w]) + windows_from(n as int, size, stri, i as int + stri)
                    =~= prev + (seq![w] + windows_from(n as int, size, stri, i as int + stri)));
                assert(grapheme_windows(n as int, size, stri) == emitted + windows_from(
                    n as int,
                    size,
                    stri,
                    i as int + stri,
                ));
                assert(result@ =~= emitted.map_values(|w: (int, int)| span_of(gs, w)));
            }
            if stride < n - i {
                i += stride;
            } else {
                proof {
                    assert(windows_from(n as int, size, stri, i as int + stri)
                        =~= Seq::<(int, int)>::empty());
                    assert(emitted =~= grapheme_windows(n as int, size, stri));
                    assert(result@ =~= chunk_spans_of(text@, size, stri));
                }
                return result;
            }
        }
    }
}

/// The byte-offset pairs of the chunk spans of `text`, in order: each pair is
/// usable as slice bounds on `text`, and both offsets fall on grapheme-cluster
/// boundaries.
pub fn sliding_window_chunk_indices(text: &str, chunk_size: usize, stride: usize) -> (r: Vec<
    (usize, usize),
>)
    requires
        chunk_size >= 1,
        stride >= 1,
    ensures
        r@ == index_pairs_of(text@, chunk_size as int, stride as int),
        grapheme_facts(text@),
{
    let spans = chunk_spans(text, chunk_size, stride);
    let mut r: Vec<(usize, usize)> = Vec::new();
    let mut k: usize = 0;
    while k < spans.len()
        invariant
            k <= spans@.len(),
            spans@ == chunk_spans_of(text@, chunk_size as int, stride as int),
            r@ == spans@.take(k as int).map_values(|s: ChunkSpan| (s.start, s.end)),
        decreases spans@.len() - k,
    {
        let s = spans[k];
        r.push((s.start, s.end));
        proof {
            assert(spans@.take(k + 1 as int) =~= spans@.take(k as int).push(spans@[k as int]));
            assert(r@ =~= spans@.take(k + 1 as int).map_values(|s: ChunkSpan| (s.start, s.end)));
        }
        k += 1;
    }
    proof {
        assert(spans@.take(spans@.len() as int) =~= spans@);
    }
    r
}

/// The chunks of `text` as strings, in order: chunk `k` is the text between
/// the character offsets of span `k`.
pub fn sliding_window_chunk(text: &str, chunk_size: usize, stride: usize) -> (r: Vec<String>)
    requires
        chunk_size >= 1,
        stride >= 1,
    ensures
        grapheme_facts(text@),
        r@.len() == chunk_spans_of(text@, chunk_size as int, stride as int).len(),
        forall|k: int|
            0 <= k < r@.len() ==> (#[trigger] r@[k])@ == text@.subrange(
                chunk_spans_of(text@, chunk_size as int, stride as int)[k].char_start as int,
                chunk_spans_of(text@, chunk_size as int, stride as int)[k].char_end as int,
            ),
{
    let spans = chunk_spans(text, chunk_size, stride);
    proof {
        lemma_spans_wf(text@, chunk_size as int, stride as int);
    }
    let mut r: Vec<String> = Vec::new();
    let mut k: usize = 0;
    while k < spans.len()
        invariant
            k <= spans@.len(),
            spans@ == chunk_spans_of(text@, chunk_size as int, stride as int),
            grapheme_facts(text@),
            forall|t: int|
                0 <= t < spans@.len() ==> span_in_text(text@, #[trigger] spans@[t]),
            r@.len() == k,
            forall|t: int|
                0 <= t < k ==> (#[trigger] r@[t])@ == text@.subrange(
                    spans@[t].char_start as int,
                    spans@[t].char_end as int,
                ),
        decreases spans@.len() - k,
    {
        let s = spans[k];
        proof {
            lemma_span_bounds(text@, s);
        }
        let piece = text.substring_char(s.char_start, s.char_end).to_owned();
        r.push(piece);
        k += 1;
    }
    r
}

} // verus!
