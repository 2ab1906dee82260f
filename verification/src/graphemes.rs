//! Segmentation of text into extended grapheme clusters, together with the
//! arithmetic that relates cluster positions to character and byte offsets.

use vstd::prelude::*;
use vstd::utf8::{encode_utf8, encode_scalar};
use unicode_segmentation::UnicodeSegmentation;

verus! {

/// The decomposition of a character sequence into its extended grapheme
/// clusters, in order.
pub uninterp spec fn graphemes_of(s: Seq<char>) -> Seq<Seq<char>>;

/// The character sequences of a vector of (byte offset, cluster) pairs.
pub open spec fn cluster_views(r: Seq<(usize, String)>) -> Seq<Seq<char>> {
    r.map_values(|p: (usize, String)| p.1@)
}

/// The number of characters in the clusters before cluster `k`.
pub open spec fn char_off(gs: Seq<Seq<char>>, k: int) -> int
    decreases k,
{
    if k <= 0 {
        0
    } else {
        char_off(gs, k - 1) + gs[k - 1].len()
    }
}

/// The number of UTF-8 bytes in the clusters before cluster `k`.
pub open spec fn byte_off(gs: Seq<Seq<char>>, k: int) -> int
    decreases k,
{
    if k <= 0 {
        0
    } else {
        byte_off(gs, k - 1) + encode_utf8(gs[k - 1]).len()
    }
}

/// What one segmentation call guarantees about `graphemes_of(s)`: the clusters
/// are non-empty, they concatenate back to `s`, and the text's total byte
/// length fits in `usize`.
pub open spec fn grapheme_facts(s: Seq<char>) -> bool {
    &&& graphemes_of(s).flatten() == s
    &&& forall|k: int|
        0 <= k < graphemes_of(s).len() ==> (#[trigger] graphemes_of(s)[k]).len() >= 1
    &&& byte_off(graphemes_of(s), graphemes_of(s).len() as int) <= usize::MAX
}

/// Relies on unicode_segmentation's `UnicodeSegmentation::grapheme_indices(true)`:
/// it yields every extended grapheme cluster of the string in order, paired with
/// the byte offset at which the cluster starts. The clusters are non-empty and
/// concatenate back to the whole string, so each offset equals the UTF-8 byte
/// length of the clusters before it, and the string's byte length fits in `usize`.
#[verifier::external_body]
pub(crate) fn grapheme_clusters(text: &str) -> (r: Vec<(usize, String)>)
    ensures
        cluster_views(r@) == graphemes_of(text@),
        cluster_views(r@).flatten() == text@,
        forall|k: int|
            0 <= k < r@.len() ==> (#[trigger] cluster_views(r@)[k]).len() >= 1,
        forall|k: int| 0 <= k < r@.len() ==> (#[trigger] r@[k]).0 == byte_off(cluster_views(r@), k),
        byte_off(cluster_views(r@), r@.len() as int) <= usize::MAX,
{
    text.grapheme_indices(true).map(|(i, g)| (i, g.to_string())).collect()
}

/// The guarantees of `grapheme_clusters` restated over `graphemes_of` itself.
pub proof fn lemma_cluster_facts(r: Seq<(usize, String)>, s: Seq<char>)
    requires
        cluster_views(r) == graphemes_of(s),
        cluster_views(r).flatten() == s,
        forall|k: int| 0 <= k < r.len() ==> (#[trigger] cluster_views(r)[k]).len() >= 1,
        byte_off(cluster_views(r), r.len() as int) <= usize::MAX,
    ensures
        grapheme_facts(s),
        graphemes_of(s).len() == r.len(),
{
    assert(cluster_views(r).len() == r.len());
    assert forall|k: int| 0 <= k < graphemes_of(s).len() implies (#[trigger] graphemes_of(
        s,
    )[k]).len() >= 1 by {
        assert(graphemes_of(s)[k] == cluster_views(r)[k]);
    }
}

/// UTF-8 encoding distributes over concatenation.
pub proof fn lemma_encode_utf8_concat(a: Seq<char>, b: Seq<char>)
    ensures
        encode_utf8(a + b) == encode_utf8(a) + encode_utf8(b),
    decreases a.len(),
{
    if a.len() == 0 {
        assert(a + b =~= b);
        assert(encode_utf8(a) + encode_utf8(b) =~= encode_utf8(b));
    } else {
        lemma_encode_utf8_concat(a.drop_first(), b);
        assert((a + b).drop_first() =~= a.drop_first() + b);
        assert((a + b)[0] == a[0]);
        assert(encode_utf8(a + b) =~= encode_utf8(a) + encode_utf8(b)) by {
            assert(encode_utf8(a + b) == encode_scalar((a + b)[0] as u32) + encode_utf8(
                (a + b).drop_first(),
            ));
            assert(encode_utf8(a) == encode_scalar(a[0] as u32) + encode_utf8(a.drop_first()));
        }
    }
}

/// A character sequence's UTF-8 encoding has between one and four bytes per
/// character.
pub proof fn lemma_encode_utf8_len(s: Seq<char>)
    ensures
        s.len() <= encode_utf8(s).len() <= 4 * s.len(),
    decreases s.len(),
{
    if s.len() > 0 {
        lemma_encode_utf8_len(s.drop_first());
        assert(1 <= encode_scalar(s[0] as u32).len() <= 4);
    }
}

/// Offsets as prefix sums agree with flattening a prefix of the clusters.
pub proof fn lemma_off_is_flattened_prefix(gs: Seq<Seq<char>>, k: int)
    requires
        0 <= k <= gs.len(),
    ensures
        char_off(gs, k) == gs.take(k).flatten().len(),
        byte_off(gs, k) == encode_utf8(gs.take(k).flatten()).len(),
    decreases k,
{
    broadcast use Seq::<_>::group_seq_flatten;

    if k == 0 {
        assert(gs.take(0) =~= Seq::<Seq<char>>::empty());
        assert(Seq::<Seq<char>>::empty().flatten() =~= Seq::<char>::empty());
    } else {
        lemma_off_is_flattened_prefix(gs, k - 1);
        assert(gs.take(k) =~= gs.take(k - 1).push(gs[k - 1]));
        assert(gs.take(k).flatten() =~= gs.take(k - 1).flatten() + gs[k - 1]);
        lemma_encode_utf8_concat(gs.take(k - 1).flatten(), gs[k - 1]);
    }
}

/// Character offsets never exceed byte offsets.
pub proof fn lemma_char_off_le_byte_off(gs: Seq<Seq<char>>, k: int)
    requires
        0 <= k <= gs.len(),
    ensures
        char_off(gs, k) <= byte_off(gs, k),
    decreases k,
{
    if k > 0 {
        lemma_char_off_le_byte_off(gs, k - 1);
        lemma_encode_utf8_len(gs[k - 1]);
    }
}

/// Over non-empty clusters, the character offset of position `k` is at least `k`.
pub proof fn lemma_char_off_ge(gs: Seq<Seq<char>>, k: int)
    requires
        0 <= k <= gs.len(),
        forall|t: int| 0 <= t < gs.len() ==> (#[trigger] gs[t]).len() >= 1,
    ensures
        char_off(gs, k) >= k,
    decreases k,
{
    if k > 0 {
        lemma_char_off_ge(gs, k - 1);
    }
}

/// Offsets grow with the cluster position; strictly so over non-empty clusters.
pub proof fn lemma_off_monotone(gs: Seq<Seq<char>>, i: int, j: int)
    requires
        0 <= i <= j <= gs.len(),
    ensures
        char_off(gs, i) <= char_off(gs, j),
        byte_off(gs, i) <= byte_off(gs, j),
        (i < j && forall|k: int|
            0 <= k < gs.len() ==> (#[trigger] gs[k]).len() >= 1) ==> char_off(gs, i) < char_off(
            gs,
            j,
        ) && byte_off(gs, i) < byte_off(gs, j),
    decreases j - i,
{
    if i < j {
        lemma_off_monotone(gs, i, j - 1);
        lemma_encode_utf8_len(gs[j - 1]);
    }
}

/// Under `grapheme_facts`, the offsets of the full cluster sequence are the
/// text's character and byte lengths.
pub proof fn lemma_total_offsets(s: Seq<char>)
    requires
        grapheme_facts(s),
    ensures
        char_off(graphemes_of(s), graphemes_of(s).len() as int) == s.len(),
        byte_off(graphemes_of(s), graphemes_of(s).len() as int) == encode_utf8(s).len(),
        encode_utf8(s).len() <= usize::MAX,
{
    let gs = graphemes_of(s);
    lemma_off_is_flattened_prefix(gs, gs.len() as int);
    assert(gs.take(gs.len() as int) =~= gs);
}

/// Under `grapheme_facts`, the clusters before position `i` flatten to the
/// text before the corresponding character offset, and the byte offset of
/// position `i` is the UTF-8 length of that prefix.
pub proof fn lemma_prefix_is_text_take(s: Seq<char>, i: int)
    requires
        grapheme_facts(s),
        0 <= i <= graphemes_of(s).len(),
    ensures
        graphemes_of(s).take(i).flatten() == s.take(char_off(graphemes_of(s), i)),
        byte_off(graphemes_of(s), i) == encode_utf8(s.take(char_off(graphemes_of(s), i))).len(),
{
    let gs = graphemes_of(s);
    lemma_off_is_flattened_prefix(gs, i);
    lemma_off_monotone(gs, 0, i);
    lemma_off_monotone(gs, i, gs.len() as int);
    lemma_total_offsets(s);
    assert(gs =~= gs.take(i) + gs.skip(i));
    vstd::seq_lib::lemma_flatten_concat(gs.take(i), gs.skip(i));
    assert(gs.take(i).flatten() + gs.skip(i).flatten() =~= s);
    assert(gs.take(i).flatten() =~= s.take(char_off(gs, i)));
}

} // verus!
