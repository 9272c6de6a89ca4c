//! Grapheme-cluster segmentation of the source document, and the UTF-8
//! byte-length facts the scanner's position tracking rests on.

use vstd::prelude::*;
use vstd::utf8::{encode_scalar, encode_utf8};

use unicode_segmentation::UnicodeSegmentation;

verus! {

/// The extended grapheme clusters of `s`, in order.  Named for
/// `unicode_segmentation::UnicodeSegmentation::graphemes(true)`.
pub uninterp spec fn graphemes_of(s: Seq<char>) -> Seq<Seq<char>>;

/// Relies on `unicode_segmentation::UnicodeSegmentation::graphemes`: the
/// clusters are non-empty substrings of `s` that partition it in order.
#[verifier::external_body]
pub fn split_graphemes(doc: &str) -> (r: Vec<String>)
    ensures
        r@.map_values(|g: String| g@) == graphemes_of(doc@),
        r@.map_values(|g: String| g@).flatten() == doc@,
        forall|k: int| 0 <= k < r@.len() ==> #[trigger] r@[k]@.len() > 0,
{
    doc.graphemes(true).map(|g| g.to_string()).collect()
}

/// The total byte length of the UTF-8 encodings of the clusters
/// `gs[0..i]`: the byte offset at which cluster `i` begins.
pub open spec fn byte_at(gs: Seq<Seq<char>>, i: int) -> int
    decreases i,
{
    if i <= 0 {
        0
    } else {
        byte_at(gs, i - 1) + encode_utf8(gs[i - 1]).len()
    }
}

/// A UTF-8 encoding takes between one and four bytes per character.
pub proof fn lemma_encode_len_bounds(s: Seq<char>)
    ensures
        s.len() <= encode_utf8(s).len() <= 4 * s.len(),
    decreases s.len(),
{
    if s.len() > 0 {
        lemma_encode_len_bounds(s.drop_first());
        assert(1 <= encode_scalar(s[0] as u32).len() <= 4);
    }
}

/// UTF-8 encoding distributes over concatenation.
pub proof fn lemma_encode_concat(a: Seq<char>, b: Seq<char>)
    ensures
        encode_utf8(a + b) == encode_utf8(a) + encode_utf8(b),
    decreases a.len(),
{
    if a.len() == 0 {
        assert(a + b =~= b);
        assert(encode_utf8(a) + encode_utf8(b) =~= encode_utf8(b));
    } else {
        lemma_encode_concat(a.drop_first(), b);
        assert((a + b).drop_first() =~= a.drop_first() + b);
        assert((a + b)[0] == a[0]);
        assert(encode_scalar(a[0] as u32) + (encode_utf8(a.drop_first()) + encode_utf8(b))
            =~= (encode_scalar(a[0] as u32) + encode_utf8(a.drop_first())) + encode_utf8(b));
    }
}

/// Byte offsets never decrease as the cluster index grows.
pub proof fn lemma_byte_at_mono(gs: Seq<Seq<char>>, i: int, j: int)
    requires
        i <= j,
    ensures
        byte_at(gs, i) <= byte_at(gs, j),
    decreases j - i,
{
    if i < j {
        lemma_byte_at_mono(gs, i, j - 1);
    }
}

/// The byte offset after the first `i` clusters is the byte length of
/// their concatenation.
pub proof fn lemma_byte_at_flatten(gs: Seq<Seq<char>>, i: int)
    requires
        0 <= i <= gs.len(),
    ensures
        byte_at(gs, i) == encode_utf8(gs.subrange(0, i).flatten()).len(),
    decreases i,
{
    if i == 0 {
        assert(gs.subrange(0, 0).flatten() =~= Seq::<char>::empty());
    } else {
        lemma_byte_at_flatten(gs, i - 1);
        let a = gs.subrange(0, i - 1);
        let b = gs.subrange(0, i);
        assert(b =~= a.push(gs[i - 1]));
        vstd::seq_lib::lemma_flatten_concat(a, seq![gs[i - 1]]);
        assert(a + seq![gs[i - 1]] =~= b);
        assert(seq![gs[i - 1]].flatten() =~= gs[i - 1]) by {
            seq![gs[i - 1]].lemma_flatten_one_element();
        }
        lemma_encode_concat(a.flatten(), gs[i - 1]);
    }
}

/// Each cluster of a non-empty tail adds at least one byte, so the
/// cluster count is bounded by the total byte length.
pub proof fn lemma_count_le_bytes(gs: Seq<Seq<char>>, i: int)
    requires
        0 <= i <= gs.len(),
        forall|k: int| 0 <= k < gs.len() ==> #[trigger] gs[k].len() > 0,
    ensures
        byte_at(gs, i) >= i,
    decreases i,
{
    if i > 0 {
        lemma_count_le_bytes(gs, i - 1);
        lemma_encode_len_bounds(gs[i - 1]);
    }
}

} // verus!
