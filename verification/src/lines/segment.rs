//! The split of a text into the characters that a reader sees: its extended
//! grapheme clusters. The rules of that split are Unicode's, and the work is
//! done by the crate `unicode-segmentation`.

use vstd::prelude::*;
use vstd::string::StringSliceAdditionalSpecFns;
use vstd::utf8::encode_utf8;
use unicode_segmentation::UnicodeSegmentation;

verus! {

/// The extended grapheme clusters of `text`, in order, as
/// `unicode_segmentation::UnicodeSegmentation::graphemes(text, true)` yields
/// them.
pub uninterp spec fn grapheme_clusters(text: Seq<char>) -> Seq<Seq<char>>;

/// The clusters as sequences of characters.
pub open spec fn clusters_view(clusters: Seq<Vec<char>>) -> Seq<Seq<char>> {
    Seq::new(clusters.len(), |i: int| clusters[i]@)
}

/// The first `end` clusters, one after the other.
pub open spec fn joined(clusters: Seq<Seq<char>>, end: int) -> Seq<char>
    decreases end,
{
    if end <= 0 {
        Seq::empty()
    } else {
        joined(clusters, end - 1) + clusters[end - 1]
    }
}

/// The number of characters in the first `end` clusters.
pub open spec fn chars_before(clusters: Seq<Seq<char>>, end: int) -> nat {
    joined(clusters, end).len()
}

/// The more clusters, the more characters.
pub proof fn lemma_chars_before_monotone(clusters: Seq<Seq<char>>, from: int, to: int)
    requires
        from <= to,
    ensures
        chars_before(clusters, from) <= chars_before(clusters, to),
    decreases to - from,
{
    if from < to {
        lemma_chars_before_monotone(clusters, from, to - 1);
        if to <= 0 {
            assert(joined(clusters, to).len() == 0);
        }
    }
}

/// Every character takes at least one byte.
pub proof fn lemma_chars_within_bytes(chars: Seq<char>)
    ensures
        chars.len() <= encode_utf8(chars).len(),
    decreases chars.len(),
{
    if chars.len() > 0 {
        lemma_chars_within_bytes(chars.drop_first());
    }
}

/// The length of `text` in bytes, which its length in characters cannot
/// exceed.
pub fn byte_length(text: &str) -> (bytes: usize)
    ensures
        bytes == text.spec_bytes().len(),
        text@.len() <= bytes,
{
    proof {
        lemma_chars_within_bytes(text@);
    }
    text.as_bytes().len()
}

/// Calls `UnicodeSegmentation::graphemes` of `unicode-segmentation` on `text`,
/// with `is_extended` set, and hands each cluster out as its characters.
///
/// Believed of it, and not proved: the clusters are what the crate yields
/// for this text whenever it is asked; none of them is empty; and they are
/// consecutive pieces of the text that leave nothing out, so that together
/// they are the text.
#[verifier::external_body]
pub(crate) fn graphemes(text: &str) -> (clusters: Vec<Vec<char>>)
    ensures
        clusters_view(clusters@) == grapheme_clusters(text@),
        forall|i: int| 0 <= i < clusters.len() ==> (#[trigger] clusters[i]).len() > 0,
        joined(clusters_view(clusters@), clusters.len() as int) == text@,
{
    text.graphemes(true).map(|cluster| cluster.chars().collect()).collect()
}

} // verus!
