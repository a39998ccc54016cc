//! Grapheme clusters: the pieces of a text that a reader takes for single characters.

use unicode_segmentation::UnicodeSegmentation;
use vstd::prelude::*;

verus! {

/// The extended grapheme clusters of a text, in the order in which they stand in it.
pub uninterp spec fn grapheme_clusters(text: Seq<char>) -> Seq<Seq<char>>;

/// True when `parts`, none of them empty, joined in order give `text`.
pub open spec fn tiles(parts: Seq<Seq<char>>, text: Seq<char>) -> bool {
    &&& parts.flatten() == text
    &&& forall|i: int| 0 <= i < parts.len() ==> (#[trigger] parts[i]).len() > 0
}

/// True when the grapheme clusters of `text`, none of them empty, joined in order give
/// `text`. Segmentation hands out no other clusters.
pub open spec fn segmented(text: Seq<char>) -> bool {
    tiles(grapheme_clusters(text), text)
}

/// What each of `slices` holds.
pub open spec fn views(slices: Seq<&str>) -> Seq<Seq<char>> {
    slices.map_values(|g: &str| g@)
}

/// Splits `s` into its extended grapheme clusters.
///
/// Calls `UnicodeSegmentation::graphemes(s, true)` of the crate unicode-segmentation and
/// collects what the iterator yields. Not proved: that the slices handed back are the
/// clusters named by [`grapheme_clusters`]; and, as the iterator cuts consecutive slices
/// from the start of `s` to its end, each ending at the next boundary after the one before,
/// that they are non-empty and joined give `s` again.
#[verifier::external_body]
pub(crate) fn split_clusters<'a>(s: &'a str) -> (clusters: Vec<&'a str>)
    ensures
        views(clusters@) == grapheme_clusters(s@),
        tiles(views(clusters@), s@),
{
    UnicodeSegmentation::graphemes(s, true).collect()
}

} // verus!
