//! What holds of truncation for every text and every width.
//!
//! How a text falls into grapheme clusters and how wide a cluster is shown are given from
//! outside. Some of the laws below hold only of texts that these two treat in the plain
//! way; each such law names what it asks of them.

use crate::model::{
    ascii_run, attach, beyond, from_edge, is_edge_cut, kept, kept_pieces,
    lemma_ascii_run_is_ascii, lemma_attach_flatten, lemma_attach_parts, lemma_run_from,
    lemma_singles_flatten, marker, rendered, run_from, singles, truncation, walk, with_marker,
    Direction,
};
use crate::segment::{grapheme_clusters, segmented};
use crate::select::{
    drops_blank, filled, lemma_filled_monotone, lemma_fit_count_is, lemma_halt,
    lemma_selection_none, lemma_selection_some, selection,
};
use crate::text::{byte_len, is_ascii_char, lemma_byte_len_bounds, lemma_encode_concat};
use crate::width::{
    cluster_width, lemma_total_concat, lemma_total_step, lemma_walk_total, text_width, total,
    widths_of,
};
use vstd::prelude::*;
use vstd::seq_lib::lemma_flatten_concat;

verus! {

/// True when each of the `n` characters at the kept edge of `text` is a grapheme cluster
/// of its own, and the clusters beyond them are those of the text beyond them.
///
/// An ASCII character is such a cluster unless a mark that follows it, or a character in
/// front of it that takes the next one along, makes one cluster of the two.
pub open spec fn run_alone(text: Seq<char>, n: int, direction: Direction) -> bool {
    let clusters = grapheme_clusters(text);
    &&& 0 <= n <= clusters.len()
    &&& n <= text.len()
    &&& kept(clusters, n, direction) == singles(kept(text, n, direction))
    &&& beyond(clusters, n, direction) == grapheme_clusters(beyond(text, n, direction))
}

/// True when `text` is shown no wider than its encoding takes bytes.
pub open spec fn narrow(text: Seq<char>) -> bool {
    text_width(text) <= byte_len(text)
}

/// True when `text` is as wide as its `n` characters at the kept edge, at one column each,
/// and the text beyond them together.
pub open spec fn run_measured(text: Seq<char>, n: int, direction: Direction) -> bool {
    text_width(text) == n + text_width(beyond(text, n, direction))
}

/// True when each of `chars`, taken as a cluster of its own, is one column wide.
pub open spec fn one_column_each(chars: Seq<char>) -> bool {
    forall|i: int| 0 <= i < chars.len() ==> cluster_width(seq![#[trigger] chars[i]]) == 1
}

/// True when the marker, set beside `pieces`, is a grapheme cluster of its own, one column
/// wide, and leaves `pieces` the clusters that they are.
pub open spec fn marker_apart(pieces: Seq<Seq<char>>, direction: Direction) -> bool {
    &&& grapheme_clusters(with_marker(pieces.flatten(), direction)) == attach(
        pieces,
        seq![seq![marker()]],
        direction,
    )
    &&& cluster_width(seq![marker()]) == 1
}

/// True when measuring the result of truncating `text` to `width`, a width above zero and
/// below the length of `text` in bytes, finds what the walk has counted: where the text is
/// left as it is, that it is as wide as its run of ASCII characters and the rest together;
/// where it is cut, that the marker stands apart from the pieces kept and that each ASCII
/// character kept by itself is one column wide.
pub open spec fn plain_result(text: Seq<char>, width: nat, direction: Direction) -> bool {
    let run = ascii_run(text, direction, width - 1);
    match kept_pieces(text, width, direction) {
        None => run_measured(text, run, direction),
        Some(pieces) => marker_apart(pieces, direction) && one_column_each(
            kept(text, run, direction),
        ),
    }
}

/// True unless the walk over the grapheme clusters of `text`, to make room for the marker,
/// drops a cluster of width zero.
pub open spec fn makes_room(text: Seq<char>, width: nat, direction: Direction) -> bool {
    let run = ascii_run(text, direction, width - 1);
    is_ascii_char(from_edge(text, run, direction)) || !drops_blank(
        widths_of(walk(grapheme_clusters(beyond(text, run, direction)), direction)),
        run as nat,
        width,
    )
}

/// The number of columns that the walk counts for the result of truncating `text` to
/// `width`, a width above zero and below the length of `text` in bytes.
spec fn counted(text: Seq<char>, width: nat, direction: Direction) -> nat {
    let run = ascii_run(text, direction, width - 1);
    if is_ascii_char(from_edge(text, run, direction)) {
        width
    } else {
        filled(
            widths_of(walk(grapheme_clusters(beyond(text, run, direction)), direction)),
            run as nat,
            width,
        )
    }
}

/// True when neither the grapheme cluster at the kept edge of `text` nor the one next to it
/// has width zero.
pub open spec fn edge_not_blank(text: Seq<char>, direction: Direction) -> bool {
    let widths = widths_of(walk(grapheme_clusters(text), direction));
    &&& widths.len() > 0 ==> widths[0] > 0
    &&& widths.len() > 1 ==> widths[1] > 0
}

/// The text made of the grapheme clusters of `text` in reverse order.
pub open spec fn mirrored(text: Seq<char>) -> Seq<char> {
    grapheme_clusters(text).reverse().flatten()
}

/// `pieces` in reverse order, where there are any.
pub open spec fn reversed(pieces: Option<Seq<Seq<char>>>) -> Option<Seq<Seq<char>>> {
    match pieces {
        None => None,
        Some(pieces) => Some(pieces.reverse()),
    }
}

/// For a width of zero nothing is left of any text.
pub proof fn law_nothing_in_no_width(text: Seq<char>, direction: Direction)
    ensures
        truncation(text, 0, direction) == Seq::<char>::empty(),
{
    lemma_byte_len_bounds(text);
}

/// Truncated to one column, a text that is no wider is left as it is, and of any other
/// text the marker alone is left.
///
/// This holds of a text of one byte that is no wider than one column ([`narrow`]); of a
/// longer text with an ASCII character at its kept edge that is wider than one column,
/// as it is unless that character carries all that follows it; and of a longer text with
/// another character at its kept edge unless a cluster of width zero stands there or next
/// to it ([`edge_not_blank`]), which the walk would keep beside the marker.
pub proof fn law_one_column(text: Seq<char>, direction: Direction)
    requires
        byte_len(text) <= 1 ==> narrow(text),
        byte_len(text) > 1 ==> if is_ascii_char(from_edge(text, 0, direction)) {
            text_width(text) > 1
        } else {
            edge_not_blank(text, direction)
        },
    ensures
        truncation(text, 1, direction) == if text_width(text) <= 1 {
            text
        } else {
            seq![marker()]
        },
{
    if byte_len(text) > 1 {
        assert(ascii_run(text, direction, 0) == 0);
        assert(beyond(text, 0, direction) == text);
        assert(kept(text, 0, direction) == Seq::<char>::empty());
        assert(singles(Seq::<char>::empty()) == Seq::<Seq<char>>::empty());
        assert(Seq::<Seq<char>>::empty().flatten() == Seq::<char>::empty());
        assert(with_marker(Seq::<char>::empty(), direction) == seq![marker()]);
        if !is_ascii_char(from_edge(text, 0, direction)) {
            let clusters = grapheme_clusters(text);
            let widths = widths_of(walk(clusters, direction));
            lemma_walk_total(clusters, direction);
            lemma_selection_none(widths, 0, 1);
            if selection(widths, 0, 1) is Some {
                lemma_selection_some(widths, 0, 1);
                lemma_halt(widths, 0, 1);
                assert(total(widths.take(0)) == 0);
                lemma_total_step(widths, 0);
                if widths[0] == 1 {
                    if widths.len() == 1 {
                        assert(widths.take(1) == widths);
                    }
                    lemma_total_step(widths, 1);
                    lemma_fit_count_is(widths, 1, 1);
                } else {
                    lemma_fit_count_is(widths, 1, 0);
                }
                assert(selection(widths, 0, 1) == Some(0nat));
                assert(kept(clusters, 0, direction) == Seq::<Seq<char>>::empty());
                assert(attach(
                    Seq::<Seq<char>>::empty(),
                    Seq::<Seq<char>>::empty(),
                    direction,
                ) == Seq::<Seq<char>>::empty());
            }
        }
    }
}

/// The result of a truncation is the text as it is, or nothing at all for a width of
/// zero, or a stretch of the text at its kept edge that is shorter than the text, with
/// the marker where the rest was cut: nothing is changed in what is kept, and nothing is
/// cut without a marker but for a width of zero.
pub proof fn law_kept_edge(text: Seq<char>, width: nat, direction: Direction)
    requires
        0 < width < byte_len(text) && !is_ascii_char(
            from_edge(text, ascii_run(text, direction, width - 1), direction),
        ) ==> segmented(beyond(text, ascii_run(text, direction, width - 1), direction)),
    ensures
        ({
            ||| truncation(text, width, direction) == text
            ||| width == 0 && truncation(text, width, direction) == Seq::<char>::empty()
            ||| is_edge_cut(truncation(text, width, direction), text, direction)
        }),
{
    if 0 < width < byte_len(text) {
        let run = ascii_run(text, direction, width - 1);
        lemma_run_inside(text, width, direction);
        let edge = kept(text, run, direction);
        lemma_singles_flatten(edge);
        lemma_attach_parts(text, run, direction);
        if is_ascii_char(from_edge(text, run, direction)) {
            assert(truncation(text, width, direction) == with_marker(
                kept(text, run, direction),
                direction,
            ));
        } else {
            let clusters = grapheme_clusters(beyond(text, run, direction));
            let widths = widths_of(walk(clusters, direction));
            if selection(widths, run as nat, width) is Some {
                let count = selection(widths, run as nat, width)->0 as int;
                lemma_selection_some(widths, run as nat, width);
                let near = kept(clusters, count, direction);
                let far = beyond(clusters, count, direction);
                lemma_attach_parts(clusters, count, direction);
                lemma_attach_flatten(near, far, direction);
                lemma_attach_flatten(singles(edge), near, direction);
                assert forall|i: int| 0 <= i < far.len() implies (#[trigger] far[i]).len()
                    > 0 by {
                    match direction {
                        Direction::Trailing => {
                            assert(far[i] == clusters[count + i]);
                        },
                        Direction::Leading => {
                            assert(far[i] == clusters[i]);
                        },
                    }
                }
                lemma_flatten_not_empty(far);
                let n = run + near.flatten().len();
                assert(attach(edge, near.flatten(), direction) == kept(text, n, direction));
                assert(truncation(text, width, direction) == with_marker(
                    kept(text, n, direction),
                    direction,
                ));
            }
        }
    }
}

/// What is kept of a text is made of whole grapheme clusters of it, taken from its kept
/// edge: a truncation never cuts into a cluster.
///
/// This holds where the ASCII characters that were kept one by one are clusters of their
/// own ([`run_alone`]); nothing is asked where the text is left as it is.
pub proof fn law_whole_clusters(text: Seq<char>, width: nat, direction: Direction)
    requires
        segmented(text),
        0 < width < byte_len(text) && kept_pieces(text, width, direction) is Some ==> run_alone(
            text,
            ascii_run(text, direction, width - 1),
            direction,
        ),
    ensures
        exists|count: int|
            {
                &&& 0 <= count <= grapheme_clusters(text).len()
                &&& {
                    let body = #[trigger] kept(grapheme_clusters(text), count, direction).flatten();
                    ||| truncation(text, width, direction) == body
                    ||| truncation(text, width, direction) == with_marker(body, direction)
                }
            },
{
    let clusters = grapheme_clusters(text);
    let result = truncation(text, width, direction);
    let len = clusters.len() as int;
    if byte_len(text) <= width {
        lemma_attach_parts(clusters, len, direction);
        assert(kept(clusters, len, direction) == clusters);
        assert(result == kept(clusters, len, direction).flatten());
    } else if width == 0 {
        assert(kept(clusters, 0, direction) == Seq::<Seq<char>>::empty());
        assert(result == kept(clusters, 0, direction).flatten());
    } else {
        let run = ascii_run(text, direction, width - 1);
        lemma_run_from(text, direction, 0, width - 1);
        let edge = singles(kept(text, run, direction));
        match kept_pieces(text, width, direction) {
            None => {
                assert(kept(clusters, len, direction) == clusters);
                assert(result == kept(clusters, len, direction).flatten());
            },
            Some(pieces) => {
                if is_ascii_char(from_edge(text, run, direction)) {
                    assert(pieces == kept(clusters, run, direction));
                    assert(result == with_marker(
                        kept(clusters, run, direction).flatten(),
                        direction,
                    ));
                } else {
                    let rest = grapheme_clusters(beyond(text, run, direction));
                    let widths = widths_of(walk(rest, direction));
                    let count = selection(widths, run as nat, width)->0 as int;
                    lemma_selection_some(widths, run as nat, width);
                    lemma_attach_parts(clusters, run, direction);
                    lemma_kept_twice(clusters, run, count, direction);
                    assert(pieces == kept(clusters, run + count, direction));
                    assert(result == with_marker(
                        kept(clusters, run + count, direction).flatten(),
                        direction,
                    ));
                }
            },
        }
    }
}

/// A text truncated to its own width is left as it is.
///
/// This holds unless ASCII characters at the kept edge mislead the walk, which takes each
/// of them for a column of its own: where the text has as many of them there as it is
/// columns wide and yet goes on beyond them; or where the text is narrower than they and
/// the text beyond them together. Both come about where such a character and what stands
/// next to it are one grapheme cluster, or where what lies beyond has width zero.
pub proof fn law_fitting_text_unchanged(text: Seq<char>, direction: Direction)
    requires
        ({
            let width = text_width(text);
            let run = ascii_run(text, direction, width as int);
            &&& run == width ==> text.len() == run
            &&& run < width < byte_len(text) ==> run + text_width(beyond(text, run, direction))
                <= width
        }),
    ensures
        truncation(text, text_width(text), direction) == text,
{
    let width = text_width(text);
    let run = ascii_run(text, direction, width as int);
    lemma_run_from(text, direction, 0, width as int);
    if byte_len(text) > width {
        if run == width {
            lemma_ascii_bytes(text, direction, width as int);
        } else {
            lemma_run_limits(text, direction, width - 1, width as int);
            if run == text.len() {
                lemma_ascii_bytes(text, direction, width as int);
            }
            let rest = grapheme_clusters(beyond(text, run, direction));
            lemma_walk_total(rest, direction);
            lemma_selection_none(widths_of(walk(rest, direction)), run as nat, width);
        }
    }
}

/// The result of a truncation is no wider than the width asked for.
///
/// This holds of a text that is treated in the plain way ([`narrow`] where it is left as
/// it is for being short, else [`plain_result`]), unless a cluster of width zero is dropped
/// to make room for the marker ([`makes_room`]).
pub proof fn law_within_width(text: Seq<char>, width: nat, direction: Direction)
    requires
        segmented(truncation(text, width, direction)),
        byte_len(text) <= width ==> narrow(text),
        0 < width < byte_len(text) ==> plain_result(text, width, direction) && makes_room(
            text,
            width,
            direction,
        ),
    ensures
        text_width(truncation(text, width, direction)) <= width,
{
    if byte_len(text) <= width {
    } else if width == 0 {
        lemma_empty_width();
    } else {
        lemma_counted(text, width, direction);
        let run = ascii_run(text, direction, width - 1);
        lemma_run_from(text, direction, 0, width - 1);
        if !is_ascii_char(from_edge(text, run, direction)) {
            let widths = widths_of(
                walk(grapheme_clusters(beyond(text, run, direction)), direction),
            );
            lemma_selection_none(widths, run as nat, width);
            if selection(widths, run as nat, width) is Some {
                lemma_selection_some(widths, run as nat, width);
            }
        }
    }
}

/// A wider target never yields a narrower result.
///
/// This holds of a text that is treated in the plain way for both widths
/// ([`plain_result`]); where the text is left as it is for being short enough for the wider
/// target only, it is to be as wide as its run of ASCII characters and the rest together
/// ([`run_measured`]).
pub proof fn law_wider_shows_more(
    text: Seq<char>,
    narrow_width: nat,
    wide_width: nat,
    direction: Direction,
)
    requires
        narrow_width <= wide_width,
        segmented(truncation(text, narrow_width, direction)),
        0 < narrow_width < byte_len(text) ==> plain_result(text, narrow_width, direction),
        0 < wide_width < byte_len(text) ==> plain_result(text, wide_width, direction),
        0 < narrow_width < byte_len(text) <= wide_width ==> run_measured(
            text,
            ascii_run(text, direction, narrow_width as int),
            direction,
        ),
    ensures
        text_width(truncation(text, narrow_width, direction)) <= text_width(
            truncation(text, wide_width, direction),
        ),
{
    if byte_len(text) <= narrow_width {
    } else if narrow_width == 0 {
        lemma_empty_width();
    } else {
        lemma_counted(text, narrow_width, direction);
        lemma_run_inside(text, narrow_width, direction);
        lemma_run_from(text, direction, 0, narrow_width - 1);
        let run = ascii_run(text, direction, narrow_width - 1);
        let widths = widths_of(walk(grapheme_clusters(beyond(text, run, direction)), direction));
        if byte_len(text) <= wide_width {
            if is_ascii_char(from_edge(text, run, direction)) {
                assert forall|i: int| 0 <= i < narrow_width implies is_ascii_char(
                    #[trigger] from_edge(text, i, direction),
                ) by {}
                lemma_run_from_is(text, direction, 0, narrow_width as int, narrow_width as int);
            } else {
                lemma_run_from_is(text, direction, 0, narrow_width as int, run);
                lemma_walk_total(grapheme_clusters(beyond(text, run, direction)), direction);
                let ample = if narrow_width < run + total(widths) {
                    run as nat + total(widths)
                } else {
                    narrow_width
                };
                lemma_filled_monotone(widths, run as nat, narrow_width, ample);
                lemma_selection_none(widths, run as nat, ample);
            }
        } else {
            lemma_counted(text, wide_width, direction);
            lemma_run_inside(text, wide_width, direction);
            lemma_run_limits(text, direction, narrow_width - 1, wide_width - 1);
            if !is_ascii_char(from_edge(text, run, direction)) {
                lemma_run_from_is(text, direction, 0, wide_width - 1, run);
                lemma_filled_monotone(widths, run as nat, narrow_width, wide_width);
            }
        }
    }
}

/// Truncation at the start and truncation at the end mirror each other: of a text and of
/// the text made of its grapheme clusters in reverse order they keep the same clusters,
/// the one in the order of the text, the other in reverse.
///
/// This holds where the mirrored text falls into the same clusters ([`mirrored`]), and
/// the ASCII characters at the kept edge of either text, up to as many as the width, are
/// clusters of their own ([`run_alone`]).
pub proof fn law_mirror(text: Seq<char>, width: nat)
    requires
        segmented(text),
        grapheme_clusters(mirrored(text)) == grapheme_clusters(text).reverse(),
        0 < width < byte_len(text) ==> run_alone(
            text,
            ascii_run(text, Direction::Trailing, width as int),
            Direction::Trailing,
        ) && run_alone(
            mirrored(text),
            ascii_run(mirrored(text), Direction::Leading, width as int),
            Direction::Leading,
        ),
    ensures
        byte_len(mirrored(text)) == byte_len(text),
        0 < width < byte_len(text) ==> kept_pieces(mirrored(text), width, Direction::Leading)
            == reversed(kept_pieces(text, width, Direction::Trailing)),
        0 < width ==> exists|pieces: Option<Seq<Seq<char>>>|
            {
                &&& #[trigger] rendered(pieces, text, Direction::Trailing) == truncation(
                    text,
                    width,
                    Direction::Trailing,
                )
                &&& rendered(reversed(pieces), mirrored(text), Direction::Leading) == truncation(
                    mirrored(text),
                    width,
                    Direction::Leading,
                )
                &&& pieces matches Some(kept) ==> kept.len() <= grapheme_clusters(text).len()
                    && kept == grapheme_clusters(text).take(kept.len() as int)
            },
{
    lemma_reverse_bytes(grapheme_clusters(text));
    if width > 0 {
        if byte_len(text) <= width {
            assert(rendered(None, text, Direction::Trailing) == text);
        } else {
            lemma_mirror_pieces(text, width);
            let pieces = kept_pieces(text, width, Direction::Trailing);
            assert(rendered(pieces, text, Direction::Trailing) == truncation(
                text,
                width,
                Direction::Trailing,
            ));
        }
    }
}

/// Pieces that are not empty, and of which there is one at least, make a text that is not
/// empty.
proof fn lemma_flatten_not_empty(pieces: Seq<Seq<char>>)
    requires
        pieces.len() > 0,
        forall|i: int| 0 <= i < pieces.len() ==> (#[trigger] pieces[i]).len() > 0,
    ensures
        pieces.flatten().len() > 0,
{
    assert(pieces.flatten() == pieces.first() + pieces.drop_first().flatten());
    assert(pieces[0].len() > 0);
}

/// Leading items of leading items, and what lies beyond both.
proof fn lemma_kept_twice<A>(s: Seq<A>, n: int, m: int, direction: Direction)
    requires
        0 <= n,
        0 <= m,
        n + m <= s.len(),
    ensures
        kept(s, n + m, direction) == attach(
            kept(s, n, direction),
            kept(beyond(s, n, direction), m, direction),
            direction,
        ),
{
}

/// The run of ASCII characters at the kept edge is the one length that has ASCII
/// characters before it and the limit, the end of the text or another character at it.
proof fn lemma_run_from_is(text: Seq<char>, direction: Direction, from: int, limit: int, n: int)
    requires
        0 <= from <= n <= limit,
        n <= text.len(),
        forall|i: int| from <= i < n ==> is_ascii_char(#[trigger] from_edge(text, i, direction)),
        n == limit || n == text.len() || !is_ascii_char(from_edge(text, n, direction)),
    ensures
        run_from(text, direction, from, limit) == n,
    decreases n - from,
{
    if from < n {
        assert(is_ascii_char(from_edge(text, from, direction)));
        lemma_run_from_is(text, direction, from + 1, limit, n);
    }
}

/// The run counted up to a limit is the run counted further, cut at the limit.
proof fn lemma_run_limits(text: Seq<char>, direction: Direction, near: int, far: int)
    requires
        0 <= near <= far,
    ensures
        ascii_run(text, direction, near) == if ascii_run(text, direction, far) < near {
            ascii_run(text, direction, far)
        } else {
            near
        },
{
    lemma_run_from(text, direction, 0, far);
    let run = ascii_run(text, direction, far);
    if run < near {
        lemma_run_from_is(text, direction, 0, near, run);
    } else {
        lemma_run_from_is(text, direction, 0, near, near);
    }
}

/// A text made of ASCII characters takes one byte for each.
proof fn lemma_ascii_bytes(text: Seq<char>, direction: Direction, limit: int)
    requires
        0 <= limit,
        ascii_run(text, direction, limit) == text.len(),
    ensures
        byte_len(text) == text.len(),
{
    lemma_ascii_run_is_ascii(text, direction, limit);
    assert(kept(text, text.len() as int, direction) == text);
    vstd::utf8::is_ascii_chars_encode_utf8(text);
}

/// The widths of pieces joined sum up to the sums of both parts.
proof fn lemma_attach_total(a: Seq<Seq<char>>, b: Seq<Seq<char>>, direction: Direction)
    ensures
        total(widths_of(attach(a, b, direction))) == total(widths_of(a)) + total(widths_of(b)),
{
    assert(widths_of(a + b) == widths_of(a) + widths_of(b));
    assert(widths_of(b + a) == widths_of(b) + widths_of(a));
    lemma_total_concat(widths_of(a), widths_of(b));
    lemma_total_concat(widths_of(b), widths_of(a));
}

/// Characters of one column each are together as many columns wide as they are.
proof fn lemma_singles_total(chars: Seq<char>)
    requires
        one_column_each(chars),
    ensures
        total(widths_of(singles(chars))) == chars.len(),
    decreases chars.len(),
{
    if chars.len() > 0 {
        let init = chars.drop_last();
        assert forall|i: int| 0 <= i < init.len() implies cluster_width(
            seq![#[trigger] init[i]],
        ) == 1 by {
            assert(init[i] == chars[i]);
        }
        lemma_singles_total(init);
        assert(widths_of(singles(chars)).drop_last() == widths_of(singles(init)));
        assert(widths_of(singles(chars)).last() == cluster_width(seq![chars.last()]));
        assert(chars.last() == chars[chars.len() - 1]);
    } else {
        assert(widths_of(singles(chars)).len() == 0);
    }
}

/// The clusters at the kept edge are as wide together as the first widths of the walk.
proof fn lemma_kept_total(clusters: Seq<Seq<char>>, count: int, direction: Direction)
    requires
        0 <= count <= clusters.len(),
    ensures
        total(widths_of(kept(clusters, count, direction))) == total(
            widths_of(walk(clusters, direction)).take(count),
        ),
{
    let near = kept(clusters, count, direction);
    assert(widths_of(walk(clusters, direction)).take(count) == widths_of(walk(near, direction)));
    lemma_walk_total(near, direction);
}

/// In a text that is longer than the width in bytes, the run of ASCII characters at the
/// kept edge ends in front of a character; where that one is ASCII too, the run is one
/// short of the width.
proof fn lemma_run_inside(text: Seq<char>, width: nat, direction: Direction)
    requires
        0 < width < byte_len(text),
    ensures
        0 <= ascii_run(text, direction, width - 1) < text.len(),
        ascii_run(text, direction, width - 1) <= width - 1,
        is_ascii_char(from_edge(text, ascii_run(text, direction, width - 1), direction))
            ==> ascii_run(text, direction, width - 1) == width - 1,
{
    let run = ascii_run(text, direction, width - 1);
    lemma_run_from(text, direction, 0, width - 1);
    lemma_ascii_run_is_ascii(text, direction, width - 1);
    lemma_attach_parts(text, run, direction);
    let edge = kept(text, run, direction);
    let rest = beyond(text, run, direction);
    vstd::utf8::is_ascii_chars_encode_utf8(edge);
    lemma_encode_concat(edge, rest);
    lemma_encode_concat(rest, edge);
    lemma_byte_len_bounds(rest);
}

/// Measuring the result of a truncation finds what the walk has counted, on a text that
/// is treated in the plain way.
proof fn lemma_counted(text: Seq<char>, width: nat, direction: Direction)
    requires
        0 < width < byte_len(text),
        plain_result(text, width, direction),
    ensures
        text_width(truncation(text, width, direction)) == counted(text, width, direction),
{
    let run = ascii_run(text, direction, width - 1);
    lemma_run_inside(text, width, direction);
    let edge = kept(text, run, direction);
    let rest = grapheme_clusters(beyond(text, run, direction));
    let widths = widths_of(walk(rest, direction));
    match kept_pieces(text, width, direction) {
        None => {
            lemma_walk_total(rest, direction);
        },
        Some(pieces) => {
            lemma_attach_total(pieces, seq![seq![marker()]], direction);
            assert(total(widths_of(seq![seq![marker()]])) == 1) by {
                let one = widths_of(seq![seq![marker()]]);
                assert(one.len() == 1);
                assert(one.last() == cluster_width(seq![marker()]));
                assert(total(one.drop_last()) == 0);
            }
            lemma_singles_total(edge);
            lemma_attach_parts(text, run, direction);
            if !is_ascii_char(from_edge(text, run, direction)) {
                let count = selection(widths, run as nat, width)->0 as int;
                lemma_selection_some(widths, run as nat, width);
                lemma_attach_total(singles(edge), kept(rest, count, direction), direction);
                lemma_kept_total(rest, count, direction);
            }
        },
    }
}

/// Pieces take the same number of bytes in either order.
proof fn lemma_reverse_bytes(pieces: Seq<Seq<char>>)
    ensures
        byte_len(pieces.reverse().flatten()) == byte_len(pieces.flatten()),
    decreases pieces.len(),
{
    if pieces.len() > 0 {
        let init = pieces.drop_last();
        let last = pieces.last();
        lemma_reverse_bytes(init);
        assert(pieces == init.push(last));
        init.lemma_flatten_push(last);
        assert(pieces.reverse() == seq![last] + init.reverse());
        lemma_flatten_concat(seq![last], init.reverse());
        seq![last].lemma_flatten_singleton();
        lemma_encode_concat(init.flatten(), last);
        lemma_encode_concat(last, init.reverse().flatten());
    } else {
        assert(pieces.reverse() == pieces);
    }
}

/// Single characters in reverse order are the singles of the characters reversed.
proof fn lemma_singles_reverse(chars: Seq<char>)
    ensures
        singles(chars).reverse() == singles(chars.reverse()),
{
}

/// Where the first `m` of `clusters` are the single characters `chars`, the text of all
/// clusters starts with `chars`, and the text of the clusters in reverse order ends with
/// `chars` reversed.
proof fn lemma_mirror_edge(clusters: Seq<Seq<char>>, m: int, chars: Seq<char>)
    requires
        0 <= m <= clusters.len(),
        clusters.take(m) == singles(chars),
    ensures
        chars.len() == m,
        clusters.flatten() == chars + clusters.skip(m).flatten(),
        clusters.reverse().flatten() == clusters.skip(m).reverse().flatten() + chars.reverse(),
        clusters.reverse().skip(clusters.len() - m) == singles(chars.reverse()),
        clusters.reverse().take(clusters.len() - m) == clusters.skip(m).reverse(),
{
    assert(singles(chars).len() == chars.len());
    assert(clusters == clusters.take(m) + clusters.skip(m));
    lemma_flatten_concat(clusters.take(m), clusters.skip(m));
    lemma_singles_flatten(chars);
    assert(clusters.reverse() == clusters.skip(m).reverse() + clusters.take(m).reverse());
    lemma_flatten_concat(clusters.skip(m).reverse(), clusters.take(m).reverse());
    lemma_singles_reverse(chars);
    lemma_singles_flatten(chars.reverse());
    assert(clusters.reverse().skip(clusters.len() - m) == clusters.take(m).reverse());
    assert(clusters.reverse().take(clusters.len() - m) == clusters.skip(m).reverse());
}

/// A run of ASCII characters at the kept edge is at least as long as any stretch of
/// ASCII characters there that lies within the limit.
proof fn lemma_run_reaches(text: Seq<char>, direction: Direction, limit: int, n: int)
    requires
        0 <= n <= limit,
        n <= text.len(),
        forall|i: int| 0 <= i < n ==> is_ascii_char(#[trigger] from_edge(text, i, direction)),
    ensures
        n <= ascii_run(text, direction, limit),
{
    lemma_run_from(text, direction, 0, limit);
}

/// Where the ASCII characters at the start of a text are clusters of their own, and so
/// are those at the end of the text of the same clusters in reverse order, both runs are
/// of the same length and of the same characters.
proof fn lemma_mirror_runs(clusters: Seq<Seq<char>>, limit: int)
    requires
        0 <= limit,
        ({
            let text = clusters.flatten();
            let mirror = clusters.reverse().flatten();
            let ahead = ascii_run(text, Direction::Trailing, limit);
            let behind = ascii_run(mirror, Direction::Leading, limit);
            &&& ahead <= clusters.len()
            &&& behind <= clusters.len()
            &&& clusters.take(ahead) == singles(text.take(ahead))
            &&& clusters.reverse().skip(clusters.len() - behind) == singles(
                mirror.skip(mirror.len() - behind),
            )
        }),
    ensures
        ascii_run(clusters.flatten(), Direction::Trailing, limit) == ascii_run(
            clusters.reverse().flatten(),
            Direction::Leading,
            limit,
        ),
{
    let text = clusters.flatten();
    let mirror = clusters.reverse().flatten();
    let count = clusters.len() as int;
    let ahead = ascii_run(text, Direction::Trailing, limit);
    let behind = ascii_run(mirror, Direction::Leading, limit);
    lemma_run_from(text, Direction::Trailing, 0, limit);
    lemma_run_from(mirror, Direction::Leading, 0, limit);
    let front = text.take(ahead);
    lemma_mirror_edge(clusters, ahead, front);
    assert forall|i: int| 0 <= i < ahead implies is_ascii_char(
        #[trigger] from_edge(mirror, i, Direction::Leading),
    ) by {
        assert(from_edge(mirror, i, Direction::Leading) == front.reverse()[ahead - 1 - i]);
        assert(front.reverse()[ahead - 1 - i] == from_edge(text, i, Direction::Trailing));
    }
    lemma_run_reaches(mirror, Direction::Leading, limit, ahead);
    let back = mirror.skip(mirror.len() - behind);
    assert(clusters.take(behind) == clusters.reverse().skip(count - behind).reverse());
    lemma_singles_reverse(back);
    lemma_mirror_edge(clusters, behind, back.reverse());
    assert forall|i: int| 0 <= i < behind implies is_ascii_char(
        #[trigger] from_edge(text, i, Direction::Trailing),
    ) by {
        assert(from_edge(text, i, Direction::Trailing) == back.reverse()[i]);
        assert(back.reverse()[i] == from_edge(mirror, i, Direction::Leading));
    }
    lemma_run_reaches(text, Direction::Trailing, limit, behind);
}

/// The pieces kept of a text from its start and of its mirrored text from its end.
proof fn lemma_mirror_pieces(text: Seq<char>, width: nat)
    requires
        segmented(text),
        grapheme_clusters(mirrored(text)) == grapheme_clusters(text).reverse(),
        0 < width < byte_len(text),
        byte_len(mirrored(text)) == byte_len(text),
        run_alone(
            text,
            ascii_run(text, Direction::Trailing, width as int),
            Direction::Trailing,
        ),
        run_alone(
            mirrored(text),
            ascii_run(mirrored(text), Direction::Leading, width as int),
            Direction::Leading,
        ),
    ensures
        kept_pieces(mirrored(text), width, Direction::Leading) == reversed(
            kept_pieces(text, width, Direction::Trailing),
        ),
        kept_pieces(text, width, Direction::Trailing) matches Some(kept) ==> kept.len()
            <= grapheme_clusters(text).len() && kept == grapheme_clusters(text).take(
            kept.len() as int,
        ),
{
    let clusters = grapheme_clusters(text);
    let mirror = mirrored(text);
    let ahead = ascii_run(text, Direction::Trailing, width as int);
    lemma_mirror_runs(clusters, width as int);
    lemma_run_from(text, Direction::Trailing, 0, width as int);
    lemma_run_limits(text, Direction::Trailing, width - 1, width as int);
    lemma_run_limits(mirror, Direction::Leading, width - 1, width as int);
    lemma_run_inside(text, width, Direction::Trailing);
    lemma_run_inside(mirror, width, Direction::Leading);
    let run = ascii_run(text, Direction::Trailing, width - 1);
    let front = text.take(ahead);
    let near = text.take(run);
    lemma_mirror_edge(clusters, ahead, front);
    assert(near == front.take(run));
    assert(clusters.take(run) == clusters.take(ahead).take(run));
    assert(singles(front).take(run) == singles(near));
    lemma_mirror_edge(clusters, run, near);
    assert(kept(mirror, run, Direction::Leading) == near.reverse());
    lemma_singles_reverse(near);
    if ahead > run {
        assert(from_edge(mirror, run, Direction::Leading) == front.reverse()[ahead - 1 - run]);
        assert(from_edge(mirror, run, Direction::Leading) == from_edge(
            text,
            run,
            Direction::Trailing,
        ));
    }
    assert(run == ascii_run(mirror, Direction::Leading, width - 1));
    assert(singles(near) == clusters.take(run));
    assert(singles(kept(mirror, run, Direction::Leading)) == clusters.take(run).reverse());
    if is_ascii_char(from_edge(text, run, Direction::Trailing)) {
        lemma_run_from_is(text, Direction::Trailing, 0, width as int, width as int);
        assert(is_ascii_char(from_edge(mirror, run, Direction::Leading)));
    } else {
        lemma_run_from_is(text, Direction::Trailing, 0, width as int, run);
        lemma_run_from(mirror, Direction::Leading, 0, width as int);
        assert(!is_ascii_char(from_edge(mirror, run, Direction::Leading)));
        lemma_mirror_walk(clusters, run, width);
        let rest = clusters.skip(run);
        assert(grapheme_clusters(beyond(text, run, Direction::Trailing)) == rest);
        assert(beyond(clusters.reverse(), run, Direction::Leading) == rest.reverse());
        assert(grapheme_clusters(beyond(mirror, run, Direction::Leading)) == rest.reverse());
    }
}

/// Where both walks go on over grapheme clusters, they meet the same clusters in the same
/// order and keep the same.
proof fn lemma_mirror_walk(clusters: Seq<Seq<char>>, run: int, width: nat)
    requires
        0 <= run <= clusters.len(),
        run < width,
    ensures
        ({
            let rest = clusters.skip(run);
            let edge = clusters.take(run);
            match selection(widths_of(rest), run as nat, width) {
                None => selection(
                    widths_of(walk(rest.reverse(), Direction::Leading)),
                    run as nat,
                    width,
                ) is None,
                Some(more) => {
                    &&& selection(
                        widths_of(walk(rest.reverse(), Direction::Leading)),
                        run as nat,
                        width,
                    ) == Some(more)
                    &&& run + more <= clusters.len()
                    &&& attach(
                        edge,
                        kept(rest, more as int, Direction::Trailing),
                        Direction::Trailing,
                    ) == clusters.take(run + more)
                    &&& attach(
                        edge.reverse(),
                        kept(rest.reverse(), more as int, Direction::Leading),
                        Direction::Leading,
                    ) == clusters.take(run + more).reverse()
                },
            }
        }),
{
    let rest = clusters.skip(run);
    assert(rest.reverse().reverse() == rest);
    let widths = widths_of(rest);
    if selection(widths, run as nat, width) is Some {
        lemma_selection_some(widths, run as nat, width);
    }
}

/// The empty text has no clusters and no width.
proof fn lemma_empty_width()
    requires
        segmented(Seq::<char>::empty()),
    ensures
        text_width(Seq::<char>::empty()) == 0,
{
    let clusters = grapheme_clusters(Seq::<char>::empty());
    if clusters.len() > 0 {
        assert(clusters[0].len() > 0);
        assert(clusters.flatten() == clusters.first() + clusters.drop_first().flatten());
    }
    assert(widths_of(clusters).len() == 0);
}

} // verus!
