//! What truncation returns, stated over sequences of characters.

use crate::segment::grapheme_clusters;
use crate::select::selection;
use crate::text::{byte_len, is_ascii_char, lemma_char_floor};
use crate::width::widths_of;
use vstd::prelude::*;
use vstd::seq_lib::lemma_flatten_concat;

verus! {

/// The side of a text at which the marker stands in for what was cut.
#[derive(Clone, Copy, Debug, PartialEq, Eq)]
pub enum Direction {
    /// The start of the text is kept and the marker follows it.
    Trailing,
    /// The end of the text is kept and the marker stands in front of it.
    Leading,
}

/// The character that marks a cut: the horizontal ellipsis, one column wide.
pub open spec fn marker() -> char {
    '\u{2026}'
}

/// The `n` items of `s` at the kept edge: its first `n` where the start is kept, its last
/// `n` where the end is.
pub open spec fn kept<A>(s: Seq<A>, n: int, direction: Direction) -> Seq<A> {
    match direction {
        Direction::Trailing => s.take(n),
        Direction::Leading => s.skip(s.len() - n),
    }
}

/// What is left of `s` without its `n` items at the kept edge.
pub open spec fn beyond<A>(s: Seq<A>, n: int, direction: Direction) -> Seq<A> {
    match direction {
        Direction::Trailing => s.skip(n),
        Direction::Leading => s.take(s.len() - n),
    }
}

/// The item of `s` that stands `i` places from the kept edge.
pub open spec fn from_edge<A>(s: Seq<A>, i: int, direction: Direction) -> A {
    match direction {
        Direction::Trailing => s[i],
        Direction::Leading => s[s.len() - 1 - i],
    }
}

/// `s` in the order in which a walk away from the kept edge meets its items.
pub open spec fn walk<A>(s: Seq<A>, direction: Direction) -> Seq<A> {
    match direction {
        Direction::Trailing => s,
        Direction::Leading => s.reverse(),
    }
}

/// `inner` joined to `edge` so that `edge` lies at the kept edge.
pub open spec fn attach<A>(edge: Seq<A>, inner: Seq<A>, direction: Direction) -> Seq<A> {
    match direction {
        Direction::Trailing => edge + inner,
        Direction::Leading => inner + edge,
    }
}

/// `body` with the marker where the cut was made.
pub open spec fn with_marker(body: Seq<char>, direction: Direction) -> Seq<char> {
    attach(body, seq![marker()], direction)
}

/// Each character of `chars` as a piece of its own.
pub open spec fn singles(chars: Seq<char>) -> Seq<Seq<char>> {
    chars.map_values(|c: char| seq![c])
}

/// Where a walk away from the kept edge of `text` halts that starts `from` places in and
/// goes on while it is less than `limit` places in and stands on an ASCII character.
pub open spec fn run_from(text: Seq<char>, direction: Direction, from: int, limit: int) -> int
    decreases limit - from,
{
    if 0 <= from < limit && from < text.len() && is_ascii_char(from_edge(text, from, direction)) {
        run_from(text, direction, from + 1, limit)
    } else {
        from
    }
}

/// The length of the run of ASCII characters at the kept edge of `text`, counted up to
/// `limit`.
pub open spec fn ascii_run(text: Seq<char>, direction: Direction, limit: int) -> int {
    run_from(text, direction, 0, limit)
}

/// What is kept of `text`, of which the `run` ASCII characters at the kept edge are taken
/// already, one column each, when `clusters` lie beyond them and `widths` are the widths
/// of those clusters in the order in which a walk away from the kept edge meets them:
/// `None` when the clusters all fit into `width`, else the pieces kept, in the order in
/// which they stand in `text`: the `run` characters one by one, and the clusters next to
/// them that [`selection`] leaves.
pub open spec fn selected_pieces(
    text: Seq<char>,
    run: int,
    clusters: Seq<Seq<char>>,
    widths: Seq<nat>,
    width: nat,
    direction: Direction,
) -> Option<Seq<Seq<char>>> {
    match selection(widths, run as nat, width) {
        None => None,
        Some(count) => Some(
            attach(
                singles(kept(text, run, direction)),
                kept(clusters, count as int, direction),
                direction,
            ),
        ),
    }
}

/// What the walk over grapheme clusters keeps of `text`, of which the `run` ASCII
/// characters at the kept edge are taken already: the pieces selected among the grapheme
/// clusters of the text beyond them, by their display widths.
pub open spec fn cluster_pieces(
    text: Seq<char>,
    run: int,
    width: nat,
    direction: Direction,
) -> Option<Seq<Seq<char>>> {
    let clusters = grapheme_clusters(beyond(text, run, direction));
    selected_pieces(text, run, clusters, widths_of(walk(clusters, direction)), width, direction)
}

/// The pieces that a truncation to `width` keeps of a `text` that is longer than `width`
/// bytes, for a `width` above zero, in the order in which they stand in `text`; or `None`
/// when `text` is left as it is.
///
/// The ASCII characters at the kept edge are kept one by one, up to `width - 1` of them.
/// Where an ASCII character follows that run, the run is all that is kept; where another
/// character does, the walk goes on over the grapheme clusters beyond the run.
pub open spec fn kept_pieces(text: Seq<char>, width: nat, direction: Direction) -> Option<
    Seq<Seq<char>>,
> {
    let run = ascii_run(text, direction, width - 1);
    if is_ascii_char(from_edge(text, run, direction)) {
        Some(singles(kept(text, run, direction)))
    } else {
        cluster_pieces(text, run, width, direction)
    }
}

/// `text` as it is where no pieces are named, else the named pieces joined, with the
/// marker at the cut.
pub open spec fn rendered(
    pieces: Option<Seq<Seq<char>>>,
    text: Seq<char>,
    direction: Direction,
) -> Seq<char> {
    match pieces {
        None => text,
        Some(pieces) => with_marker(pieces.flatten(), direction),
    }
}

/// The result of truncating `text` to `width` columns.
///
/// A text whose encoding is no longer than `width` bytes is left as it is. Of any other
/// text nothing is left for a width of zero, not even the marker. Else the result is the
/// text itself where all of it finds room, and else the pieces kept, with the marker.
pub open spec fn truncation(text: Seq<char>, width: nat, direction: Direction) -> Seq<char> {
    if byte_len(text) <= width {
        text
    } else if width == 0 {
        Seq::empty()
    } else {
        rendered(kept_pieces(text, width, direction), text, direction)
    }
}

/// True when truncating `text` to `width` cuts it and sets the marker: for a width above
/// zero and below the length of `text` in bytes, unless the text finds room after all.
pub open spec fn cuts(text: Seq<char>, width: nat, direction: Direction) -> bool {
    0 < width < byte_len(text) && kept_pieces(text, width, direction) is Some
}

/// True when `result` is a stretch of `text` at its kept edge, shorter than `text`, with
/// the marker where the rest was cut.
pub open spec fn is_edge_cut(result: Seq<char>, text: Seq<char>, direction: Direction) -> bool {
    exists|n: int|
        0 <= n < text.len() && result == with_marker(#[trigger] kept(text, n, direction), direction)
}

/// The run of ASCII characters at the kept edge is made of ASCII characters, lies within
/// the text and the limit, and ends at the limit, at the end of the text or in front of a
/// character that is not ASCII.
pub proof fn lemma_run_from(text: Seq<char>, direction: Direction, from: int, limit: int)
    requires
        0 <= from <= limit,
        from <= text.len(),
    ensures
        from <= run_from(text, direction, from, limit) <= limit,
        run_from(text, direction, from, limit) <= text.len(),
        forall|i: int|
            from <= i < run_from(text, direction, from, limit) ==> is_ascii_char(
                #[trigger] from_edge(text, i, direction),
            ),
        run_from(text, direction, from, limit) < limit && run_from(text, direction, from, limit)
            < text.len() ==> !is_ascii_char(
            from_edge(text, run_from(text, direction, from, limit), direction),
        ),
    decreases limit - from,
{
    if from < limit && from < text.len() && is_ascii_char(from_edge(text, from, direction)) {
        lemma_run_from(text, direction, from + 1, limit);
    }
}

/// The characters of the run of ASCII characters at the kept edge are ASCII.
pub proof fn lemma_ascii_run_is_ascii(text: Seq<char>, direction: Direction, limit: int)
    requires
        0 <= limit,
    ensures
        0 <= ascii_run(text, direction, limit) <= limit,
        ascii_run(text, direction, limit) <= text.len(),
        vstd::utf8::is_ascii_chars(kept(text, ascii_run(text, direction, limit), direction)),
{
    lemma_run_from(text, direction, 0, limit);
    let run = ascii_run(text, direction, limit);
    let edge = kept(text, run, direction);
    assert forall|i: int| 0 <= i < edge.len() implies '\0' <= #[trigger] edge[i] <= '\u{7f}' by {
        let j = match direction {
            Direction::Trailing => i,
            Direction::Leading => run - 1 - i,
        };
        assert(edge[i] == from_edge(text, j, direction));
        assert(is_ascii_char(from_edge(text, j, direction)));
        lemma_char_floor(edge[i]);
    }
}

/// The pieces of a text cut into single characters give the text again.
pub proof fn lemma_singles_flatten(chars: Seq<char>)
    ensures
        singles(chars).flatten() == chars,
    decreases chars.len(),
{
    if chars.len() > 0 {
        lemma_singles_flatten(chars.drop_first());
        assert(singles(chars).drop_first() == singles(chars.drop_first()));
        assert(singles(chars).first() + chars.drop_first() == chars);
    }
}

/// A sequence is its items at the kept edge joined to the rest.
pub proof fn lemma_attach_parts<A>(s: Seq<A>, n: int, direction: Direction)
    requires
        0 <= n <= s.len(),
    ensures
        s == attach(kept(s, n, direction), beyond(s, n, direction), direction),
        kept(s, n, direction).len() == n,
        beyond(s, n, direction).len() == s.len() - n,
{
    match direction {
        Direction::Trailing => {
            assert(s == s.take(n) + s.skip(n));
        },
        Direction::Leading => {
            assert(s == s.take(s.len() - n) + s.skip(s.len() - n));
        },
    }
}

/// Joining pieces and then their characters is joining the characters of each part.
pub proof fn lemma_attach_flatten(
    edge: Seq<Seq<char>>,
    inner: Seq<Seq<char>>,
    direction: Direction,
)
    ensures
        attach(edge, inner, direction).flatten() == attach(
            edge.flatten(),
            inner.flatten(),
            direction,
        ),
{
    lemma_flatten_concat(edge, inner);
    lemma_flatten_concat(inner, edge);
}

/// One more item at the kept edge is the item that stands next to those before.
pub proof fn lemma_kept_step<A>(s: Seq<A>, n: int, direction: Direction)
    requires
        0 <= n < s.len(),
    ensures
        kept(s, n + 1, direction) == attach(
            kept(s, n, direction),
            seq![from_edge(s, n, direction)],
            direction,
        ),
        beyond(s, n, direction) == attach(
            seq![from_edge(s, n, direction)],
            beyond(s, n + 1, direction),
            direction,
        ),
{
}

} // verus!
