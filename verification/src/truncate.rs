//! Truncation of a string to a display width.

use crate::model::{
    ascii_run, attach, beyond, cluster_pieces, cuts, from_edge, kept, lemma_ascii_run_is_ascii,
    is_edge_cut, lemma_attach_flatten, lemma_attach_parts, lemma_kept_step,
    lemma_singles_flatten, rendered, run_from, selected_pieces, singles, truncation,
    with_marker, Direction,
};
use crate::laws::law_kept_edge;
use crate::segment::{segmented, split_clusters, tiles, views};
use crate::select::{lemma_halt, select_clusters};
use crate::text::{
    byte_len, is_ascii_char, lemma_boundary_at_concat, lemma_byte_len_bounds,
    lemma_encode_concat, lemma_encode_injective, lemma_first_byte, lemma_last_byte,
};
use crate::width::{as_nats, measure};
use std::borrow::Cow;
use vstd::prelude::*;
use vstd::string::*;
use vstd::utf8::*;

verus! {

/// How the walk over the ASCII characters at the kept edge ended.
#[derive(Debug, PartialEq, Eq)]
pub enum AsciiIterationResult {
    /// The whole width but one column is filled with ASCII characters and another follows
    /// them: the truncated text is complete.
    Complete(String),
    /// This many ASCII characters were taken before a character that is not ASCII.
    Remaining(usize),
}

/// Returns `text` with the marker at the cut.
pub fn add_ellipsis(text: &str, direction: Direction) -> (out: String)
    ensures
        out@ == with_marker(text@, direction),
{
    let mut out = String::new();
    proof {
        reveal_strlit("…");
        assert("…"@ == seq!['\u{2026}']);
    }
    match direction {
        Direction::Trailing => {
            out.append(text);
            out.append("…");
        },
        Direction::Leading => {
            out.append("…");
            out.append(text);
        },
    }
    out
}

/// The number of bytes in `content`.
fn encoded_len(content: &str) -> (len: usize)
    ensures
        len == byte_len(content@),
{
    content.as_bytes().len()
}

/// Cuts `content` where `bytes` bytes lie on the kept side, and returns the kept side and
/// what lies beyond it.
fn cut<'a>(
    content: &'a str,
    bytes: usize,
    direction: Direction,
    Ghost(near): Ghost<Seq<char>>,
    Ghost(far): Ghost<Seq<char>>,
) -> (parts: (&'a str, &'a str))
    requires
        content@ == attach(near, far, direction),
        byte_len(near) == bytes,
    ensures
        parts.0@ == near,
        parts.1@ == far,
{
    match direction {
        Direction::Trailing => {
            proof {
                lemma_boundary_at_concat(near, far);
            }
            let (head, tail) = content.split_at(bytes);
            proof {
                lemma_encode_injective(head@, near);
                lemma_encode_injective(tail@, far);
            }
            (head, tail)
        },
        Direction::Leading => {
            proof {
                lemma_boundary_at_concat(far, near);
                lemma_encode_concat(far, near);
            }
            let (head, tail) = content.split_at(encoded_len(content) - bytes);
            proof {
                lemma_encode_injective(head@, far);
                lemma_encode_injective(tail@, near);
            }
            (tail, head)
        },
    }
}

/// The byte that stands `n` places from the kept edge of an encoding is below 0x80 exactly
/// when the character `n` places from that edge is ASCII, given that the characters before
/// it take one byte each.
proof fn lemma_edge_byte(text: Seq<char>, n: int, direction: Direction)
    requires
        0 <= n <= text.len(),
        byte_len(kept(text, n, direction)) == n,
        n < byte_len(text),
    ensures
        n < text.len(),
        from_edge(encode_utf8(text), n, direction) < 0x80 <==> is_ascii_char(
            from_edge(text, n, direction),
        ),
        is_ascii_char(from_edge(text, n, direction)) ==> byte_len(kept(text, n + 1, direction))
            == n + 1,
{
    let near = kept(text, n, direction);
    let far = beyond(text, n, direction);
    lemma_attach_parts(text, n, direction);
    lemma_byte_len_bounds(far);
    let c = from_edge(text, n, direction);
    match direction {
        Direction::Trailing => {
            lemma_boundary_at_concat(near, far);
            lemma_first_byte(far);
            assert(encode_utf8(text)[n] == encode_utf8(far)[0]);
            assert(far[0] == c);
            assert(kept(text, n + 1, direction) == near + seq![c]);
            lemma_encode_concat(near, seq![c]);
        },
        Direction::Leading => {
            lemma_boundary_at_concat(far, near);
            lemma_encode_concat(far, near);
            lemma_last_byte(far);
            assert(encode_utf8(text)[encode_utf8(text).len() - 1 - n] == encode_utf8(far).last());
            assert(far.last() == c);
            assert(kept(text, n + 1, direction) == seq![c] + near);
            lemma_encode_concat(seq![c], near);
        },
    }
    if is_ascii_char(c) {
        lemma_first_byte(seq![c]);
        assert(seq![c].drop_first() == Seq::<char>::empty());
        assert(encode_utf8(seq![c]).skip(1).len() == 0);
    }
}

/// Walks over the ASCII characters at the kept edge of `content`, up to `width - 1` of
/// them, and tells how the walk ended.
///
/// Where an ASCII character follows the run that was walked, the result is complete: the
/// run with the marker. Else the length of the run is handed back.
pub fn greedy_ascii_add(content: &str, width: usize, direction: Direction) -> (result:
    AsciiIterationResult)
    requires
        0 < width < byte_len(content@),
    ensures
        match result {
            AsciiIterationResult::Complete(text) => {
                &&& is_ascii_char(
                    from_edge(content@, ascii_run(content@, direction, width - 1), direction),
                )
                &&& text@ == with_marker(
                    kept(content@, ascii_run(content@, direction, width - 1), direction),
                    direction,
                )
            },
            AsciiIterationResult::Remaining(consumed) => {
                &&& !is_ascii_char(
                    from_edge(content@, ascii_run(content@, direction, width - 1), direction),
                )
                &&& consumed == ascii_run(content@, direction, width - 1)
            },
        },
{
    let ghost text = content@;
    let bytes = content.as_bytes();
    let len = bytes.len();
    let mut consumed: usize = 0;
    proof {
        assert(kept(text, 0, direction).len() == 0);
    }
    while consumed < width - 1
        invariant
            text == content@,
            bytes@ == encode_utf8(text),
            len == byte_len(text),
            0 < width < len,
            consumed <= width - 1,
            consumed <= text.len(),
            byte_len(kept(text, consumed as int, direction)) == consumed,
            ascii_run(text, direction, width - 1) == run_from(
                text,
                direction,
                consumed as int,
                width - 1,
            ),
        decreases width - consumed,
    {
        proof {
            lemma_edge_byte(text, consumed as int, direction);
        }
        let current = match direction {
            Direction::Trailing => bytes[consumed],
            Direction::Leading => bytes[len - 1 - consumed],
        };
        if current < 0x80 {
            consumed += 1;
        } else {
            return AsciiIterationResult::Remaining(consumed);
        }
    }
    proof {
        lemma_edge_byte(text, consumed as int, direction);
        lemma_attach_parts(text, consumed as int, direction);
    }
    let current = match direction {
        Direction::Trailing => bytes[consumed],
        Direction::Leading => bytes[len - 1 - consumed],
    };
    if current < 0x80 {
        let (near, _) = cut(
            content,
            consumed,
            direction,
            Ghost(kept(text, consumed as int, direction)),
            Ghost(beyond(text, consumed as int, direction)),
        );
        AsciiIterationResult::Complete(add_ellipsis(near, direction))
    } else {
        AsciiIterationResult::Remaining(consumed)
    }
}

/// The number of bytes that the `count` clusters at the kept edge take.
fn kept_len(clusters: &Vec<&str>, count: usize, direction: Direction) -> (bytes: usize)
    requires
        count <= clusters.len(),
        byte_len(views(clusters@).flatten()) <= usize::MAX,
    ensures
        bytes == byte_len(kept(views(clusters@), count as int, direction).flatten()),
{
    let ghost all = views(clusters@);
    let total = clusters.len();
    let mut bytes: usize = 0;
    let mut i: usize = 0;
    proof {
        assert(kept(all, 0, direction).len() == 0);
    }
    while i < count
        invariant
            all == views(clusters@),
            total == clusters.len(),
            0 <= i <= count <= total,
            byte_len(all.flatten()) <= usize::MAX,
            bytes == byte_len(kept(all, i as int, direction).flatten()),
        decreases count - i,
    {
        let cluster = match direction {
            Direction::Trailing => clusters[i],
            Direction::Leading => clusters[total - 1 - i],
        };
        proof {
            let next = from_edge(all, i as int, direction);
            assert(cluster@ == next);
            lemma_kept_step(all, i as int, direction);
            lemma_attach_flatten(kept(all, i as int, direction), seq![next], direction);
            assert(seq![next].flatten() == next) by {
                seq![next].lemma_flatten_singleton();
            }
            lemma_encode_concat(kept(all, i as int, direction).flatten(), next);
            lemma_encode_concat(next, kept(all, i as int, direction).flatten());
            lemma_attach_parts(all, i + 1, direction);
            lemma_attach_flatten(
                kept(all, i + 1, direction),
                beyond(all, i + 1, direction),
                direction,
            );
            lemma_encode_concat(
                kept(all, i + 1, direction).flatten(),
                beyond(all, i + 1, direction).flatten(),
            );
            lemma_encode_concat(
                beyond(all, i + 1, direction).flatten(),
                kept(all, i + 1, direction).flatten(),
            );
        }
        bytes = bytes + cluster.len();
        i += 1;
    }
    bytes
}

/// Truncates `content`, of which the `bytes_consumed` ASCII characters at the kept edge
/// are taken already, given the pieces into which the text beyond them falls: `clusters`,
/// in the order in which they stand in `content`, and `widths`, the width of each piece in
/// the order in which a walk away from the kept edge meets them.
///
/// Where all pieces fit, `content` is handed back as it is. Else the pieces are kept that
/// [`select_clusters`] chooses, and the marker is set where the rest was cut. The widths
/// are taken as they are given, so that a caller may measure by a table of its own.
pub fn truncate_clusters<'a>(
    content: &'a str,
    bytes_consumed: usize,
    clusters: &Vec<&str>,
    widths: &Vec<usize>,
    width: usize,
    direction: Direction,
) -> (out: Cow<'a, str>)
    requires
        bytes_consumed < width,
        bytes_consumed <= content@.len(),
        is_ascii_chars(kept(content@, bytes_consumed as int, direction)),
        tiles(views(clusters@), beyond(content@, bytes_consumed as int, direction)),
        widths@.len() == clusters@.len(),
    ensures
        out@ == rendered(
            selected_pieces(
                content@,
                bytes_consumed as int,
                views(clusters@),
                as_nats(widths@),
                width as nat,
                direction,
            ),
            content@,
            direction,
        ),
        out is Owned <==> selected_pieces(
            content@,
            bytes_consumed as int,
            views(clusters@),
            as_nats(widths@),
            width as nat,
            direction,
        ) is Some,
{
    let ghost text = content@;
    let ghost edge = kept(text, bytes_consumed as int, direction);
    let ghost rest = beyond(text, bytes_consumed as int, direction);
    let total = encoded_len(content);
    proof {
        lemma_attach_parts(text, bytes_consumed as int, direction);
        is_ascii_chars_encode_utf8(edge);
        lemma_encode_concat(edge, rest);
        lemma_encode_concat(rest, edge);
    }
    match select_clusters(widths, bytes_consumed, width) {
        None => Cow::Borrowed(content),
        Some(count) => {
            let ghost all = views(clusters@);
            let ghost near = kept(all, count as int, direction);
            let ghost far = beyond(all, count as int, direction);
            proof {
                lemma_halt(as_nats(widths@), 0, width - bytes_consumed);
                lemma_attach_parts(all, count as int, direction);
                lemma_attach_flatten(near, far, direction);
                lemma_attach_flatten(singles(edge), near, direction);
                lemma_singles_flatten(edge);
                lemma_encode_concat(edge, near.flatten());
                lemma_encode_concat(near.flatten(), edge);
                lemma_encode_concat(near.flatten(), far.flatten());
                lemma_encode_concat(far.flatten(), near.flatten());
                assert(text == attach(
                    attach(edge, near.flatten(), direction),
                    far.flatten(),
                    direction,
                ));
                lemma_encode_concat(attach(edge, near.flatten(), direction), far.flatten());
                lemma_encode_concat(far.flatten(), attach(edge, near.flatten(), direction));
            }
            let bytes = bytes_consumed + kept_len(clusters, count, direction);
            let (slice, _) = cut(
                content,
                bytes,
                direction,
                Ghost(attach(edge, near.flatten(), direction)),
                Ghost(far.flatten()),
            );
            Cow::Owned(add_ellipsis(slice, direction))
        },
    }
}

/// Truncates `content`, of which the `bytes_consumed` ASCII characters at the kept edge
/// are taken already, by walking over the grapheme clusters beyond them.
pub fn handle_remaining<'a>(
    content: &'a str,
    bytes_consumed: usize,
    width: usize,
    direction: Direction,
) -> (out: Cow<'a, str>)
    requires
        bytes_consumed < width,
        bytes_consumed <= content@.len(),
        is_ascii_chars(kept(content@, bytes_consumed as int, direction)),
    ensures
        out@ == rendered(
            cluster_pieces(content@, bytes_consumed as int, width as nat, direction),
            content@,
            direction,
        ),
        out is Owned <==> cluster_pieces(
            content@,
            bytes_consumed as int,
            width as nat,
            direction,
        ) is Some,
        segmented(beyond(content@, bytes_consumed as int, direction)),
{
    let ghost edge = kept(content@, bytes_consumed as int, direction);
    let ghost rest = beyond(content@, bytes_consumed as int, direction);
    proof {
        lemma_attach_parts(content@, bytes_consumed as int, direction);
        is_ascii_chars_encode_utf8(edge);
    }
    let (_, remaining) = cut(content, bytes_consumed, direction, Ghost(edge), Ghost(rest));
    let clusters = split_clusters(remaining);
    let widths = measure(&clusters, direction);
    truncate_clusters(content, bytes_consumed, &clusters, &widths, width, direction)
}

/// Truncates `content` to at most `width` columns, with the marker at the side that
/// `direction` names where anything was cut.
pub fn truncate_str_inner<'a>(content: &'a str, width: usize, direction: Direction) -> (out: Cow<
    'a,
    str,
>)
    ensures
        out@ == truncation(content@, width as nat, direction),
        out is Owned <==> cuts(content@, width as nat, direction),
        out@ == content@ || (width == 0 && out@.len() == 0) || is_edge_cut(
            out@,
            content@,
            direction,
        ),
{
    if encoded_len(content) <= width {
        Cow::Borrowed(content)
    } else if width == 0 {
        proof {
            reveal_strlit("");
        }
        Cow::Borrowed("")
    } else {
        match greedy_ascii_add(content, width, direction) {
            AsciiIterationResult::Complete(text) => {
                proof {
                    lemma_singles_flatten(
                        kept(content@, ascii_run(content@, direction, width - 1), direction),
                    );
                    law_kept_edge(content@, width as nat, direction);
                }
                Cow::Owned(text)
            },
            AsciiIterationResult::Remaining(bytes_consumed) => {
                proof {
                    lemma_ascii_run_is_ascii(content@, direction, width - 1);
                }
                let out = handle_remaining(content, bytes_consumed, width, direction);
                proof {
                    law_kept_edge(content@, width as nat, direction);
                }
                out
            },
        }
    }
}

/// Truncates `content` to at most `width` columns; where anything is cut, it is cut at
/// the end and an ellipsis follows what is kept.
pub fn truncate_str<'a>(content: &'a str, width: usize) -> (out: Cow<'a, str>)
    ensures
        out@ == truncation(content@, width as nat, Direction::Trailing),
        out is Owned <==> cuts(content@, width as nat, Direction::Trailing),
        out@ == content@ || (width == 0 && out@.len() == 0) || is_edge_cut(
            out@,
            content@,
            Direction::Trailing,
        ),
{
    truncate_str_inner(content, width, Direction::Trailing)
}

/// Truncates `content` to at most `width` columns; where anything is cut, it is cut at
/// the start and an ellipsis stands in front of what is kept.
pub fn truncate_str_leading<'a>(content: &'a str, width: usize) -> (out: Cow<'a, str>)
    ensures
        out@ == truncation(content@, width as nat, Direction::Leading),
        out is Owned <==> cuts(content@, width as nat, Direction::Leading),
        out@ == content@ || (width == 0 && out@.len() == 0) || is_edge_cut(
            out@,
            content@,
            Direction::Leading,
        ),
{
    truncate_str_inner(content, width, Direction::Leading)
}

} // verus!
