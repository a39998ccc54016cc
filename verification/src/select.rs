//! How many pieces of a text find room in a given width.

use crate::width::{as_nats, lemma_total_step, total};
use vstd::prelude::*;

verus! {

/// Where a walk over `widths` comes to a halt that starts at index `from` with `room`
/// columns left and takes each piece for which there is still room: the index of the first
/// piece that does not fit, or the length of `widths` when all of them do.
pub open spec fn halt(widths: Seq<nat>, from: int, room: int) -> int
    decreases widths.len() - from,
{
    if 0 <= from < widths.len() && widths[from] <= room {
        halt(widths, from + 1, room - widths[from])
    } else {
        from
    }
}

/// The number of leading pieces whose widths together are at most `room`.
pub open spec fn fit_count(widths: Seq<nat>, room: int) -> int {
    halt(widths, 0, room)
}

/// What is kept of pieces with the given `widths` when `used` columns of `width` are
/// taken already: `None` when all pieces fit, so that nothing has to be cut; else the
/// number of leading pieces kept, which leaves one column free for the marker. The free
/// column is had by dropping the last piece that fit, where the pieces that fit fill the
/// width to the brim.
pub open spec fn selection(widths: Seq<nat>, used: nat, width: nat) -> Option<nat> {
    let fit = fit_count(widths, width - used);
    if fit == widths.len() {
        None
    } else if fit > 0 && used + total(widths.take(fit)) == width {
        Some((fit - 1) as nat)
    } else {
        Some(fit as nat)
    }
}

/// A walk halts within the sequence, having taken no more than there was room for, and in
/// front of a piece for which no room is left.
pub proof fn lemma_halt(widths: Seq<nat>, from: int, room: int)
    requires
        0 <= from <= widths.len(),
        0 <= room,
    ensures
        from <= halt(widths, from, room) <= widths.len(),
        total(widths.take(halt(widths, from, room))) - total(widths.take(from)) <= room,
        halt(widths, from, room) < widths.len() ==> total(
            widths.take(halt(widths, from, room) + 1),
        ) - total(widths.take(from)) > room,
    decreases widths.len() - from,
{
    if from < widths.len() {
        lemma_total_step(widths, from);
        if widths[from] <= room {
            lemma_halt(widths, from + 1, room - widths[from]);
        }
    }
}

/// The count of pieces that fit is the one prefix length whose sum is within the room
/// while the next longer prefix, if there is one, is not.
pub proof fn lemma_fit_count_is(widths: Seq<nat>, room: int, count: int)
    requires
        0 <= room,
        0 <= count <= widths.len(),
        total(widths.take(count)) <= room,
        count < widths.len() ==> total(widths.take(count + 1)) > room,
    ensures
        fit_count(widths, room) == count,
{
    let fit = fit_count(widths, room);
    lemma_halt(widths, 0, room);
    assert(total(widths.take(0)) == 0);
    if fit < count {
        lemma_total_monotone(widths, fit + 1, count);
    } else if count < fit {
        lemma_total_monotone(widths, count + 1, fit);
    }
}

/// Longer prefixes have larger sums.
pub proof fn lemma_total_monotone(widths: Seq<nat>, i: int, j: int)
    requires
        0 <= i <= j <= widths.len(),
    ensures
        total(widths.take(i)) <= total(widths.take(j)),
    decreases j - i,
{
    if i < j {
        lemma_total_monotone(widths, i, j - 1);
        lemma_total_step(widths, j - 1);
    }
}

/// The columns that a selection fills: those taken already and those of the pieces kept,
/// and one for the marker where pieces were cut.
pub open spec fn filled(widths: Seq<nat>, used: nat, width: nat) -> nat {
    match selection(widths, used, width) {
        None => used + total(widths),
        Some(count) => used + total(widths.take(count as int)) + 1,
    }
}

/// True when, to make room for the marker, a selection drops a piece of width zero, which
/// makes no room.
pub open spec fn drops_blank(widths: Seq<nat>, used: nat, width: nat) -> bool {
    let fit = fit_count(widths, width - used);
    &&& 0 < fit < widths.len()
    &&& used + total(widths.take(fit)) == width
    &&& widths[fit - 1] == 0
}

/// Nothing is cut exactly when all pieces together find room.
pub proof fn lemma_selection_none(widths: Seq<nat>, used: nat, width: nat)
    requires
        used <= width,
    ensures
        selection(widths, used, width) is None <==> used + total(widths) <= width,
{
    let fit = fit_count(widths, width - used);
    lemma_halt(widths, 0, width - used);
    assert(total(widths.take(0)) == 0);
    assert(widths.take(widths.len() as int) == widths);
    if fit < widths.len() {
        lemma_total_monotone(widths, fit + 1, widths.len() as int);
    }
}

/// Where pieces are cut, those kept are leading ones that fit, and the piece after them
/// finds no room beside the marker. They leave a column for the marker unless a piece of
/// width zero was dropped for it.
pub proof fn lemma_selection_some(widths: Seq<nat>, used: nat, width: nat)
    requires
        used < width,
        selection(widths, used, width) is Some,
    ensures
        0 <= selection(widths, used, width)->0 <= fit_count(widths, width - used) < widths.len(),
        used + total(widths.take(selection(widths, used, width)->0 as int)) <= width,
        used + total(widths.take(selection(widths, used, width)->0 as int + 1)) + 1 > width,
        !drops_blank(widths, used, width) ==> filled(widths, used, width) <= width,
{
    let fit = fit_count(widths, width - used);
    lemma_halt(widths, 0, width - used);
    assert(total(widths.take(0)) == 0);
    if fit > 0 {
        lemma_total_step(widths, fit - 1);
    }
}

/// A wider target never makes a selection fill fewer columns.
pub proof fn lemma_filled_monotone(widths: Seq<nat>, used: nat, narrow: nat, wide: nat)
    requires
        used < narrow <= wide,
    ensures
        filled(widths, used, narrow) <= filled(widths, used, wide),
{
    let len = widths.len() as int;
    lemma_selection_none(widths, used, narrow);
    lemma_selection_none(widths, used, wide);
    assert(widths.take(len) == widths);
    match selection(widths, used, narrow) {
        None => {},
        Some(few) => {
            lemma_selection_some(widths, used, narrow);
            let fit = fit_count(widths, narrow - used);
            lemma_halt(widths, 0, narrow - used);
            assert(total(widths.take(0)) == 0);
            match selection(widths, used, wide) {
                None => {
                    lemma_total_monotone(widths, few as int + 1, len);
                },
                Some(many) => {
                    lemma_selection_some(widths, used, wide);
                    let more = fit_count(widths, wide - used);
                    lemma_halt(widths, 0, wide - used);
                    if more < fit {
                        lemma_total_monotone(widths, more + 1, fit);
                    }
                    if fit < more {
                        lemma_total_monotone(widths, fit, more - 1);
                        lemma_total_monotone(widths, few as int, fit);
                        lemma_total_monotone(widths, more - 1, many as int);
                    } else {
                        lemma_total_monotone(widths, few as int, many as int);
                    }
                },
            }
        },
    }
}

/// Decides how many of the pieces with the given `widths` are kept when `used` columns of
/// `width` are taken already: `None` when all of them fit.
pub fn select_clusters(widths: &Vec<usize>, used: usize, width: usize) -> (kept: Option<usize>)
    requires
        used < width,
    ensures
        kept is None <==> selection(as_nats(widths@), used as nat, width as nat) is None,
        kept matches Some(count) ==> selection(as_nats(widths@), used as nat, width as nat)
            == Some(count as nat),
{
    let ghost all = as_nats(widths@);
    let mut taken: usize = 0;
    let mut current: usize = used;
    while taken < widths.len() && widths[taken] <= width - current
        invariant
            all == as_nats(widths@),
            0 <= taken <= widths.len(),
            used <= current <= width,
            current == used + total(all.take(taken as int)),
            fit_count(all, width - used) == halt(all, taken as int, width - current),
        decreases widths.len() - taken,
    {
        proof {
            lemma_total_step(all, taken as int);
        }
        current = current + widths[taken];
        taken = taken + 1;
    }
    if taken == widths.len() {
        None
    } else if current == width {
        assert(taken > 0) by {
            assert(all.take(0).len() == 0);
        }
        Some(taken - 1)
    } else {
        Some(taken)
    }
}

} // verus!
