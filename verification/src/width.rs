//! Display width of grapheme clusters and of whole texts.

use crate::model::{from_edge, walk, Direction};
use crate::segment::{grapheme_clusters, split_clusters, views};
use unicode_width::UnicodeWidthStr;
use vstd::prelude::*;

verus! {

/// The zero-width joiner, which glues emoji into one glyph.
pub open spec fn joiner() -> char {
    '\u{200d}'
}

/// The number of columns that the Unicode width tables give `text` taken as one string.
pub uninterp spec fn unicode_width(text: Seq<char>) -> nat;

/// The display width of one grapheme cluster: two columns for a cluster that holds a
/// zero-width joiner, else what the width tables say of the cluster as a whole.
pub open spec fn cluster_width(cluster: Seq<char>) -> nat {
    if cluster.contains(joiner()) {
        2
    } else {
        unicode_width(cluster)
    }
}

/// The sum of a sequence of widths.
pub open spec fn total(widths: Seq<nat>) -> nat
    decreases widths.len(),
{
    if widths.len() == 0 {
        0
    } else {
        total(widths.drop_last()) + widths.last()
    }
}

/// The display width of each of `clusters`.
pub open spec fn widths_of(clusters: Seq<Seq<char>>) -> Seq<nat> {
    clusters.map_values(|g: Seq<char>| cluster_width(g))
}

/// The display width of a text: the sum of the widths of its grapheme clusters.
pub open spec fn text_width(text: Seq<char>) -> nat {
    total(widths_of(grapheme_clusters(text)))
}

/// Machine widths read as natural numbers.
pub open spec fn as_nats(widths: Seq<usize>) -> Seq<nat> {
    widths.map_values(|w: usize| w as nat)
}

/// A sum is the sum of any prefix and of what follows it.
pub proof fn lemma_total_split(widths: Seq<nat>, k: int)
    requires
        0 <= k <= widths.len(),
    ensures
        total(widths) == total(widths.take(k)) + total(widths.skip(k)),
    decreases widths.len(),
{
    if k == widths.len() {
        assert(widths.take(k) == widths);
        assert(widths.skip(k).len() == 0);
    } else {
        let init = widths.drop_last();
        lemma_total_split(init, k);
        assert(init.take(k) == widths.take(k));
        assert(widths.skip(k).drop_last() == init.skip(k));
    }
}

/// Taking one more width adds it to the sum.
pub proof fn lemma_total_step(widths: Seq<nat>, k: int)
    requires
        0 <= k < widths.len(),
    ensures
        total(widths.take(k + 1)) == total(widths.take(k)) + widths[k],
        total(widths.take(k)) <= total(widths.take(k + 1)) <= total(widths),
{
    assert(widths.take(k + 1).drop_last() == widths.take(k));
    lemma_total_split(widths, k + 1);
}

/// The sum of two sequences of widths joined is the sum of their sums.
pub proof fn lemma_total_concat(a: Seq<nat>, b: Seq<nat>)
    ensures
        total(a + b) == total(a) + total(b),
{
    lemma_total_split(a + b, a.len() as int);
    assert((a + b).take(a.len() as int) == a);
    assert((a + b).skip(a.len() as int) == b);
}

/// A sum does not depend on the end from which it is taken.
pub proof fn lemma_total_reverse(widths: Seq<nat>)
    ensures
        total(widths.reverse()) == total(widths),
    decreases widths.len(),
{
    if widths.len() > 0 {
        let init = widths.drop_last();
        let last = seq![widths.last()];
        lemma_total_reverse(init);
        assert(widths.reverse() == last + init.reverse());
        lemma_total_concat(last, init.reverse());
        assert(last.drop_last().len() == 0);
        assert(total(last) == widths.last()) by {
            assert(total(last.drop_last()) == 0);
        }
    } else {
        assert(widths.reverse().len() == 0);
    }
}

/// The widths of clusters sum up to the same whichever way the clusters are walked.
pub proof fn lemma_walk_total(clusters: Seq<Seq<char>>, direction: Direction)
    ensures
        total(widths_of(walk(clusters, direction))) == total(widths_of(clusters)),
{
    assert(widths_of(clusters.reverse()) == widths_of(clusters).reverse());
    lemma_total_reverse(widths_of(clusters));
}

/// Calls `UnicodeWidthStr::width` of the crate unicode-width on `g`.
///
/// Not proved: that the number handed back is the one named by [`unicode_width`]; and that
/// it is zero for the empty string, where the crate adds up nothing.
#[verifier::external_body]
fn table_width(g: &str) -> (w: usize)
    ensures
        w == unicode_width(g@),
        g@.len() == 0 ==> w == 0,
{
    UnicodeWidthStr::width(g)
}

/// Tells whether `g` holds a zero-width joiner.
fn has_joiner(g: &str) -> (found: bool)
    ensures
        found == g@.contains(joiner()),
{
    let mut found = false;
    for c in it: g.chars()
        invariant
            it.seq() == g@,
            found == g@.take(it.index()).contains(joiner()),
    {
        proof {
            let i = it.index();
            assert(c == g@[i]);
            assert(g@.take(i + 1) == g@.take(i).push(g@[i]));
            if g@.take(i).contains(joiner()) {
                let j = choose|j: int| 0 <= j < i && g@.take(i)[j] == joiner();
                assert(g@.take(i + 1)[j] == joiner());
            }
            if c == joiner() {
                assert(g@.take(i + 1)[i] == joiner());
            }
        }
        if c == '\u{200d}' {
            found = true;
        }
    }
    proof {
        assert(g@.take(g@.len() as int) == g@);
    }
    found
}

/// Returns the display width of the grapheme cluster `g`.
///
/// `g` is measured as one cluster, whatever it holds; the empty string has width 0.
pub fn grapheme_width(g: &str) -> (w: usize)
    ensures
        w == cluster_width(g@),
        g@.len() == 0 ==> w == 0,
{
    if has_joiner(g) {
        2
    } else {
        table_width(g)
    }
}

/// Measures each of `clusters`, in the order in which a walk away from the kept edge meets
/// them.
pub(crate) fn measure(clusters: &Vec<&str>, direction: Direction) -> (widths: Vec<usize>)
    ensures
        as_nats(widths@) == widths_of(walk(views(clusters@), direction)),
{
    let count = clusters.len();
    let mut widths: Vec<usize> = Vec::new();
    let mut i: usize = 0;
    while i < count
        invariant
            count == clusters.len(),
            0 <= i <= count,
            widths.len() == i,
            forall|j: int|
                0 <= j < i ==> widths@[j] == cluster_width(
                    #[trigger] from_edge(views(clusters@), j, direction),
                ),
        decreases count - i,
    {
        let cluster = match direction {
            Direction::Trailing => clusters[i],
            Direction::Leading => clusters[count - 1 - i],
        };
        widths.push(grapheme_width(cluster));
        i += 1;
    }
    proof {
        let walked = walk(views(clusters@), direction);
        assert forall|j: int| 0 <= j < count implies walked[j] == from_edge(
            views(clusters@),
            j,
            direction,
        ) by {}
        assert(as_nats(widths@) == widths_of(walked));
    }
    widths
}

/// Adds up `widths`, or gives `None` when the sum is more than a `usize` holds.
pub fn checked_total(widths: &Vec<usize>) -> (sum: Option<usize>)
    ensures
        sum == if total(as_nats(widths@)) <= usize::MAX {
            Some(total(as_nats(widths@)) as usize)
        } else {
            None
        },
{
    let ghost all = as_nats(widths@);
    let mut sum: usize = 0;
    let mut i: usize = 0;
    while i < widths.len()
        invariant
            0 <= i <= widths.len(),
            all == as_nats(widths@),
            sum == total(all.take(i as int)),
        decreases widths.len() - i,
    {
        proof {
            lemma_total_step(all, i as int);
        }
        match sum.checked_add(widths[i]) {
            Some(next) => {
                sum = next;
            },
            None => {
                return None;
            },
        }
        i += 1;
    }
    assert(all.take(i as int) == all);
    Some(sum)
}

/// Returns the display width of `s`, if a `usize` holds it: the sum of the widths of its
/// grapheme clusters.
pub fn checked_str_width(s: &str) -> (w: Option<usize>)
    ensures
        w == if text_width(s@) <= usize::MAX {
            Some(text_width(s@) as usize)
        } else {
            None
        },
{
    let clusters = split_clusters(s);
    let widths = measure(&clusters, Direction::Trailing);
    checked_total(&widths)
}

/// Returns the display width of `s`: the sum of the widths of its grapheme clusters.
pub fn str_width(s: &str) -> (w: usize)
    requires
        text_width(s@) <= usize::MAX,
    ensures
        w == text_width(s@),
{
    checked_str_width(s).unwrap()
}

} // verus!
