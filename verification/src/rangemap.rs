//! A map from disjoint address ranges to values. A range can be given back in
//! part: what is left of it stays in the map, in up to two pieces.

use std::collections::HashMap;
use vstd::prelude::*;

verus! {

broadcast use vstd::std_specs::hash::group_hash_axioms;

/// The addresses from `start` up to, not including, `start + length`, and the
/// value they map to.
#[derive(Clone, Copy, Debug, PartialEq, Eq)]
pub struct Span<V> {
    pub start: usize,
    pub length: usize,
    pub value: V,
}

impl<V> Span<V> {
    /// The first address past the span.
    pub open spec fn end(self) -> int {
        self.start + self.length
    }

    /// How many addresses the span shares with `[from, to)`.
    pub open spec fn overlap(self, from: int, to: int) -> int {
        let low = if self.start > from {
            self.start as int
        } else {
            from
        };
        let high = if self.end() < to {
            self.end()
        } else {
            to
        };
        if low < high {
            high - low
        } else {
            0
        }
    }

    /// What stays of the span once `[from, to)` is taken out: the span itself
    /// if they share nothing, else the part below `from` and the part from
    /// `to` on, as far as there are any.
    pub open spec fn without(self, from: int, to: int) -> Seq<Span<V>> {
        if self.overlap(from, to) == 0 {
            seq![self]
        } else {
            let below = if self.start < from {
                seq![
                    Span {
                        start: self.start,
                        length: (from - self.start) as usize,
                        value: self.value,
                    },
                ]
            } else {
                Seq::empty()
            };
            let above = if to < self.end() {
                seq![
                    Span { start: to as usize, length: (self.end() - to) as usize, value: self.value },
                ]
            } else {
                Seq::empty()
            };
            below + above
        }
    }

    /// What taking `[from, to)` out of the span reports: its value and the
    /// number of addresses taken, if any were.
    pub open spec fn taken(self, from: int, to: int) -> Seq<(V, usize)> {
        if self.overlap(from, to) == 0 {
            Seq::empty()
        } else {
            seq![(self.value, self.overlap(from, to) as usize)]
        }
    }
}

/// Every span is non-empty and ends within the address space, and each ends
/// before the next one starts.
pub open spec fn spans_valid<V>(s: Seq<Span<V>>) -> bool {
    &&& forall|i: int| 0 <= i < s.len() ==> (#[trigger] s[i]).length > 0 && s[i].end() <= usize::MAX
    &&& forall|i: int, j: int| 0 <= i < j < s.len() ==> (#[trigger] s[i]).end() <= (#[trigger] s[j]).start
}

/// No span shares an address with `[from, to)`.
pub open spec fn spans_clear_of<V>(s: Seq<Span<V>>, from: int, to: int) -> bool {
    forall|i: int| 0 <= i < s.len() ==> (#[trigger] s[i]).overlap(from, to) == 0
}

/// The number of addresses in all spans.
pub open spec fn total_length<V>(s: Seq<Span<V>>) -> nat
    decreases s.len(),
{
    if s.len() == 0 {
        0
    } else {
        total_length(s.drop_last()) + s.last().length as nat
    }
}

/// The number of addresses in the spans that map to `value`.
pub open spec fn length_of<V>(s: Seq<Span<V>>, value: V) -> nat
    decreases s.len(),
{
    if s.len() == 0 {
        0
    } else {
        length_of(s.drop_last(), value) + if s.last().value == value {
            s.last().length as nat
        } else {
            0
        }
    }
}

/// The number of spans that start below `start`.
pub open spec fn rank<V>(s: Seq<Span<V>>, start: int) -> int
    decreases s.len(),
{
    if s.len() == 0 {
        0
    } else {
        rank(s.drop_last(), start) + if s.last().start < start {
            1int
        } else {
            0
        }
    }
}

/// The spans with one more, put where the order by address wants it. An empty
/// span is not stored.
pub open spec fn spans_after_add<V>(s: Seq<Span<V>>, span: Span<V>) -> Seq<Span<V>> {
    if span.length == 0 {
        s
    } else {
        s.insert(rank(s, span.start as int), span)
    }
}

/// The spans once `[from, to)` is taken out of each.
pub open spec fn spans_after_remove<V>(s: Seq<Span<V>>, from: int, to: int) -> Seq<Span<V>>
    decreases s.len(),
{
    if s.len() == 0 {
        Seq::empty()
    } else {
        spans_after_remove(s.drop_last(), from, to) + s.last().without(from, to)
    }
}

/// For each span that shares addresses with `[from, to)`, in order of address:
/// its value and how many addresses it shares.
pub open spec fn removed_parts<V>(s: Seq<Span<V>>, from: int, to: int) -> Seq<(V, usize)>
    decreases s.len(),
{
    if s.len() == 0 {
        Seq::empty()
    } else {
        removed_parts(s.drop_last(), from, to) + s.last().taken(from, to)
    }
}

/// The number of addresses that `parts` reports for `value`.
pub open spec fn removed_of<V>(parts: Seq<(V, usize)>, value: V) -> nat
    decreases parts.len(),
{
    if parts.len() == 0 {
        0
    } else {
        removed_of(parts.drop_last(), value) + if parts.last().0 == value {
            parts.last().1 as nat
        } else {
            0
        }
    }
}

/// The number of addresses that `parts` reports in all.
pub open spec fn removed_total<V>(parts: Seq<(V, usize)>) -> nat
    decreases parts.len(),
{
    if parts.len() == 0 {
        0
    } else {
        removed_total(parts.drop_last()) + parts.last().1 as nat
    }
}

/// The spans as a map from each start address to the length and the value.
pub open spec fn spans_by_start<V>(s: Seq<Span<V>>) -> Map<usize, (usize, V)>
    decreases s.len(),
{
    if s.len() == 0 {
        Map::empty()
    } else {
        spans_by_start(s.drop_last()).insert(s.last().start, (s.last().length, s.last().value))
    }
}

/// The addresses of two runs of spans, one after the other, add up.
pub proof fn lemma_total_length_concat<V>(a: Seq<Span<V>>, b: Seq<Span<V>>)
    ensures
        total_length(a + b) == total_length(a) + total_length(b),
    decreases b.len(),
{
    if b.len() == 0 {
        assert(a + b =~= a);
    } else {
        lemma_total_length_concat(a, b.drop_last());
        assert((a + b).drop_last() =~= a + b.drop_last());
    }
}

/// So do their addresses for one value.
pub proof fn lemma_length_of_concat<V>(a: Seq<Span<V>>, b: Seq<Span<V>>, value: V)
    ensures
        length_of(a + b, value) == length_of(a, value) + length_of(b, value),
    decreases b.len(),
{
    if b.len() == 0 {
        assert(a + b =~= a);
    } else {
        lemma_length_of_concat(a, b.drop_last(), value);
        assert((a + b).drop_last() =~= a + b.drop_last());
    }
}

/// What two runs of parts report for one value adds up.
pub proof fn lemma_removed_of_concat<V>(a: Seq<(V, usize)>, b: Seq<(V, usize)>, value: V)
    ensures
        removed_of(a + b, value) == removed_of(a, value) + removed_of(b, value),
    decreases b.len(),
{
    if b.len() == 0 {
        assert(a + b =~= a);
    } else {
        lemma_removed_of_concat(a, b.drop_last(), value);
        assert((a + b).drop_last() =~= a + b.drop_last());
    }
}

/// So does what they report in all.
pub proof fn lemma_removed_total_concat<V>(a: Seq<(V, usize)>, b: Seq<(V, usize)>)
    ensures
        removed_total(a + b) == removed_total(a) + removed_total(b),
    decreases b.len(),
{
    if b.len() == 0 {
        assert(a + b =~= a);
    } else {
        lemma_removed_total_concat(a, b.drop_last());
        assert((a + b).drop_last() =~= a + b.drop_last());
    }
}

/// Valid spans lie one after the other between the first start and the last
/// end, so all their addresses together fit the address space.
pub proof fn lemma_total_length_fits<V>(s: Seq<Span<V>>)
    requires
        spans_valid(s),
    ensures
        total_length(s) <= usize::MAX,
        s.len() > 0 ==> s[0].start + total_length(s) <= s.last().end(),
    decreases s.len(),
{
    if s.len() > 1 {
        let front = s.drop_last();
        assert(spans_valid(front)) by {
            assert forall|i: int| 0 <= i < front.len() implies (#[trigger] front[i]).length > 0
                && front[i].end() <= usize::MAX by {
                assert(front[i] == s[i]);
            }
            assert forall|i: int, j: int| 0 <= i < j < front.len() implies (#[trigger] front[i]).end()
                <= (#[trigger] front[j]).start by {
                assert(front[i] == s[i] && front[j] == s[j]);
            }
        }
        lemma_total_length_fits(front);
        assert(front.last() == s[s.len() - 2]);
        assert(front[0] == s[0]);
        assert(s[s.len() - 2].end() <= s[s.len() - 1].start);
    } else if s.len() == 1 {
        assert(s.drop_last().len() == 0);
        assert(total_length(s.drop_last()) == 0);
    }
}

/// In valid spans those that start below an address come first.
pub proof fn lemma_rank_is_position<V>(s: Seq<Span<V>>, start: int, at: int)
    requires
        spans_valid(s),
        0 <= at <= s.len(),
        forall|i: int| 0 <= i < at ==> (#[trigger] s[i]).start < start,
        forall|i: int| at <= i < s.len() ==> (#[trigger] s[i]).start >= start,
    ensures
        rank(s, start) == at,
    decreases s.len(),
{
    if s.len() > 0 {
        let front = s.drop_last();
        assert forall|i: int| 0 <= i < front.len() implies (#[trigger] front[i]).length > 0
            && front[i].end() <= usize::MAX by {
            assert(front[i] == s[i]);
        }
        assert forall|i: int, j: int| 0 <= i < j < front.len() implies (#[trigger] front[i]).end()
            <= (#[trigger] front[j]).start by {
            assert(front[i] == s[i] && front[j] == s[j]);
        }
        if at == s.len() {
            assert(s.last() == s[s.len() - 1]);
            assert forall|i: int| 0 <= i < at - 1 implies (#[trigger] front[i]).start < start by {
                assert(front[i] == s[i]);
            }
            lemma_rank_is_position(front, start, at - 1);
        } else {
            assert(s.last() == s[s.len() - 1]);
            assert forall|i: int| 0 <= i < at implies (#[trigger] front[i]).start < start by {
                assert(front[i] == s[i]);
            }
            assert forall|i: int| at <= i < front.len() implies (#[trigger] front[i]).start
                >= start by {
                assert(front[i] == s[i]);
            }
            lemma_rank_is_position(front, start, at);
        }
    }
}

/// The rank of an address is a position in the sequence.
pub proof fn lemma_rank_bounds<V>(s: Seq<Span<V>>, start: int)
    ensures
        0 <= rank(s, start) <= s.len(),
    decreases s.len(),
{
    if s.len() > 0 {
        lemma_rank_bounds(s.drop_last(), start);
    }
}

/// In valid spans exactly the first `rank` of them start below the address.
pub proof fn lemma_rank_splits<V>(s: Seq<Span<V>>, start: int)
    requires
        spans_valid(s),
    ensures
        0 <= rank(s, start) <= s.len(),
        forall|i: int| 0 <= i < rank(s, start) ==> (#[trigger] s[i]).start < start,
        forall|i: int| rank(s, start) <= i < s.len() ==> (#[trigger] s[i]).start >= start,
    decreases s.len(),
{
    if s.len() > 0 {
        let front = s.drop_last();
        assert forall|i: int| 0 <= i < front.len() implies (#[trigger] front[i]).length > 0
            && front[i].end() <= usize::MAX by {
            assert(front[i] == s[i]);
        }
        assert forall|i: int, j: int| 0 <= i < j < front.len() implies (#[trigger] front[i]).end()
            <= (#[trigger] front[j]).start by {
            assert(front[i] == s[i] && front[j] == s[j]);
        }
        lemma_rank_splits(front, start);
        let r = rank(front, start);
        assert forall|i: int| 0 <= i < r implies (#[trigger] s[i]).start < start by {
            assert(front[i] == s[i]);
        }
        if s.last().start < start {
            // Every earlier span starts below the last one.
            assert forall|i: int| 0 <= i < front.len() implies (#[trigger] front[i]).start
                < start by {
                assert(front[i] == s[i]);
                assert(s[i].end() <= s[s.len() - 1].start);
            }
            if r < front.len() {
                assert(front[r].start >= start);
                assert(false);
            }
        } else {
            assert forall|i: int| r <= i < s.len() implies (#[trigger] s[i]).start >= start by {
                if i < front.len() {
                    assert(front[i] == s[i]);
                }
            }
        }
    }
}

/// Adding a span that shares no address with valid spans leaves them valid.
pub proof fn lemma_add_keeps_valid<V>(s: Seq<Span<V>>, span: Span<V>)
    requires
        spans_valid(s),
        span.end() <= usize::MAX,
        spans_clear_of(s, span.start as int, span.end()),
    ensures
        spans_valid(spans_after_add(s, span)),
{
    if span.length > 0 {
        lemma_rank_splits(s, span.start as int);
        let at = rank(s, span.start as int);
        let t = s.insert(at, span);
        assert forall|i: int| 0 <= i < t.len() implies (#[trigger] t[i]).length > 0 && t[i].end()
            <= usize::MAX by {
            if i < at {
                assert(t[i] == s[i]);
            } else if i > at {
                assert(t[i] == s[i - 1]);
            }
        }
        assert forall|i: int, j: int| 0 <= i < j < t.len() implies (#[trigger] t[i]).end() <= (
        #[trigger] t[j]).start by {
            if j < at {
                assert(t[i] == s[i] && t[j] == s[j]);
            } else if j == at {
                assert(t[i] == s[i]);
                assert(s[i].overlap(span.start as int, span.end()) == 0);
                assert(s[i].start < span.start);
            } else if i < at {
                assert(t[i] == s[i] && t[j] == s[j - 1]);
            } else if i == at {
                assert(t[j] == s[j - 1]);
                assert(s[j - 1].overlap(span.start as int, span.end()) == 0);
                assert(s[j - 1].start >= span.start);
            } else {
                assert(t[i] == s[i - 1] && t[j] == s[j - 1]);
            }
        }
    }
}

/// Adding a span adds its length for its value and nothing for another.
pub proof fn lemma_add_lengths<V>(s: Seq<Span<V>>, span: Span<V>, value: V)
    ensures
        length_of(spans_after_add(s, span), value) == length_of(s, value) + if span.value == value {
            span.length as nat
        } else {
            0
        },
        total_length(spans_after_add(s, span)) == total_length(s) + span.length,
{
    if span.length > 0 {
        lemma_rank_bounds(s, span.start as int);
        let at = rank(s, span.start as int);
        let one = seq![span];
        assert(s.insert(at, span) =~= s.take(at) + one + s.skip(at));
        assert(s =~= s.take(at) + s.skip(at));
        lemma_length_of_concat(s.take(at), s.skip(at), value);
        lemma_length_of_concat(s.take(at), one, value);
        lemma_length_of_concat(s.take(at) + one, s.skip(at), value);
        lemma_total_length_concat(s.take(at), s.skip(at));
        lemma_total_length_concat(s.take(at), one);
        lemma_total_length_concat(s.take(at) + one, s.skip(at));
        assert(one.drop_last() =~= Seq::<Span<V>>::empty());
        assert(length_of(one.drop_last(), value) == 0);
        assert(total_length(one.drop_last()) == 0);
        assert(one.last() == span);
    }
}

/// Taking a range out of valid spans leaves valid spans, none of which ends
/// later than the spans did.
pub proof fn lemma_remove_keeps_valid<V>(s: Seq<Span<V>>, from: int, to: int, bound: int)
    requires
        spans_valid(s),
        0 <= from <= to <= usize::MAX,
        forall|i: int| 0 <= i < s.len() ==> (#[trigger] s[i]).end() <= bound,
    ensures
        spans_valid(spans_after_remove(s, from, to)),
        forall|i: int|
            0 <= i < spans_after_remove(s, from, to).len() ==> (#[trigger] spans_after_remove(
                s,
                from,
                to,
            )[i]).end() <= bound,
        spans_clear_of(spans_after_remove(s, from, to), from, to),
    decreases s.len(),
{
    if s.len() > 0 {
        let front = s.drop_last();
        let last = s.last();
        assert(last == s[s.len() - 1]);
        assert forall|i: int| 0 <= i < front.len() implies (#[trigger] front[i]).length > 0
            && front[i].end() <= usize::MAX by {
            assert(front[i] == s[i]);
        }
        assert forall|i: int, j: int| 0 <= i < j < front.len() implies (#[trigger] front[i]).end()
            <= (#[trigger] front[j]).start by {
            assert(front[i] == s[i] && front[j] == s[j]);
        }
        assert forall|i: int| 0 <= i < front.len() implies (#[trigger] front[i]).end()
            <= last.start by {
            assert(front[i] == s[i]);
            assert(s[i].end() <= s[s.len() - 1].start);
        }
        lemma_remove_keeps_valid(front, from, to, last.start as int);
        let kept = spans_after_remove(front, from, to);
        let pieces = last.without(from, to);
        let all = kept + pieces;
        assert(all == spans_after_remove(s, from, to));
        assert forall|k: int| 0 <= k < pieces.len() implies (#[trigger] pieces[k]).length > 0
            && pieces[k].end() <= last.end() && pieces[k].start >= last.start && pieces[k].overlap(
            from,
            to,
        ) == 0 by {}
        assert forall|k: int, l: int| 0 <= k < l < pieces.len() implies (#[trigger] pieces[k]).end()
            <= (#[trigger] pieces[l]).start by {}
        assert forall|i: int| 0 <= i < all.len() implies (#[trigger] all[i]).length > 0
            && all[i].end() <= usize::MAX && all[i].end() <= bound && all[i].overlap(from, to)
            == 0 by {
            if i < kept.len() {
                assert(all[i] == kept[i]);
            } else {
                assert(all[i] == pieces[i - kept.len()]);
            }
        }
        assert forall|i: int, j: int| 0 <= i < j < all.len() implies (#[trigger] all[i]).end() <= (
        #[trigger] all[j]).start by {
            if j < kept.len() {
                assert(all[i] == kept[i] && all[j] == kept[j]);
            } else if i < kept.len() {
                assert(all[i] == kept[i] && all[j] == pieces[j - kept.len()]);
            } else {
                assert(all[i] == pieces[i - kept.len()] && all[j] == pieces[j - kept.len()]);
            }
        }
    }
}

/// What is taken out of the spans and what stays add up to what was there,
/// for each value and in all.
pub proof fn lemma_remove_lengths<V>(s: Seq<Span<V>>, from: int, to: int, value: V)
    requires
        spans_valid(s),
        0 <= from <= to <= usize::MAX,
    ensures
        length_of(spans_after_remove(s, from, to), value) + removed_of(
            removed_parts(s, from, to),
            value,
        ) == length_of(s, value),
        total_length(spans_after_remove(s, from, to)) + removed_total(removed_parts(s, from, to))
            == total_length(s),
    decreases s.len(),
{
    if s.len() > 0 {
        let front = s.drop_last();
        let last = s.last();
        assert(last == s[s.len() - 1]);
        assert forall|i: int| 0 <= i < front.len() implies (#[trigger] front[i]).length > 0
            && front[i].end() <= usize::MAX by {
            assert(front[i] == s[i]);
        }
        assert forall|i: int, j: int| 0 <= i < j < front.len() implies (#[trigger] front[i]).end()
            <= (#[trigger] front[j]).start by {
            assert(front[i] == s[i] && front[j] == s[j]);
        }
        lemma_remove_lengths(front, from, to, value);
        let pieces = last.without(from, to);
        let parts = last.taken(from, to);
        lemma_length_of_concat(spans_after_remove(front, from, to), pieces, value);
        lemma_total_length_concat(spans_after_remove(front, from, to), pieces);
        lemma_removed_of_concat(removed_parts(front, from, to), parts, value);
        lemma_removed_total_concat(removed_parts(front, from, to), parts);
        lemma_pieces_lengths(last, from, to, value);
    }
}

/// One span: what is taken out of it and what stays add up to its length.
pub proof fn lemma_pieces_lengths<V>(span: Span<V>, from: int, to: int, value: V)
    requires
        span.length > 0,
        span.end() <= usize::MAX,
        0 <= from <= to <= usize::MAX,
    ensures
        length_of(span.without(from, to), value) + removed_of(span.taken(from, to), value) == if span.value
            == value {
            span.length as nat
        } else {
            0
        },
        total_length(span.without(from, to)) + removed_total(span.taken(from, to)) == span.length,
{
    let pieces = span.without(from, to);
    let parts = span.taken(from, to);
    reveal_with_fuel(length_of, 3);
    reveal_with_fuel(total_length, 3);
    reveal_with_fuel(removed_of, 2);
    reveal_with_fuel(removed_total, 2);
    if pieces.len() == 2 {
        assert(pieces.drop_last().len() == 1);
        assert(pieces.drop_last().drop_last().len() == 0);
        assert(pieces.drop_last().last() == pieces[0]);
        assert(pieces.last() == pieces[1]);
    } else if pieces.len() == 1 {
        assert(pieces.drop_last().len() == 0);
        assert(pieces.last() == pieces[0]);
    }
    if parts.len() == 1 {
        assert(parts.drop_last().len() == 0);
        assert(parts.last() == parts[0]);
    }
}

/// Spans of which none maps to `value` hold no address for it.
pub proof fn lemma_length_of_absent<V>(s: Seq<Span<V>>, value: V)
    requires
        forall|i: int| 0 <= i < s.len() ==> (#[trigger] s[i]).value != value,
    ensures
        length_of(s, value) == 0,
    decreases s.len(),
{
    if s.len() > 0 {
        assert(s.last() == s[s.len() - 1]);
        assert forall|i: int| 0 <= i < s.drop_last().len() implies (#[trigger] s.drop_last()[i]).value
            != value by {
            assert(s.drop_last()[i] == s[i]);
        }
        lemma_length_of_absent(s.drop_last(), value);
    }
}

/// Taking a range out brings no new value: what holds of the value of every
/// span holds of the value of every span that stays and of every part that
/// is reported.
pub proof fn lemma_remove_keeps_values<V>(
    s: Seq<Span<V>>,
    from: int,
    to: int,
    holds: spec_fn(V) -> bool,
)
    requires
        forall|i: int| 0 <= i < s.len() ==> holds((#[trigger] s[i]).value),
    ensures
        forall|i: int|
            0 <= i < spans_after_remove(s, from, to).len() ==> holds(
                (#[trigger] spans_after_remove(s, from, to)[i]).value,
            ),
        forall|k: int|
            0 <= k < removed_parts(s, from, to).len() ==> holds(
                (#[trigger] removed_parts(s, from, to)[k]).0,
            ),
    decreases s.len(),
{
    if s.len() > 0 {
        let front = s.drop_last();
        let last = s.last();
        assert(last == s[s.len() - 1]);
        assert forall|i: int| 0 <= i < front.len() implies holds((#[trigger] front[i]).value) by {
            assert(front[i] == s[i]);
        }
        lemma_remove_keeps_values(front, from, to, holds);
        let kept = spans_after_remove(front, from, to);
        let pieces = last.without(from, to);
        let all = kept + pieces;
        assert forall|i: int| 0 <= i < all.len() implies holds((#[trigger] all[i]).value) by {
            if i < kept.len() {
                assert(all[i] == kept[i]);
            } else {
                assert(all[i] == pieces[i - kept.len()]);
            }
        }
        let parts = removed_parts(front, from, to);
        let taken = last.taken(from, to);
        let reported = parts + taken;
        assert forall|k: int| 0 <= k < reported.len() implies holds((#[trigger] reported[k]).0) by {
            if k < parts.len() {
                assert(reported[k] == parts[k]);
            } else {
                assert(reported[k] == taken[k - parts.len()]);
            }
        }
    }
}

/// Taking out a range that shares no address with any span changes nothing
/// and reports nothing.
pub proof fn lemma_remove_nothing<V>(s: Seq<Span<V>>, from: int, to: int)
    requires
        spans_clear_of(s, from, to),
    ensures
        spans_after_remove(s, from, to) == s,
        removed_parts(s, from, to) == Seq::<(V, usize)>::empty(),
    decreases s.len(),
{
    if s.len() > 0 {
        let front = s.drop_last();
        assert(s.last() == s[s.len() - 1]);
        assert forall|i: int| 0 <= i < front.len() implies (#[trigger] front[i]).overlap(from, to)
            == 0 by {
            assert(front[i] == s[i]);
        }
        lemma_remove_nothing(front, from, to);
        assert(front + seq![s.last()] =~= s);
        assert(Seq::<(V, usize)>::empty() + Seq::<(V, usize)>::empty() =~= Seq::<(V, usize)>::empty());
    } else {
        assert(s =~= Seq::<Span<V>>::empty());
    }
}

/// Adding a span brings its value and no other.
pub proof fn lemma_add_keeps_values<V>(s: Seq<Span<V>>, span: Span<V>, holds: spec_fn(V) -> bool)
    requires
        forall|i: int| 0 <= i < s.len() ==> holds((#[trigger] s[i]).value),
        holds(span.value),
    ensures
        forall|i: int|
            0 <= i < spans_after_add(s, span).len() ==> holds(
                (#[trigger] spans_after_add(s, span)[i]).value,
            ),
{
    if span.length > 0 {
        lemma_rank_bounds(s, span.start as int);
        let at = rank(s, span.start as int);
        let t = s.insert(at, span);
        assert forall|i: int| 0 <= i < t.len() implies holds((#[trigger] t[i]).value) by {
            if i < at {
                assert(t[i] == s[i]);
            } else if i > at {
                assert(t[i] == s[i - 1]);
            }
        }
    }
}

/// A map from disjoint ranges of addresses to values.
pub struct RangeMap<V> {
    /// In order of address.
    spans: Vec<Span<V>>,
    /// The sum of the spans' lengths.
    total: usize,
}

impl<V: Copy> View for RangeMap<V> {
    type V = Seq<Span<V>>;

    closed spec fn view(&self) -> Seq<Span<V>> {
        self.spans@
    }
}

impl<V: Copy> RangeMap<V> {
    /// The spans are valid and the running total is their length.
    pub closed spec fn wf(&self) -> bool {
        &&& spans_valid(self.spans@)
        &&& self.total == total_length(self.spans@)
    }

    pub fn new() -> (map: RangeMap<V>)
        ensures
            map.wf(),
            map@ == Seq::<Span<V>>::empty(),
    {
        RangeMap { spans: Vec::new(), total: 0 }
    }

    /// Whether some stored range shares an address with `[start, start + length)`.
    pub fn overlaps(&self, start: usize, length: usize) -> (found: bool)
        requires
            self.wf(),
            start + length <= usize::MAX,
        ensures
            found == !spans_clear_of(self@, start as int, start + length),
    {
        let end: usize = start + length;
        let mut i: usize = 0;
        while i < self.spans.len()
            invariant
                i <= self.spans.len(),
                end == start + length,
                spans_valid(self.spans@),
                spans_clear_of(self.spans@.take(i as int), start as int, end as int),
            decreases self.spans.len() - i,
        {
            let span = self.spans[i];
            let span_end: usize = span.start + span.length;
            let low: usize = if span.start > start {
                span.start
            } else {
                start
            };
            let high: usize = if span_end < end {
                span_end
            } else {
                end
            };
            if low < high {
                assert(self.spans@[i as int].overlap(start as int, end as int) != 0);
                return true;
            }
            proof {
                let next = self.spans@.take(i + 1);
                assert forall|k: int| 0 <= k < next.len() implies (#[trigger] next[k]).overlap(
                    start as int,
                    end as int,
                ) == 0 by {
                    if k < i {
                        assert(next[k] == self.spans@.take(i as int)[k]);
                    }
                }
            }
            i += 1;
        }
        assert(self.spans@.take(i as int) =~= self.spans@);
        false
    }

    /// Maps `[start, start + length)` to `value`. The range must share no
    /// address with a stored one. An empty range is not stored.
    pub fn add(&mut self, start: usize, length: usize, value: V)
        requires
            old(self).wf(),
            start + length <= usize::MAX,
            spans_clear_of(old(self)@, start as int, start + length),
        ensures
            final(self).wf(),
            final(self)@ == spans_after_add(old(self)@, Span { start, length, value }),
    {
        if length == 0 {
            return ;
        }
        let span = Span { start, length, value };
        let mut at: usize = 0;
        while at < self.spans.len() && self.spans[at].start < start
            invariant
                at <= self.spans.len(),
                self.spans@ == old(self).spans@,
                forall|i: int| 0 <= i < at ==> (#[trigger] self.spans@[i]).start < start,
            decreases self.spans.len() - at,
        {
            at += 1;
        }
        proof {
            let s = self.spans@;
            assert forall|i: int| at <= i < s.len() implies (#[trigger] s[i]).start >= start by {
                if i > at {
                    assert(s[at as int].end() <= s[i].start);
                }
            }
            lemma_rank_is_position(s, start as int, at as int);
            lemma_add_keeps_valid(s, span);
            lemma_add_lengths(s, span, value);
            lemma_total_length_fits(spans_after_add(s, span));
        }
        self.spans.insert(at, span);
        self.total = self.total + length;
    }

    /// Takes `[start, start + length)` out of every stored range. Returns, in
    /// order of address, the value of each range that lost addresses and how
    /// many it lost.
    pub fn remove(&mut self, start: usize, length: usize) -> (removed: Vec<(V, usize)>)
        requires
            old(self).wf(),
            start + length <= usize::MAX,
        ensures
            final(self).wf(),
            final(self)@ == spans_after_remove(old(self)@, start as int, start + length),
            removed@ == removed_parts(old(self)@, start as int, start + length),
    {
        let end: usize = start + length;
        let mut kept: Vec<Span<V>> = Vec::new();
        let mut removed: Vec<(V, usize)> = Vec::new();
        let mut lost: usize = 0;
        let mut i: usize = 0;
        proof {
            lemma_total_length_fits(self.spans@);
        }
        while i < self.spans.len()
            invariant
                i <= self.spans.len(),
                end == start + length,
                self.spans@ == old(self).spans@,
                self.total == old(self).total,
                old(self).wf(),
                kept@ == spans_after_remove(self.spans@.take(i as int), start as int, end as int),
                removed@ == removed_parts(self.spans@.take(i as int), start as int, end as int),
                lost == removed_total(removed@),
                lost <= total_length(self.spans@.take(i as int)),
                total_length(self.spans@.take(i as int)) <= total_length(self.spans@),
            decreases self.spans.len() - i,
        {
            let span = self.spans[i];
            let span_end: usize = span.start + span.length;
            let low: usize = if span.start > start {
                span.start
            } else {
                start
            };
            let high: usize = if span_end < end {
                span_end
            } else {
                end
            };
            proof {
                let before = self.spans@.take(i as int);
                let next = self.spans@.take(i + 1);
                assert(next.drop_last() =~= before);
                assert(next.last() == span);
                assert(self.spans@ =~= next + self.spans@.skip(i + 1));
                lemma_total_length_concat(next, self.spans@.skip(i + 1));
                lemma_removed_total_concat(removed@, span.taken(start as int, end as int));
                lemma_pieces_lengths(span, start as int, end as int, span.value);
                let parts = span.taken(start as int, end as int);
                if parts.len() == 1 {
                    assert(parts.drop_last().len() == 0);
                    assert(removed_total(parts.drop_last()) == 0);
                    assert(removed_total(parts) == parts.last().1);
                } else {
                    assert(removed_total(parts) == 0);
                }
            }
            if low < high {
                if span.start < start {
                    kept.push(Span { start: span.start, length: start - span.start, value: span.value });
                }
                if end < span_end {
                    kept.push(Span { start: end, length: span_end - end, value: span.value });
                }
                removed.push((span.value, high - low));
                lost = lost + (high - low);
                proof {
                    assert(kept@ =~= spans_after_remove(
                        self.spans@.take(i as int),
                        start as int,
                        end as int,
                    ) + span.without(start as int, end as int));
                    assert(removed@ =~= removed_parts(
                        self.spans@.take(i as int),
                        start as int,
                        end as int,
                    ) + span.taken(start as int, end as int));
                }
            } else {
                kept.push(span);
                proof {
                    assert(kept@ =~= spans_after_remove(
                        self.spans@.take(i as int),
                        start as int,
                        end as int,
                    ) + span.without(start as int, end as int));
                    assert(removed@ =~= removed_parts(
                        self.spans@.take(i as int),
                        start as int,
                        end as int,
                    ) + span.taken(start as int, end as int));
                }
            }
            i += 1;
        }
        proof {
            assert(self.spans@.take(i as int) =~= self.spans@);
            lemma_remove_keeps_valid(self.spans@, start as int, end as int, usize::MAX as int);
            if self.spans@.len() > 0 {
                lemma_remove_lengths(self.spans@, start as int, end as int, self.spans@[0].value);
            }
        }
        self.spans = kept;
        self.total = self.total - lost;
        removed
    }

    /// The number of addresses in all stored ranges.
    pub fn size(&self) -> (total: usize)
        requires
            self.wf(),
        ensures
            total == total_length(self@),
    {
        self.total
    }

    /// The number of stored ranges.
    pub fn len(&self) -> (count: usize)
        ensures
            count == self@.len(),
    {
        self.spans.len()
    }

    /// The stored range at a position in order of address.
    pub fn get(&self, index: usize) -> (span: Span<V>)
        requires
            index < self@.len(),
        ensures
            span == self@[index as int],
    {
        self.spans[index]
    }

    /// The stored ranges as a map from each start address to the length and
    /// the value.
    pub fn as_hashmap(&self) -> (by_start: HashMap<usize, (usize, V)>)
        ensures
            by_start@ == spans_by_start(self@),
    {
        let mut by_start: HashMap<usize, (usize, V)> = HashMap::new();
        let mut i: usize = 0;
        while i < self.spans.len()
            invariant
                i <= self.spans.len(),
                by_start@ == spans_by_start(self.spans@.take(i as int)),
            decreases self.spans.len() - i,
        {
            let span = self.spans[i];
            proof {
                let next = self.spans@.take(i + 1);
                assert(next.drop_last() =~= self.spans@.take(i as int));
                assert(next.last() == span);
            }
            by_start.insert(span.start, (span.length, span.value));
            i += 1;
        }
        assert(self.spans@.take(i as int) =~= self.spans@);
        by_start
    }
}

} // verus!
