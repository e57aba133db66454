//! The order in which the messages of a store are shown.
use crate::store::{store_wf, TrackedMessage, TrackedView};
use crate::text::{lemma_lex_asymmetric, lemma_lex_total, lemma_lex_transitive, lex_lt, str_less};
use vstd::prelude::*;
use vstd::set_lib::{lemma_int_range, lemma_len_subset, lemma_subset_equality, set_int_range};

verus! {

/// Whether `a` is shown above `b`. Messages that are not ignored come
/// before ignored ones; among those, pinned ones before the others;
/// among those, the one seen last comes first; and where the times are
/// equal, the smaller identifier.
pub open spec fn precedes(a: TrackedView, b: TrackedView) -> bool {
    if a.ignored != b.ignored {
        b.ignored
    } else if a.pinned != b.pinned {
        a.pinned
    } else if a.values.last().ts != b.values.last().ts {
        a.values.last().ts > b.values.last().ts
    } else {
        lex_lt(a.id, b.id)
    }
}

/// Whether `order` lists places among the first `k` of `s`, each message
/// above those that follow it in the list.
pub open spec fn in_order(s: Seq<TrackedView>, order: Seq<usize>, k: int) -> bool {
    &&& forall|i: int| 0 <= i < order.len() ==> (#[trigger] order[i]) < k
    &&& forall|i: int, j: int|
        0 <= i < j < order.len() ==> precedes(
            s[(#[trigger] order[i]) as int],
            s[(#[trigger] order[j]) as int],
        )
}

/// Whether `order` lists the places of the messages of `s` from the top
/// of the display to its bottom: each place once, each message above
/// those that it precedes.
pub open spec fn is_display_order(s: Seq<TrackedView>, order: Seq<usize>) -> bool {
    order.len() == s.len() && in_order(s, order, s.len() as int)
}

/// Of two messages with different identifiers, one is shown above the other.
pub proof fn lemma_precedes_total(a: TrackedView, b: TrackedView)
    requires
        a.id != b.id,
    ensures
        precedes(a, b) || precedes(b, a),
{
    lemma_lex_total(a.id, b.id);
}

/// No two messages are each shown above the other, and none above itself.
pub proof fn lemma_precedes_asymmetric(a: TrackedView, b: TrackedView)
    requires
        precedes(a, b),
    ensures
        !precedes(b, a),
{
    if a.ignored == b.ignored && a.pinned == b.pinned && a.values.last().ts == b.values.last().ts {
        lemma_lex_asymmetric(a.id, b.id);
    }
}

/// What is above a message is above all that the message is above.
pub proof fn lemma_precedes_transitive(a: TrackedView, b: TrackedView, c: TrackedView)
    requires
        precedes(a, b),
        precedes(b, c),
    ensures
        precedes(a, c),
{
    if a.ignored == b.ignored && b.ignored == c.ignored && a.pinned == b.pinned && b.pinned
        == c.pinned && a.values.last().ts == b.values.last().ts && b.values.last().ts
        == c.values.last().ts {
        lemma_lex_transitive(a.id, b.id, c.id);
    }
}

/// A display order lists every place of the store.
pub proof fn lemma_order_covers(s: Seq<TrackedView>, order: Seq<usize>, x: int)
    requires
        is_display_order(s, order),
        0 <= x < s.len(),
    ensures
        exists|p: int| 0 <= p < order.len() && #[trigger] order[p] == x,
{
    let n = s.len() as int;
    let ints = Seq::new(order.len(), |k: int| order[k] as int);
    assert forall|i: int, j: int|
        0 <= i < ints.len() && 0 <= j < ints.len() && i != j implies ints[i] != ints[j] by {
        if i < j {
            assert(precedes(s[order[i] as int], s[order[j] as int]));
            lemma_precedes_asymmetric(s[order[i] as int], s[order[j] as int]);
        } else {
            assert(precedes(s[order[j] as int], s[order[i] as int]));
            lemma_precedes_asymmetric(s[order[j] as int], s[order[i] as int]);
        }
    }
    ints.unique_seq_to_set();
    lemma_int_range(0, n);
    assert forall|v: int| ints.to_set().contains(v) implies set_int_range(0, n).contains(v) by {
        let k = choose|k: int| 0 <= k < ints.len() && ints[k] == v;
        assert(order[k] < s.len());
    }
    lemma_len_subset(ints.to_set(), set_int_range(0, n));
    lemma_subset_equality(ints.to_set(), set_int_range(0, n));
    assert(set_int_range(0, n).contains(x));
    assert(ints.to_set().contains(x));
    let p = choose|p: int| 0 <= p < ints.len() && ints[p] == x;
    assert(order[p] == x);
}

/// Two display orders of one store agree on their first `k` places.
proof fn lemma_orders_agree(s: Seq<TrackedView>, a: Seq<usize>, b: Seq<usize>, k: int)
    requires
        is_display_order(s, a),
        is_display_order(s, b),
        0 <= k <= s.len(),
    ensures
        forall|j: int| 0 <= j < k ==> a[j] == b[j],
    decreases k,
{
    if k > 0 {
        lemma_orders_agree(s, a, b, k - 1);
        let m = k - 1;
        let x = a[m];
        let y = b[m];
        if x != y {
            lemma_order_covers(s, b, x as int);
            lemma_order_covers(s, a, y as int);
            let p = choose|p: int| 0 <= p < b.len() && #[trigger] b[p] == x;
            let q = choose|q: int| 0 <= q < a.len() && #[trigger] a[q] == y;
            if p < m {
                assert(a[p] == b[p]);
                assert(precedes(s[a[p] as int], s[a[m] as int]));
                lemma_precedes_asymmetric(s[x as int], s[x as int]);
            } else if q < m {
                assert(a[q] == b[q]);
                assert(precedes(s[b[q] as int], s[b[m] as int]));
                lemma_precedes_asymmetric(s[y as int], s[y as int]);
            } else {
                assert(precedes(s[b[m] as int], s[b[p] as int]));
                assert(precedes(s[a[m] as int], s[a[q] as int]));
                lemma_precedes_asymmetric(s[x as int], s[y as int]);
            }
        }
    }
}

/// A store has one display order only.
pub proof fn lemma_display_order_unique(s: Seq<TrackedView>, a: Seq<usize>, b: Seq<usize>)
    requires
        is_display_order(s, a),
        is_display_order(s, b),
    ensures
        a == b,
{
    lemma_orders_agree(s, a, b, s.len() as int);
    assert(a =~= b);
}

/// The display order of a store.
pub open spec fn display_order(s: Seq<TrackedView>) -> Seq<usize> {
    choose|order: Seq<usize>| is_display_order(s, order)
}

/// The first place of `order`, from `p` on, whose message the message at
/// `x` is shown above; the length of `order` where there is none.
pub open spec fn place_for(s: Seq<TrackedView>, order: Seq<usize>, x: int, p: int) -> int
    decreases order.len() - p,
{
    if p < 0 || p >= order.len() || precedes(s[x], s[order[p] as int]) {
        p
    } else {
        place_for(s, order, x, p + 1)
    }
}

/// What `place_for` finds: the messages before that place are not below
/// the message at `x`, and the message at that place is.
proof fn lemma_place_for(s: Seq<TrackedView>, order: Seq<usize>, x: int, p: int)
    requires
        0 <= p <= order.len(),
    ensures
        p <= place_for(s, order, x, p) <= order.len(),
        forall|q: int|
            p <= q < place_for(s, order, x, p) ==> !precedes(s[x], s[(#[trigger] order[q]) as int]),
        place_for(s, order, x, p) < order.len() ==> precedes(
            s[x],
            s[order[place_for(s, order, x, p)] as int],
        ),
    decreases order.len() - p,
{
    if p < order.len() && !precedes(s[x], s[order[p] as int]) {
        lemma_place_for(s, order, x, p + 1);
    }
}

/// A place that is not yet listed, put into a list in order before the
/// first message that its own is shown above, leaves the list in order.
pub proof fn lemma_insert_in_order(s: Seq<TrackedView>, before: Seq<usize>, x: usize, p: int)
    requires
        store_wf(s),
        x < s.len(),
        in_order(s, before, x as int),
        0 <= p <= before.len(),
        forall|q: int| 0 <= q < p ==> !precedes(s[x as int], s[(#[trigger] before[q]) as int]),
        p < before.len() ==> precedes(s[x as int], s[before[p] as int]),
    ensures
        in_order(s, before.insert(p, x), x + 1),
{
    let order = before.insert(p, x);
    assert forall|i: int, j: int| 0 <= i < j < order.len() implies precedes(
        s[(#[trigger] order[i]) as int],
        s[(#[trigger] order[j]) as int],
    ) by {
        if j == p {
            assert(order[i] == before[i]);
            lemma_precedes_total(s[x as int], s[before[i] as int]);
        } else if i == p {
            assert(order[j] == before[j - 1]);
            if j - 1 > p {
                assert(precedes(s[before[p] as int], s[before[j - 1] as int]));
                lemma_precedes_transitive(
                    s[x as int],
                    s[before[p] as int],
                    s[before[j - 1] as int],
                );
            }
        } else {
            let i0 = if i < p {
                i
            } else {
                i - 1
            };
            let j0 = if j < p {
                j
            } else {
                j - 1
            };
            assert(order[i] == before[i0]);
            assert(order[j] == before[j0]);
            assert(precedes(s[before[i0] as int], s[before[j0] as int]));
        }
    }
    assert forall|i: int| 0 <= i < order.len() implies (#[trigger] order[i]) < x + 1 by {
        if i < p {
            assert(order[i] == before[i]);
        } else if i > p {
            assert(order[i] == before[i - 1]);
        }
    }
}

/// The first `k` messages of a well-formed store can be put in display
/// order among themselves.
proof fn lemma_order_of_first(s: Seq<TrackedView>, k: int) -> (order: Seq<usize>)
    requires
        store_wf(s),
        0 <= k <= s.len(),
        k <= usize::MAX,
    ensures
        order.len() == k,
        in_order(s, order, k),
    decreases k,
{
    if k == 0 {
        Seq::empty()
    } else {
        let before = lemma_order_of_first(s, k - 1);
        let x = (k - 1) as usize;
        let p = place_for(s, before, x as int, 0);
        lemma_place_for(s, before, x as int, 0);
        lemma_insert_in_order(s, before, x, p);
        before.insert(p, x)
    }
}

/// Every well-formed store has a display order, and `display_order` is it.
pub proof fn lemma_display_order_exists(s: Seq<TrackedView>)
    requires
        store_wf(s),
        s.len() <= usize::MAX,
    ensures
        is_display_order(s, display_order(s)),
{
    let order = lemma_order_of_first(s, s.len() as int);
    assert(is_display_order(s, order));
}

/// An ignored message is never shown above one that is not ignored,
/// whatever their pins and times.
pub proof fn lemma_ignored_never_above(s: Seq<TrackedView>, order: Seq<usize>, i: int, j: int)
    requires
        is_display_order(s, order),
        0 <= i < order.len(),
        0 <= j < order.len(),
        s[order[i] as int].ignored,
        !s[order[j] as int].ignored,
    ensures
        j < i,
{
    if i < j {
        assert(precedes(s[order[i] as int], s[order[j] as int]));
    }
}

/// Among messages that are not ignored, a pinned one is always shown
/// above one that is not pinned.
pub proof fn lemma_pinned_above_unpinned(s: Seq<TrackedView>, order: Seq<usize>, i: int, j: int)
    requires
        is_display_order(s, order),
        0 <= i < order.len(),
        0 <= j < order.len(),
        !s[order[i] as int].ignored,
        !s[order[j] as int].ignored,
        s[order[i] as int].pinned,
        !s[order[j] as int].pinned,
    ensures
        i < j,
{
    if j < i {
        assert(precedes(s[order[j] as int], s[order[i] as int]));
    }
}

impl TrackedMessage {
    /// Whether this message is shown above `other`.
    pub fn comes_before(&self, other: &TrackedMessage) -> (r: bool)
        requires
            self.wf(),
            other.wf(),
        ensures
            r == precedes(self@, other@),
    {
        if self.ignored != other.ignored {
            other.ignored
        } else if self.pinned != other.pinned {
            self.pinned
        } else {
            let a: i64 = self.last_seen();
            let b: i64 = other.last_seen();
            if a != b {
                a > b
            } else {
                str_less(self.id.as_str(), other.id.as_str())
            }
        }
    }
}

} // verus!
