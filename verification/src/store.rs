//! The messages seen so far, one per identifier, each with its history
//! and its two flags.
use crate::canbus::{parsed, Message, MessageView};
use crate::order::{
    display_order, in_order, is_display_order, lemma_display_order_unique, lemma_insert_in_order,
    precedes,
};
use crate::diff::{cell_of, Cell, CellView, Value, ValueView};
use vstd::prelude::*;

verus! {

/// All that was seen for one identifier: its payloads from the oldest to
/// the newest, and the flags that the operator sets on it.
#[derive(Clone, Debug, PartialEq, Eq)]
pub struct TrackedMessage {
    pub id: String,
    pub values: Vec<Value>,
    pub ignored: bool,
    pub pinned: bool,
}

/// The mathematical value of a [`TrackedMessage`].
pub struct TrackedView {
    pub id: Seq<char>,
    pub values: Seq<ValueView>,
    pub ignored: bool,
    pub pinned: bool,
}

/// One line of the display: the identifier, then the newest payloads,
/// newest first; `struck` for an ignored message.
#[derive(Clone, Debug, PartialEq, Eq)]
pub struct Row {
    pub id: String,
    pub cells: Vec<Cell>,
    pub struck: bool,
}

/// The mathematical value of a [`Row`].
pub struct RowView {
    pub id: Seq<char>,
    pub cells: Seq<CellView>,
    pub struck: bool,
}

/// The values of a history.
pub open spec fn values_view(values: Seq<Value>) -> Seq<ValueView> {
    Seq::new(values.len(), |i: int| values[i]@)
}

/// The values of the cells of a row.
pub open spec fn cells_view(cells: Seq<Cell>) -> Seq<CellView> {
    Seq::new(cells.len(), |i: int| cells[i]@)
}

impl View for TrackedMessage {
    type V = TrackedView;

    open spec fn view(&self) -> TrackedView {
        TrackedView {
            id: self.id@,
            values: values_view(self.values@),
            ignored: self.ignored,
            pinned: self.pinned,
        }
    }
}

impl View for Row {
    type V = RowView;

    open spec fn view(&self) -> RowView {
        RowView { id: self.id@, cells: cells_view(self.cells@), struck: self.struck }
    }
}

/// What a record adds to a history.
pub open spec fn value_of(m: MessageView) -> ValueView {
    ValueView { data: m.data, ts: m.ts }
}

/// The message that a first record for an identifier gives.
pub open spec fn first_of(m: MessageView) -> TrackedView {
    TrackedView { id: m.id, values: seq![value_of(m)], ignored: false, pinned: false }
}

/// A message with one more record at the end of its history.
pub open spec fn extended(t: TrackedView, m: MessageView) -> TrackedView {
    TrackedView { values: t.values.push(value_of(m)), ..t }
}

/// The cells of a history when `cols` columns are shown at time `now`:
/// the newest payloads, newest first, each set against the payload that
/// came before it.
pub open spec fn row_cells(values: Seq<ValueView>, cols: nat, now: i64) -> Seq<CellView> {
    let n = values.len() as int;
    Seq::new(
        if cols < values.len() {
            cols
        } else {
            values.len()
        },
        |k: int|
            cell_of(
                values[n - 1 - k],
                if n - 2 - k >= 0 {
                    Some(values[n - 2 - k])
                } else {
                    None
                },
                now,
            ),
    )
}

/// Where the whole history is shown, the last cell is that of the first
/// payload ever seen, set against nothing.
pub proof fn lemma_oldest_cell(values: Seq<ValueView>, cols: nat, now: i64)
    requires
        values.len() > 0,
        cols >= values.len(),
    ensures
        row_cells(values, cols, now).len() == values.len(),
        row_cells(values, cols, now).last() == cell_of(values[0], None, now),
{
}

/// The row of a message when `cols` columns are shown at time `now`.
pub open spec fn row_of(t: TrackedView, cols: nat, now: i64) -> RowView {
    RowView { id: t.id, cells: row_cells(t.values, cols, now), struck: t.ignored }
}

impl TrackedMessage {
    /// A message holds at least the record that created it.
    pub open spec fn wf(&self) -> bool {
        self.values@.len() > 0
    }

    /// The message that the first record for an identifier creates: that
    /// record alone, neither ignored nor pinned.
    pub fn from(other: Message) -> (t: TrackedMessage)
        ensures
            t.wf(),
            t@ == first_of(other@),
    {
        let id = other.id.clone();
        let mut values: Vec<Value> = Vec::new();
        values.push(Value::from(other));
        let t = TrackedMessage { id, values, ignored: false, pinned: false };
        assert(t@.values =~= seq![value_of(other@)]);
        t
    }

    /// Appends a record to the history. The identifier of the record is
    /// not looked at: the store sees to it that it is this message's.
    pub fn merge(&mut self, other: Message)
        ensures
            final(self).wf(),
            final(self)@ == extended(old(self)@, other@),
    {
        self.values.push(Value::from(other));
        assert(self@.values =~= old(self)@.values.push(value_of(other@)));
    }

    /// The time of the newest record.
    pub fn last_seen(&self) -> (ts: i64)
        requires
            self.wf(),
        ensures
            ts == self@.values.last().ts,
    {
        self.values[self.values.len() - 1].ts
    }

    /// The row of this message when `cols` columns are shown at time `now`.
    pub fn as_row(&self, cols: usize, now: i64) -> (row: Row)
        ensures
            row@ == row_of(self@, cols as nat, now),
    {
        let n: usize = self.values.len();
        let shown: usize = if cols < n {
            cols
        } else {
            n
        };
        let mut cells: Vec<Cell> = Vec::new();
        let mut k: usize = 0;
        while k < shown
            invariant
                n == self.values@.len(),
                shown <= n,
                shown == row_cells(self@.values, cols as nat, now).len(),
                k <= shown,
                cells@.len() == k,
                forall|j: int|
                    0 <= j < k ==> (#[trigger] cells@[j])@ == row_cells(
                        self@.values,
                        cols as nat,
                        now,
                    )[j],
            decreases shown - k,
        {
            let at: usize = n - 1 - k;
            let cell = if at >= 1 {
                self.values[at].diff(Some(&self.values[at - 1]), now)
            } else {
                self.values[at].diff(None, now)
            };
            cells.push(cell);
            k += 1;
        }
        let row = Row { id: self.id.clone(), cells, struck: self.ignored };
        assert(row@.cells =~= row_cells(self@.values, cols as nat, now));
        row
    }
}

/// The values of the messages of a store.
pub open spec fn tracked_views(msgs: Seq<TrackedMessage>) -> Seq<TrackedView> {
    Seq::new(msgs.len(), |i: int| msgs[i]@)
}

/// The values of the records of a queue.
pub open spec fn message_views(queue: Seq<Message>) -> Seq<MessageView> {
    Seq::new(queue.len(), |i: int| queue[i]@)
}

/// What holds of every store: no message has an empty history, and no
/// two messages have the same identifier.
pub open spec fn store_wf(s: Seq<TrackedView>) -> bool {
    &&& forall|i: int| 0 <= i < s.len() ==> (#[trigger] s[i]).values.len() > 0
    &&& forall|i: int, j: int|
        0 <= i < s.len() && 0 <= j < s.len() && i != j ==> (#[trigger] s[i]).id != (
        #[trigger] s[j]).id
}

/// Whether the store holds a message for `id`.
pub open spec fn has_id(s: Seq<TrackedView>, id: Seq<char>) -> bool {
    exists|i: int| 0 <= i < s.len() && (#[trigger] s[i]).id == id
}

/// Where the store holds the message for `id`, if it holds one.
pub open spec fn index_of(s: Seq<TrackedView>, id: Seq<char>) -> int {
    choose|i: int| 0 <= i < s.len() && (#[trigger] s[i]).id == id
}

/// The store after one record: the record joins the history of the
/// message with its identifier, or creates that message at the end.
pub open spec fn merged(s: Seq<TrackedView>, m: MessageView) -> Seq<TrackedView> {
    if has_id(s, m.id) {
        let i = index_of(s, m.id);
        s.update(i, extended(s[i], m))
    } else {
        s.push(first_of(m))
    }
}

/// The store after the records of `ms`, taken from the first to the last.
pub open spec fn merged_all(s: Seq<TrackedView>, ms: Seq<MessageView>) -> Seq<TrackedView>
    decreases ms.len(),
{
    if ms.len() == 0 {
        s
    } else {
        merged_all(merged(s, ms[0]), ms.drop_first())
    }
}

/// The history that the store holds for `id`: empty where it holds none.
pub open spec fn history_of(s: Seq<TrackedView>, id: Seq<char>) -> Seq<ValueView> {
    if has_id(s, id) {
        s[index_of(s, id)].values
    } else {
        Seq::empty()
    }
}

/// The store with the `ignored` flag of the message at `i` turned over.
pub open spec fn with_ignored_flipped(s: Seq<TrackedView>, i: int) -> Seq<TrackedView> {
    s.update(i, TrackedView { ignored: !s[i].ignored, ..s[i] })
}

/// The store with the `pinned` flag of the message at `i` turned over.
pub open spec fn with_pinned_flipped(s: Seq<TrackedView>, i: int) -> Seq<TrackedView> {
    s.update(i, TrackedView { pinned: !s[i].pinned, ..s[i] })
}

/// In a store that is well formed, the message for an identifier is
/// found at one place only.
pub proof fn lemma_index_of(s: Seq<TrackedView>, i: int)
    requires
        store_wf(s),
        0 <= i < s.len(),
    ensures
        has_id(s, s[i].id),
        index_of(s, s[i].id) == i,
{
    let j = index_of(s, s[i].id);
    assert(0 <= j < s.len() && s[j].id == s[i].id);
}

/// One record leaves a well-formed store well formed.
pub proof fn lemma_merged_wf(s: Seq<TrackedView>, m: MessageView)
    requires
        store_wf(s),
    ensures
        store_wf(merged(s, m)),
{
    let out = merged(s, m);
    if has_id(s, m.id) {
        let i = index_of(s, m.id);
        assert forall|a: int, b: int| 0 <= a < out.len() && 0 <= b < out.len() && a != b implies (
        #[trigger] out[a]).id != (#[trigger] out[b]).id by {
            assert(out[a].id == s[a].id);
            assert(out[b].id == s[b].id);
        }
    } else {
        assert forall|a: int, b: int| 0 <= a < out.len() && 0 <= b < out.len() && a != b implies (
        #[trigger] out[a]).id != (#[trigger] out[b]).id by {
            if a < s.len() {
                assert(out[a] == s[a]);
            }
            if b < s.len() {
                assert(out[b] == s[b]);
            }
        }
    }
}

/// A record removes nothing: every message keeps its place, its
/// identifier and its flags, and its history as it was only grows at
/// the end.
pub proof fn lemma_merged_keeps(s: Seq<TrackedView>, m: MessageView, i: int)
    requires
        0 <= i < s.len(),
    ensures
        merged(s, m).len() >= s.len(),
        merged(s, m)[i].id == s[i].id,
        merged(s, m)[i].ignored == s[i].ignored,
        merged(s, m)[i].pinned == s[i].pinned,
        merged(s, m)[i].values.len() >= s[i].values.len(),
        merged(s, m)[i].values.take(s[i].values.len() as int) == s[i].values,
{
    let out = merged(s, m);
    if has_id(s, m.id) && index_of(s, m.id) == i {
        assert(out[i].values.take(s[i].values.len() as int) =~= s[i].values);
    } else {
        assert(out[i] == s[i]);
        assert(out[i].values.take(s[i].values.len() as int) =~= s[i].values);
    }
}

/// After a record the store holds a message for the identifiers that it
/// held one for and for that of the record, and for no other.
pub proof fn lemma_merged_ids(s: Seq<TrackedView>, m: MessageView, id: Seq<char>)
    ensures
        has_id(merged(s, m), id) <==> has_id(s, id) || id == m.id,
{
    let out = merged(s, m);
    if has_id(s, id) {
        let i = index_of(s, id);
        lemma_merged_keeps(s, m, i);
        assert(out[i].id == id);
    }
    if id == m.id && !has_id(s, id) {
        assert(out[s.len() as int].id == id);
    }
    if has_id(out, id) {
        let j = index_of(out, id);
        if j < s.len() {
            lemma_merged_keeps(s, m, j);
            assert(s[j].id == id);
        }
    }
}

/// Any run of records leaves a well-formed store well formed.
pub proof fn lemma_merged_all_wf(s: Seq<TrackedView>, ms: Seq<MessageView>)
    requires
        store_wf(s),
    ensures
        store_wf(merged_all(s, ms)),
    decreases ms.len(),
{
    if ms.len() > 0 {
        lemma_merged_wf(s, ms[0]);
        lemma_merged_all_wf(merged(s, ms[0]), ms.drop_first());
    }
}

/// One record for `id` puts its value at the end of the history of `id`.
pub proof fn lemma_merged_history(s: Seq<TrackedView>, m: MessageView)
    requires
        store_wf(s),
    ensures
        history_of(merged(s, m), m.id) == history_of(s, m.id).push(value_of(m)),
{
    let out = merged(s, m);
    lemma_merged_wf(s, m);
    if has_id(s, m.id) {
        let i = index_of(s, m.id);
        assert(out[i].id == m.id);
        lemma_index_of(out, i);
    } else {
        let i = s.len() as int;
        assert(out[i].id == m.id);
        lemma_index_of(out, i);
        assert(history_of(s, m.id).push(value_of(m)) =~= seq![value_of(m)]);
    }
}

/// Records that all bear one identifier are found in its history, after
/// what was there, as many as came and in the order in which they came.
pub proof fn lemma_history_in_arrival_order(
    s: Seq<TrackedView>,
    ms: Seq<MessageView>,
    id: Seq<char>,
)
    requires
        store_wf(s),
        forall|k: int| 0 <= k < ms.len() ==> (#[trigger] ms[k]).id == id,
    ensures
        history_of(merged_all(s, ms), id) == history_of(s, id) + Seq::new(
            ms.len(),
            |k: int| value_of(ms[k]),
        ),
    decreases ms.len(),
{
    let added = Seq::new(ms.len(), |k: int| value_of(ms[k]));
    if ms.len() == 0 {
        assert(history_of(s, id) + added =~= history_of(s, id));
    } else {
        let rest = ms.drop_first();
        assert(ms[0].id == id);
        lemma_merged_wf(s, ms[0]);
        lemma_merged_history(s, ms[0]);
        assert forall|k: int| 0 <= k < rest.len() implies (#[trigger] rest[k]).id == id by {
            assert(rest[k] == ms[k + 1]);
        }
        lemma_history_in_arrival_order(merged(s, ms[0]), rest, id);
        let added_rest = Seq::new(rest.len(), |k: int| value_of(rest[k]));
        assert(history_of(s, id).push(value_of(ms[0])) + added_rest =~= history_of(s, id)
            + added);
    }
}

/// Lines that all hold a record for one identifier, read into an empty
/// store, give one message: its history has one entry for each line, in
/// the order of the lines, with the payload of the line and the time at
/// which it was read.
pub proof fn lemma_lines_for_one_id(lines: Seq<Seq<char>>, stamps: Seq<i64>, id: Seq<char>)
    requires
        lines.len() == stamps.len(),
        lines.len() > 0,
        forall|k: int|
            0 <= k < lines.len() ==> parsed(#[trigger] lines[k], stamps[k]) is Some && parsed(
                lines[k],
                stamps[k],
            )->0.id == id,
    ensures
        ({
            let records = Seq::new(lines.len(), |k: int| parsed(lines[k], stamps[k])->0);
            let out = merged_all(Seq::empty(), records);
            &&& store_wf(out)
            &&& out.len() == 1
            &&& out[0].id == id
            &&& out[0].values.len() == lines.len()
            &&& forall|k: int|
                0 <= k < lines.len() ==> out[0].values[k] == (ValueView {
                    data: parsed(lines[k], stamps[k])->0.data,
                    ts: stamps[k],
                })
        }),
{
    let records = Seq::new(lines.len(), |k: int| parsed(lines[k], stamps[k])->0);
    let start = Seq::<TrackedView>::empty();
    let out = merged_all(start, records);
    lemma_merged_all_wf(start, records);
    lemma_history_in_arrival_order(start, records, id);
    lemma_merged_all_ids(start, records, id);
    lemma_merged_all_only_ids(start, records);
    assert(!has_id(start, id));
    assert(records[0].id == id);
    assert(has_id(out, id));
    let i = index_of(out, id);
    assert(out.len() == 1) by {
        if out.len() != 1 {
            let j = if i == 0 {
                1int
            } else {
                0int
            };
            assert(out[j].id != out[i].id);
            assert(has_id(out, out[j].id));
        }
    }
}

/// After a run of records the store holds a message for the identifier
/// `id` if it held one before or one of the records bears `id`.
pub proof fn lemma_merged_all_ids(s: Seq<TrackedView>, ms: Seq<MessageView>, id: Seq<char>)
    ensures
        has_id(merged_all(s, ms), id) <==> has_id(s, id) || exists|k: int|
            0 <= k < ms.len() && (#[trigger] ms[k]).id == id,
    decreases ms.len(),
{
    if ms.len() > 0 {
        let rest = ms.drop_first();
        lemma_merged_ids(s, ms[0], id);
        lemma_merged_all_ids(merged(s, ms[0]), rest, id);
        if exists|k: int| 0 <= k < rest.len() && (#[trigger] rest[k]).id == id {
            let k = choose|k: int| 0 <= k < rest.len() && (#[trigger] rest[k]).id == id;
            assert(ms[k + 1].id == id);
        }
        if exists|k: int| 0 <= k < ms.len() && (#[trigger] ms[k]).id == id {
            let k = choose|k: int| 0 <= k < ms.len() && (#[trigger] ms[k]).id == id;
            if k > 0 {
                assert(rest[k - 1].id == id);
            }
        }
    }
}

/// Every message of the store after a run of records was there before
/// or bears the identifier of one of the records.
pub proof fn lemma_merged_all_only_ids(s: Seq<TrackedView>, ms: Seq<MessageView>)
    ensures
        forall|j: int|
            0 <= j < merged_all(s, ms).len() ==> has_id(s, (#[trigger] merged_all(s, ms)[j]).id)
                || exists|k: int| 0 <= k < ms.len() && (#[trigger] ms[k]).id == merged_all(
                    s,
                    ms,
                )[j].id,
{
    let out = merged_all(s, ms);
    assert forall|j: int| 0 <= j < out.len() implies has_id(s, (#[trigger] out[j]).id) || exists|
        k: int,
    | 0 <= k < ms.len() && (#[trigger] ms[k]).id == out[j].id by {
        assert(has_id(out, out[j].id));
        lemma_merged_all_ids(s, ms, out[j].id);
    }
}

/// Every message of a well-formed store has a history.
proof fn lemma_entries_wf(msgs: Seq<TrackedMessage>)
    requires
        store_wf(tracked_views(msgs)),
    ensures
        forall|i: int| 0 <= i < msgs.len() ==> (#[trigger] msgs[i]).wf(),
{
    assert forall|i: int| 0 <= i < msgs.len() implies (#[trigger] msgs[i]).wf() by {
        assert(tracked_views(msgs)[i].values.len() > 0);
    }
}

/// Where the message for `id` stands in `msgs`, if there is one.
fn find_in(msgs: &Vec<TrackedMessage>, id: &String) -> (r: Option<usize>)
    requires
        store_wf(tracked_views(msgs@)),
    ensures
        match r {
            Some(i) => has_id(tracked_views(msgs@), id@) && i == index_of(
                tracked_views(msgs@),
                id@,
            ),
            None => !has_id(tracked_views(msgs@), id@),
        },
{
    let mut i: usize = 0;
    while i < msgs.len()
        invariant
            store_wf(tracked_views(msgs@)),
            i <= msgs@.len(),
            forall|j: int| 0 <= j < i ==> (#[trigger] tracked_views(msgs@)[j]).id != id@,
        decreases msgs@.len() - i,
    {
        if msgs[i].id == *id {
            proof {
                assert(tracked_views(msgs@)[i as int].id == id@);
                lemma_index_of(tracked_views(msgs@), i as int);
            }
            return Some(i);
        }
        i += 1;
    }
    None
}

/// Takes the record `m` into `msgs`.
fn merge_into(msgs: &mut Vec<TrackedMessage>, m: Message)
    requires
        store_wf(tracked_views(old(msgs)@)),
    ensures
        store_wf(tracked_views(final(msgs)@)),
        tracked_views(final(msgs)@) == merged(tracked_views(old(msgs)@), m@),
{
    proof {
        lemma_merged_wf(tracked_views(msgs@), m@);
    }
    match find_in(msgs, &m.id) {
        Some(i) => {
            msgs[i].merge(m);
            assert(tracked_views(msgs@) =~= merged(tracked_views(old(msgs)@), m@));
        },
        None => {
            msgs.push(TrackedMessage::from(m));
            assert(tracked_views(msgs@) =~= merged(tracked_views(old(msgs)@), m@));
        },
    }
}

/// The places of `msgs` from the top of the display to its bottom.
fn order_of(msgs: &Vec<TrackedMessage>) -> (order: Vec<usize>)
    requires
        store_wf(tracked_views(msgs@)),
    ensures
        is_display_order(tracked_views(msgs@), order@),
        order@ == display_order(tracked_views(msgs@)),
{
    let ghost s = tracked_views(msgs@);
    let n: usize = msgs.len();
    let mut order: Vec<usize> = Vec::new();
    let mut k: usize = 0;
    proof {
        lemma_entries_wf(msgs@);
    }
    while k < n
        invariant
            s == tracked_views(msgs@),
            store_wf(s),
            forall|i: int| 0 <= i < n ==> (#[trigger] msgs@[i]).wf(),
            n == msgs@.len(),
            k <= n,
            order@.len() == k,
            in_order(s, order@, k as int),
        decreases n - k,
    {
        let mut p: usize = 0;
        while p < order.len() && !msgs[k].comes_before(&msgs[order[p]])
            invariant
                s == tracked_views(msgs@),
                forall|i: int| 0 <= i < n ==> (#[trigger] msgs@[i]).wf(),
                n == msgs@.len(),
                k < n,
                order@.len() == k,
                p <= order@.len(),
                in_order(s, order@, k as int),
                forall|i: int|
                    0 <= i < p ==> !precedes(s[k as int], s[(#[trigger] order@[i]) as int]),
            decreases order@.len() - p,
        {
            p += 1;
        }
        proof {
            lemma_insert_in_order(s, order@, k, p as int);
        }
        order.insert(p, k);
        k += 1;
    }
    proof {
        assert(is_display_order(s, order@));
        lemma_display_order_unique(s, order@, display_order(s));
    }
    order
}

/// Turns over the `ignored` flag of the message of `msgs` shown at `position`.
fn flip_ignored_in(msgs: &mut Vec<TrackedMessage>, position: usize)
    requires
        store_wf(tracked_views(old(msgs)@)),
    ensures
        store_wf(tracked_views(final(msgs)@)),
        tracked_views(final(msgs)@) == (if position < tracked_views(old(msgs)@).len() {
            with_ignored_flipped(
                tracked_views(old(msgs)@),
                display_order(tracked_views(old(msgs)@))[position as int] as int,
            )
        } else {
            tracked_views(old(msgs)@)
        }),
{
    if position < msgs.len() {
        let ghost before = tracked_views(msgs@);
        let order = order_of(msgs);
        let i: usize = order[position];
        let flag: bool = msgs[i].ignored;
        msgs[i].ignored = !flag;
        proof {
            let after = tracked_views(msgs@);
            assert(after =~= with_ignored_flipped(before, i as int));
            assert forall|a: int| 0 <= a < after.len() implies (#[trigger] after[a]).values
                == before[a].values && after[a].id == before[a].id by {}
        }
    }
}

/// Turns over the `pinned` flag of the message of `msgs` shown at `position`.
fn flip_pinned_in(msgs: &mut Vec<TrackedMessage>, position: usize)
    requires
        store_wf(tracked_views(old(msgs)@)),
    ensures
        store_wf(tracked_views(final(msgs)@)),
        tracked_views(final(msgs)@) == (if position < tracked_views(old(msgs)@).len() {
            with_pinned_flipped(
                tracked_views(old(msgs)@),
                display_order(tracked_views(old(msgs)@))[position as int] as int,
            )
        } else {
            tracked_views(old(msgs)@)
        }),
{
    if position < msgs.len() {
        let ghost before = tracked_views(msgs@);
        let order = order_of(msgs);
        let i: usize = order[position];
        let flag: bool = msgs[i].pinned;
        msgs[i].pinned = !flag;
        proof {
            let after = tracked_views(msgs@);
            assert(after =~= with_pinned_flipped(before, i as int));
            assert forall|a: int| 0 <= a < after.len() implies (#[trigger] after[a]).values
                == before[a].values && after[a].id == before[a].id by {}
        }
    }
}

/// The messages seen so far, one for each identifier, in the order in
/// which the identifiers first came. No message has an empty history.
#[derive(Debug)]
pub struct Store {
    msgs: Vec<TrackedMessage>,
}

impl View for Store {
    type V = Seq<TrackedView>;

    closed spec fn view(&self) -> Seq<TrackedView> {
        tracked_views(self.msgs@)
    }
}

impl Store {
    #[verifier::type_invariant]
    spec fn inv(&self) -> bool {
        store_wf(tracked_views(self.msgs@))
    }

    /// A store that has seen nothing.
    pub fn new() -> (s: Store)
        ensures
            s@ == Seq::<TrackedView>::empty(),
            store_wf(s@),
    {
        let s = Store { msgs: Vec::new() };
        assert(s@ =~= Seq::<TrackedView>::empty());
        s
    }

    /// The number of messages, one for each identifier seen.
    pub fn len(&self) -> (n: usize)
        ensures
            n == self@.len(),
            store_wf(self@),
    {
        proof {
            use_type_invariant(self);
        }
        self.msgs.len()
    }

    /// The message at place `i`, counted in the order in which the
    /// identifiers first came.
    pub fn get(&self, i: usize) -> (r: Option<&TrackedMessage>)
        ensures
            match r {
                Some(t) => i < self@.len() && t@ == self@[i as int] && t.wf(),
                None => i >= self@.len(),
            },
    {
        proof {
            use_type_invariant(self);
            lemma_entries_wf(self.msgs@);
        }
        if i < self.msgs.len() {
            Some(&self.msgs[i])
        } else {
            None
        }
    }

    /// Where the message for `id` stands, if there is one.
    pub fn find(&self, id: &String) -> (r: Option<usize>)
        ensures
            match r {
                Some(i) => has_id(self@, id@) && i == index_of(self@, id@),
                None => !has_id(self@, id@),
            },
    {
        proof {
            use_type_invariant(self);
        }
        find_in(&self.msgs, id)
    }

    /// Takes in one record: it joins the history of the message with its
    /// identifier, or creates that message. This never fails.
    pub fn merge(&mut self, m: Message)
        ensures
            final(self)@ == merged(old(self)@, m@),
            store_wf(final(self)@),
    {
        proof {
            use_type_invariant(&*self);
        }
        let mut msgs: Vec<TrackedMessage> = Vec::new();
        std::mem::swap(&mut msgs, &mut self.msgs);
        merge_into(&mut msgs, m);
        self.msgs = msgs;
    }

    /// The places of the messages from the top of the display to its
    /// bottom. The store itself is left as it is.
    pub fn ordered(&self) -> (order: Vec<usize>)
        ensures
            is_display_order(self@, order@),
            order@ == display_order(self@),
    {
        proof {
            use_type_invariant(self);
        }
        order_of(&self.msgs)
    }

    /// Turns over the `ignored` flag of the message shown at `position`,
    /// counted from the top. With no message there, nothing changes.
    pub fn toggle_ignored(&mut self, position: usize)
        ensures
            final(self)@ == (if position < old(self)@.len() {
                with_ignored_flipped(
                    old(self)@,
                    display_order(old(self)@)[position as int] as int,
                )
            } else {
                old(self)@
            }),
    {
        proof {
            use_type_invariant(&*self);
        }
        let mut msgs: Vec<TrackedMessage> = Vec::new();
        std::mem::swap(&mut msgs, &mut self.msgs);
        flip_ignored_in(&mut msgs, position);
        self.msgs = msgs;
    }

    /// Turns over the `pinned` flag of the message shown at `position`,
    /// counted from the top. With no message there, nothing changes.
    pub fn toggle_pinned(&mut self, position: usize)
        ensures
            final(self)@ == (if position < old(self)@.len() {
                with_pinned_flipped(
                    old(self)@,
                    display_order(old(self)@)[position as int] as int,
                )
            } else {
                old(self)@
            }),
    {
        proof {
            use_type_invariant(&*self);
        }
        let mut msgs: Vec<TrackedMessage> = Vec::new();
        std::mem::swap(&mut msgs, &mut self.msgs);
        flip_pinned_in(&mut msgs, position);
        self.msgs = msgs;
    }

    /// The rows of the display from its top to its bottom, when `cols`
    /// columns of payloads are shown at time `now`.
    pub fn rows(&self, cols: usize, now: i64) -> (rows: Vec<Row>)
        ensures
            rows@.len() == self@.len(),
            forall|k: int|
                0 <= k < rows@.len() ==> (#[trigger] rows@[k])@ == row_of(
                    self@[display_order(self@)[k] as int],
                    cols as nat,
                    now,
                ),
    {
        proof {
            use_type_invariant(self);
        }
        let order = order_of(&self.msgs);
        let mut rows: Vec<Row> = Vec::new();
        let mut k: usize = 0;
        while k < order.len()
            invariant
                is_display_order(tracked_views(self.msgs@), order@),
                order@ == display_order(tracked_views(self.msgs@)),
                k <= order@.len(),
                rows@.len() == k,
                forall|j: int|
                    0 <= j < k ==> (#[trigger] rows@[j])@ == row_of(
                        tracked_views(self.msgs@)[order@[j] as int],
                        cols as nat,
                        now,
                    ),
            decreases order@.len() - k,
        {
            let i: usize = order[k];
            rows.push(self.msgs[i].as_row(cols, now));
            k += 1;
        }
        rows
    }
}

} // verus!
