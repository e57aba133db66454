//! The two modes of the viewer and what each input event does in them.
use crate::canbus::{Message, MessageView};
use crate::order::{display_order, lemma_display_order_exists};
use crate::store::{
    merged_all, message_views, row_of, store_wf, with_ignored_flipped, with_pinned_flipped, Row,
    Store, TrackedView,
};
use vstd::arithmetic::div_mod::{lemma_fundamental_div_mod, lemma_fundamental_div_mod_converse};
use vstd::prelude::*;

verus! {

/// The mode of the viewer. While it browses, records are taken in; while
/// it filters, one row is selected, by its place from the top, and the
/// records wait.
#[derive(Clone, Copy, Debug, PartialEq, Eq, Structural)]
pub enum Mode {
    Browse,
    Filter(usize),
}

/// What the operator can ask for.
#[derive(Clone, Copy, Debug, PartialEq, Eq, Structural)]
pub enum Event {
    Quit,
    FilterToggle,
    IgnoreToggle,
    PinToggle,
    NavigateUp,
    NavigateDown,
}

/// Whether the viewer goes on after an event.
#[derive(Clone, Copy, Debug, PartialEq, Eq, Structural)]
pub enum Flow {
    Continue,
    Quit,
}

/// The place below `sel` among `n` rows, the top one after the last.
pub open spec fn below(sel: usize, n: usize) -> usize {
    if n == 0 {
        sel
    } else {
        ((sel + 1) % (n as int)) as usize
    }
}

/// The place above `sel` among `n` rows, the last one above the top.
pub open spec fn above(sel: usize, n: usize) -> usize {
    if n == 0 {
        sel
    } else {
        ((sel + n - 1) % (n as int)) as usize
    }
}

/// The mode after `event`, with `n` rows on display.
pub open spec fn next_mode(mode: Mode, event: Event, n: usize) -> Mode {
    match (mode, event) {
        (Mode::Browse, Event::FilterToggle) => Mode::Filter(0),
        (Mode::Filter(_), Event::FilterToggle) => Mode::Browse,
        (Mode::Filter(sel), Event::NavigateDown) => Mode::Filter(below(sel, n)),
        (Mode::Filter(sel), Event::NavigateUp) => Mode::Filter(above(sel, n)),
        _ => mode,
    }
}

/// The store after `event` in `mode`: the two flag events turn over a
/// flag of the selected row, if there is such a row; nothing else
/// touches the store.
pub open spec fn next_store(s: Seq<TrackedView>, mode: Mode, event: Event) -> Seq<TrackedView> {
    match (mode, event) {
        (Mode::Filter(sel), Event::IgnoreToggle) => if sel < s.len() {
            with_ignored_flipped(s, display_order(s)[sel as int] as int)
        } else {
            s
        },
        (Mode::Filter(sel), Event::PinToggle) => if sel < s.len() {
            with_pinned_flipped(s, display_order(s)[sel as int] as int)
        } else {
            s
        },
        _ => s,
    }
}

/// The store and the queue after the viewer has looked at the queue in
/// `mode`: browsing takes in all that waits, first come first; filtering
/// leaves store and queue as they are.
pub open spec fn absorbed(s: Seq<TrackedView>, mode: Mode, queue: Seq<MessageView>) -> (
    Seq<TrackedView>,
    Seq<MessageView>,
) {
    match mode {
        Mode::Browse => (merged_all(s, queue), Seq::empty()),
        Mode::Filter(_) => (s, queue),
    }
}

/// Leaving the browsing mode and coming back: the first toggle selects
/// the top row, while filtering nothing that waits is taken in, the
/// second toggle leaves no row selected, neither touches the store, and
/// all that waited is then taken in at once, in the order it came.
pub proof fn lemma_filter_round_trip(s: Seq<TrackedView>, queue: Seq<MessageView>, n: usize)
    ensures
        next_mode(Mode::Browse, Event::FilterToggle, n) == Mode::Filter(0),
        next_store(s, Mode::Browse, Event::FilterToggle) == s,
        absorbed(s, Mode::Filter(0), queue) == (s, queue),
        forall|sel: usize| next_mode(Mode::Filter(sel), Event::FilterToggle, n) == Mode::Browse,
        forall|sel: usize| next_store(s, Mode::Filter(sel), Event::FilterToggle) == s,
        absorbed(s, Mode::Browse, queue) == (merged_all(s, queue), Seq::<MessageView>::empty()),
{
}

/// No event adds, removes or moves a message, or touches an identifier
/// or a history: the flags alone are in the operator's hands.
pub proof fn lemma_events_keep_histories(
    s: Seq<TrackedView>,
    mode: Mode,
    event: Event,
    i: int,
)
    requires
        store_wf(s),
        s.len() <= usize::MAX,
        0 <= i < s.len(),
    ensures
        next_store(s, mode, event).len() == s.len(),
        next_store(s, mode, event)[i].id == s[i].id,
        next_store(s, mode, event)[i].values == s[i].values,
{
    lemma_display_order_exists(s);
    match mode {
        Mode::Filter(sel) => {
            if sel < s.len() {
                assert(display_order(s)[sel as int] < s.len());
            }
        },
        Mode::Browse => {},
    }
}

/// The place below `sel` among `n` rows.
pub fn step_down(sel: usize, n: usize) -> (r: usize)
    ensures
        r == below(sel, n),
        n > 0 ==> r < n,
{
    if n == 0 {
        sel
    } else {
        let at: usize = sel % n;
        proof {
            lemma_fundamental_div_mod(sel as int, n as int);
            let q = sel as int / n as int;
            if at + 1 == n {
                assert(sel + 1 == (q + 1) * n + 0) by (nonlinear_arith)
                    requires
                        sel == n * q + at,
                        at + 1 == n,
                ;
                lemma_fundamental_div_mod_converse(sel + 1, n as int, q + 1, 0);
            } else {
                assert(sel + 1 == q * n + (at + 1)) by (nonlinear_arith)
                    requires
                        sel == n * q + at,
                ;
                lemma_fundamental_div_mod_converse(sel + 1, n as int, q, at + 1);
            }
        }
        if at + 1 == n {
            0
        } else {
            at + 1
        }
    }
}

/// The place above `sel` among `n` rows.
pub fn step_up(sel: usize, n: usize) -> (r: usize)
    ensures
        r == above(sel, n),
        n > 0 ==> r < n,
{
    if n == 0 {
        sel
    } else {
        let at: usize = sel % n;
        proof {
            lemma_fundamental_div_mod(sel as int, n as int);
            let q = sel as int / n as int;
            if at == 0 {
                assert(sel + n - 1 == q * n + (n - 1)) by (nonlinear_arith)
                    requires
                        sel == n * q + at,
                        at == 0,
                ;
                lemma_fundamental_div_mod_converse(sel + n - 1, n as int, q, n - 1);
            } else {
                assert(sel + n - 1 == (q + 1) * n + (at - 1)) by (nonlinear_arith)
                    requires
                        sel == n * q + at,
                ;
                lemma_fundamental_div_mod_converse(sel + n - 1, n as int, q + 1, at - 1);
            }
        }
        if at == 0 {
            n - 1
        } else {
            at - 1
        }
    }
}

/// The viewer: what it has seen and the mode it is in.
#[derive(Debug)]
pub struct Session {
    pub store: Store,
    pub mode: Mode,
}

impl Session {
    /// A viewer that has seen nothing and browses.
    pub fn new() -> (s: Session)
        ensures
            s.store@ == Seq::<TrackedView>::empty(),
            s.mode == Mode::Browse,
    {
        Session { store: Store::new(), mode: Mode::Browse }
    }

    /// The place of the selected row, if the viewer filters.
    pub fn selected(&self) -> (r: Option<usize>)
        ensures
            r == (match self.mode {
                Mode::Browse => None,
                Mode::Filter(sel) => Some(sel),
            }),
    {
        match self.mode {
            Mode::Browse => None,
            Mode::Filter(sel) => Some(sel),
        }
    }

    /// Whether records are taken in now: only while browsing.
    pub fn draining(&self) -> (r: bool)
        ensures
            r == (self.mode == Mode::Browse),
    {
        match self.mode {
            Mode::Browse => true,
            Mode::Filter(_) => false,
        }
    }

    /// Looks at the records that wait. While browsing all of them go
    /// into the store, first come first, and the queue is left empty;
    /// while filtering store and queue stay as they are.
    pub fn absorb(&mut self, queue: &mut Vec<Message>)
        ensures
            final(self).mode == old(self).mode,
            (final(self).store@, message_views(final(queue)@)) == absorbed(
                old(self).store@,
                old(self).mode,
                message_views(old(queue)@),
            ),
    {
        if !self.draining() {
            return;
        }
        let ghost all = message_views(queue@);
        while queue.len() > 0
            invariant
                self.mode == old(self).mode,
                merged_all(self.store@, message_views(queue@)) == merged_all(
                    old(self).store@,
                    all,
                ),
            decreases queue@.len(),
        {
            let ghost waiting = message_views(queue@);
            let m = queue.remove(0);
            proof {
                assert(waiting[0] == m@);
                assert(message_views(queue@) =~= waiting.drop_first());
            }
            self.store.merge(m);
        }
        proof {
            assert(message_views(queue@) =~= Seq::<MessageView>::empty());
        }
    }

    /// Handles one event: the filter toggle changes the mode, the two
    /// navigation events move the selection round the rows, the two flag
    /// events turn over a flag of the selected row, and `Quit` asks the
    /// caller to stop. An event that does not apply changes nothing.
    pub fn handle(&mut self, event: Event) -> (flow: Flow)
        ensures
            flow == (if event == Event::Quit {
                Flow::Quit
            } else {
                Flow::Continue
            }),
            final(self).mode == next_mode(old(self).mode, event, old(self).store@.len() as usize),
            final(self).store@ == next_store(old(self).store@, old(self).mode, event),
    {
        let n: usize = self.store.len();
        match (self.mode, event) {
            (_, Event::Quit) => {
                return Flow::Quit;
            },
            (Mode::Browse, Event::FilterToggle) => {
                self.mode = Mode::Filter(0);
            },
            (Mode::Filter(_), Event::FilterToggle) => {
                self.mode = Mode::Browse;
            },
            (Mode::Filter(sel), Event::NavigateDown) => {
                self.mode = Mode::Filter(step_down(sel, n));
            },
            (Mode::Filter(sel), Event::NavigateUp) => {
                self.mode = Mode::Filter(step_up(sel, n));
            },
            (Mode::Filter(sel), Event::IgnoreToggle) => {
                self.store.toggle_ignored(sel);
            },
            (Mode::Filter(sel), Event::PinToggle) => {
                self.store.toggle_pinned(sel);
            },
            _ => {},
        }
        Flow::Continue
    }

    /// The rows of the display from its top to its bottom.
    pub fn rows(&self, cols: usize, now: i64) -> (rows: Vec<Row>)
        ensures
            rows@.len() == self.store@.len(),
            forall|k: int|
                0 <= k < rows@.len() ==> (#[trigger] rows@[k])@ == row_of(
                    self.store@[display_order(self.store@)[k] as int],
                    cols as nat,
                    now,
                ),
    {
        self.store.rows(cols, now)
    }
}

} // verus!
