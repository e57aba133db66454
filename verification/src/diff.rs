//! What is shown of one payload: which of its code points differ from the
//! payload that came before it, and how long ago it was seen.
use crate::canbus::Message;
use crate::text::chars_of;
use vstd::prelude::*;
use vstd::std_specs::convert::FromSpecImpl;

verus! {

/// One payload of a message's history and the time at which it was seen,
/// in milliseconds since the Unix epoch.
#[derive(Clone, Debug, PartialEq, Eq)]
pub struct Value {
    pub data: String,
    pub ts: i64,
}

/// The mathematical value of a [`Value`].
pub struct ValueView {
    pub data: Seq<char>,
    pub ts: i64,
}

impl View for Value {
    type V = ValueView;

    open spec fn view(&self) -> ValueView {
        ValueView { data: self.data@, ts: self.ts }
    }
}

/// How long ago a payload was seen, in four steps of one second. The
/// later the step, the weaker the highlight; `Quiet` has none.
#[derive(Clone, Copy, Debug, PartialEq, Eq, Structural)]
pub enum Tier {
    /// Seen less than one second ago.
    Fresh,
    /// Seen less than two seconds ago.
    Recent,
    /// Seen less than three seconds ago.
    Fading,
    /// Seen three seconds ago or earlier, or stamped later than now.
    Quiet,
}

/// One payload made ready for display: each of its code points with the
/// flag that says whether it differs from the payload that came before,
/// and the tier of the whole.
#[derive(Clone, Debug, PartialEq, Eq)]
pub struct Cell {
    pub marks: Vec<(char, bool)>,
    pub tier: Tier,
}

/// The mathematical value of a [`Cell`].
pub struct CellView {
    pub marks: Seq<(char, bool)>,
    pub tier: Tier,
}

impl View for Cell {
    type V = CellView;

    open spec fn view(&self) -> CellView {
        CellView { marks: self.marks@, tier: self.tier }
    }
}

/// The tier of a payload stamped `ts` when the time is `now`.
pub open spec fn tier_at(ts: i64, now: i64) -> Tier {
    let elapsed = now - ts;
    if elapsed < 0 {
        Tier::Quiet
    } else if elapsed < 1000 {
        Tier::Fresh
    } else if elapsed < 2000 {
        Tier::Recent
    } else if elapsed < 3000 {
        Tier::Fading
    } else {
        Tier::Quiet
    }
}

/// Whether position `i` of `cur` counts as changed against `prev`: there
/// is an earlier payload, and it is too short to have that position or
/// holds another code point there.
pub open spec fn changed_at(cur: Seq<char>, prev: Option<Seq<char>>, i: int) -> bool {
    match prev {
        None => false,
        Some(p) => i >= p.len() || p[i] != cur[i],
    }
}

/// The marks of `cur` against `prev`, one for each code point of `cur`.
pub open spec fn marks_of(cur: Seq<char>, prev: Option<Seq<char>>) -> Seq<(char, bool)> {
    Seq::new(cur.len(), |i: int| (cur[i], changed_at(cur, prev, i)))
}

/// With no earlier payload every code point is kept and none is marked
/// as changed.
pub proof fn lemma_first_payload_unchanged(cur: Seq<char>)
    ensures
        marks_of(cur, None).len() == cur.len(),
        forall|i: int| 0 <= i < cur.len() ==> marks_of(cur, None)[i] == (cur[i], false),
{
}

/// Against an earlier payload every code point is kept, and those are
/// marked that the earlier payload does not hold at the same position.
pub proof fn lemma_marks_against(cur: Seq<char>, prev: Seq<char>)
    ensures
        marks_of(cur, Some(prev)).len() == cur.len(),
        forall|i: int|
            0 <= i < cur.len() ==> marks_of(cur, Some(prev))[i] == (
                cur[i],
                !(i < prev.len() && prev[i] == cur[i]),
            ),
{
}

/// The cell of `cur` against `prev` when the time is `now`.
pub open spec fn cell_of(cur: ValueView, prev: Option<ValueView>, now: i64) -> CellView {
    CellView {
        marks: marks_of(
            cur.data,
            match prev {
                Some(p) => Some(p.data),
                None => None,
            },
        ),
        tier: tier_at(cur.ts, now),
    }
}

/// The marks of the payload `cur` against the payload `prev`.
pub fn diff_marks(cur: &str, prev: Option<&str>) -> (marks: Vec<(char, bool)>)
    ensures
        marks@ == marks_of(
            cur@,
            match prev {
                Some(p) => Some(p@),
                None => None,
            },
        ),
{
    let c = chars_of(cur);
    let p: Option<Vec<char>> = match prev {
        Some(s) => Some(chars_of(s)),
        None => None,
    };
    let ghost pv: Option<Seq<char>> = match prev {
        Some(s) => Some(s@),
        None => None,
    };
    let mut out: Vec<(char, bool)> = Vec::new();
    let mut i: usize = 0;
    while i < c.len()
        invariant
            i <= c.len(),
            c@ == cur@,
            p is Some ==> pv == Some(p->0@),
            p is None ==> pv is None,
            out@.len() == i,
            forall|j: int|
                0 <= j < i ==> #[trigger] out@[j] == (cur@[j], changed_at(cur@, pv, j)),
        decreases c.len() - i,
    {
        let changed = match &p {
            Some(v) => i >= v.len() || v[i] != c[i],
            None => false,
        };
        out.push((c[i], changed));
        i += 1;
    }
    assert(out@ =~= marks_of(cur@, pv));
    out
}

impl Value {
    /// The tier of this payload when the time is `now`.
    pub fn tier(&self, now: i64) -> (t: Tier)
        ensures
            t == tier_at(self.ts, now),
    {
        if now < self.ts {
            Tier::Quiet
        } else {
            let elapsed: i128 = now as i128 - self.ts as i128;
            if elapsed < 1000 {
                Tier::Fresh
            } else if elapsed < 2000 {
                Tier::Recent
            } else if elapsed < 3000 {
                Tier::Fading
            } else {
                Tier::Quiet
            }
        }
    }

    /// The cell of this payload against the one that came before it, if
    /// there is one, when the time is `now`.
    pub fn diff(&self, other: Option<&Value>, now: i64) -> (cell: Cell)
        ensures
            cell@ == cell_of(
                self@,
                match other {
                    Some(o) => Some(o@),
                    None => None,
                },
                now,
            ),
    {
        let prev: Option<&str> = match other {
            Some(o) => Some(o.data.as_str()),
            None => None,
        };
        Cell { marks: diff_marks(self.data.as_str(), prev), tier: self.tier(now) }
    }
}

impl From<Message> for Value {
    fn from(msg: Message) -> (v: Value) {
        Value { data: msg.data, ts: msg.ts }
    }
}

impl FromSpecImpl<Message> for Value {
    open spec fn obeys_from_spec() -> bool {
        true
    }

    open spec fn from_spec(msg: Message) -> Value {
        Value { data: msg.data, ts: msg.ts }
    }
}

} // verus!
