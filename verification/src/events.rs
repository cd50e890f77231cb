//! Events and the priority queue that orders them. An event is a kind plus a
//! payload; ordering and equality look at the kind alone, so a queue may
//! reorder or coalesce events that differ only in payload — a deliberate,
//! documented property of the design, not an accident. The queue breaks ties
//! between equal kinds by stable first-in-first-out order.

use vstd::prelude::*;

verus! {

/// The kind of an event, ranked by a fixed total order, lowest first:
/// `IDLE < LOG < PREDRAW < DRAW < POSTDRAW < CLICK < CUSTOM < QUIT`.
#[derive(Debug, Clone, Copy, PartialEq, Eq, Structural, Hash)]
#[allow(non_camel_case_types)]
pub enum EventType {
    IDLE,
    LOG,
    PREDRAW,
    DRAW,
    POSTDRAW,
    CLICK,
    CUSTOM,
    QUIT,
}

impl EventType {
    /// The rank of this kind in the fixed total order.
    pub open spec fn rank_spec(self) -> u8 {
        match self {
            EventType::IDLE => 0,
            EventType::LOG => 1,
            EventType::PREDRAW => 2,
            EventType::DRAW => 3,
            EventType::POSTDRAW => 4,
            EventType::CLICK => 5,
            EventType::CUSTOM => 6,
            EventType::QUIT => 7,
        }
    }

    /// The rank, for runtime comparison.
    pub fn rank(&self) -> (r: u8)
        ensures
            r == self.rank_spec(),
    {
        match self {
            EventType::IDLE => 0,
            EventType::LOG => 1,
            EventType::PREDRAW => 2,
            EventType::DRAW => 3,
            EventType::POSTDRAW => 4,
            EventType::CLICK => 5,
            EventType::CUSTOM => 6,
            EventType::QUIT => 7,
        }
    }
}

impl Default for EventType {
    /// The resting kind.
    fn default() -> (r: Self)
        ensures
            r == EventType::IDLE,
    {
        EventType::IDLE
    }
}

/// An event payload: a tagged union over nothing, an integer, the bits of a
/// 32-bit floating-point number (kept as raw bits so the payload stays plain
/// data; the host interprets them), text, an ordered list of payloads, and a
/// reference to a registered handler object by its identifier.
#[derive(Debug)]
pub enum DataObj {
    Empty,
    I32(i32),
    F32Bits(u32),
    Text(String),
    List(Vec<DataObj>),
    Handler(usize),
}

impl Default for DataObj {
    /// The empty payload.
    fn default() -> (r: Self)
        ensures
            r is Empty,
    {
        DataObj::Empty
    }
}

/// An event: a kind, which alone decides ordering and equality, and a
/// payload, which does not participate in comparison.
#[derive(Debug)]
pub struct WidgetEvent(pub EventType, pub DataObj);

impl WidgetEvent {
    /// An event asking for work before the draw pass.
    pub fn predrawcall() -> (r: Self)
        ensures
            r.0 == EventType::PREDRAW,
            r.1 is Empty,
    {
        WidgetEvent(EventType::PREDRAW, DataObj::Empty)
    }

    /// An event asking for a draw pass.
    pub fn drawcall() -> (r: Self)
        ensures
            r.0 == EventType::DRAW,
            r.1 is Empty,
    {
        WidgetEvent(EventType::DRAW, DataObj::Empty)
    }

    /// An event asking for work after the draw pass.
    pub fn postdrawcall() -> (r: Self)
        ensures
            r.0 == EventType::POSTDRAW,
            r.1 is Empty,
    {
        WidgetEvent(EventType::POSTDRAW, DataObj::Empty)
    }
}

impl Default for WidgetEvent {
    /// A resting event with an empty payload.
    fn default() -> (r: Self)
        ensures
            r.0 == EventType::IDLE,
            r.1 is Empty,
    {
        WidgetEvent(EventType::IDLE, DataObj::Empty)
    }
}

impl PartialEq for WidgetEvent {
    /// Two events are equal exactly when their kinds are: payload does not
    /// participate in comparison.
    fn eq(&self, other: &Self) -> (r: bool) {
        self.0 == other.0
    }
}

impl vstd::std_specs::cmp::PartialEqSpecImpl for WidgetEvent {
    open spec fn obeys_eq_spec() -> bool {
        true
    }

    open spec fn eq_spec(&self, other: &Self) -> bool {
        self.0 == other.0
    }
}

/// `j` is the position the queue serves next on contents `s`: no rank beats
/// `s[j]`, and among the entries of that top rank, `s[j]` arrived first.
pub open spec fn is_first_max(s: Seq<WidgetEvent>, j: int) -> bool {
    &&& 0 <= j < s.len()
    &&& forall|i: int|
        0 <= i < s.len() ==> (#[trigger] s[i]).0.rank_spec() <= s[j].0.rank_spec()
    &&& forall|i: int| 0 <= i < j ==> (#[trigger] s[i]).0.rank_spec() < s[j].0.rank_spec()
}

/// The position the queue serves next: the earliest entry of the highest
/// rank. Meaningful only on non-empty contents.
pub open spec fn first_max_pos(s: Seq<WidgetEvent>) -> int
    decreases s.len(),
{
    if s.len() <= 1 {
        0
    } else {
        let p = first_max_pos(s.drop_last());
        if s.last().0.rank_spec() > s[p].0.rank_spec() {
            s.len() - 1
        } else {
            p
        }
    }
}

/// On non-empty contents, `first_max_pos` is exactly the first position of
/// maximal rank: pops serve the highest rank first and keep first-in
/// first-out order among entries of equal rank.
pub proof fn lemma_first_max_pos(s: Seq<WidgetEvent>)
    requires
        s.len() > 0,
    ensures
        is_first_max(s, first_max_pos(s)),
    decreases s.len(),
{
    if s.len() > 1 {
        let sub = s.drop_last();
        lemma_first_max_pos(sub);
        let p = first_max_pos(sub);
        assert(forall|i: int| 0 <= i < sub.len() ==> sub[i] == s[i]);
    }
}

/// A priority queue of events, ordered by event kind alone. Arrival order is
/// kept, so equal kinds leave in the order they came.
#[derive(Debug)]
pub struct EventQueue {
    items: Vec<WidgetEvent>,
}

impl View for EventQueue {
    type V = Seq<WidgetEvent>;

    /// The queue contents in arrival order.
    closed spec fn view(&self) -> Seq<WidgetEvent> {
        self.items@
    }
}

impl Default for EventQueue {
    /// An empty queue.
    fn default() -> (r: Self)
        ensures
            r@ == Seq::<WidgetEvent>::empty(),
    {
        Self::new()
    }
}

impl EventQueue {
    /// An empty queue.
    pub fn new() -> (r: Self)
        ensures
            r@ == Seq::<WidgetEvent>::empty(),
    {
        EventQueue { items: Vec::new() }
    }

    /// How many events wait.
    pub fn len(&self) -> (r: usize)
        ensures
            r == self@.len(),
    {
        self.items.len()
    }

    /// Whether no event waits.
    pub fn is_empty(&self) -> (r: bool)
        ensures
            r == (self@.len() == 0),
    {
        self.items.is_empty()
    }

    /// Accepts one event. Production is never refused; consumption is what
    /// the dispatcher rate-limits.
    pub fn push(&mut self, e: WidgetEvent)
        ensures
            final(self)@ == old(self)@.push(e),
    {
        self.items.push(e);
    }

    /// Serves the earliest entry of the highest rank, removing it; nothing
    /// on an empty queue.
    pub fn pop(&mut self) -> (r: Option<WidgetEvent>)
        ensures
            old(self)@.len() == 0 ==> r is None && final(self)@ == old(self)@,
            old(self)@.len() > 0 ==> {
                let j = first_max_pos(old(self)@);
                &&& is_first_max(old(self)@, j)
                &&& r == Some(old(self)@[j])
                &&& final(self)@ == old(self)@.remove(j)
            },
    {
        let n = self.items.len();
        if n == 0 {
            return None;
        }
        let ghost s = self.items@;
        let mut best: usize = 0;
        let mut i: usize = 1;
        while i < n
            invariant
                1 <= i <= n,
                n == s.len(),
                s == self.items@,
                0 <= best < i,
                best == first_max_pos(s.subrange(0, i as int)),
            decreases n - i,
        {
            proof {
                let pre = s.subrange(0, i as int);
                let ext = s.subrange(0, i + 1);
                assert(ext.drop_last() =~= pre);
                assert(ext.last() == s[i as int]);
            }
            if self.items[i].0.rank() > self.items[best].0.rank() {
                best = i;
            }
            i += 1;
        }
        proof {
            assert(s.subrange(0, n as int) =~= s);
            lemma_first_max_pos(s);
        }
        let e = self.items.remove(best);
        Some(e)
    }
}

} // verus!
