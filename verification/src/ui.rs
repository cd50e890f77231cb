//! The dispatcher state and its cooperative, single-threaded loop policy.
//! The core's only loop contract is: while the status is not the exit
//! status and the external terminate signal is false, keep ticking. Each
//! tick runs the host's loop hook (which may enqueue events), then pops and
//! dispatches **at most one** highest-priority event — an explicit
//! backpressure policy: production is uncapped, consumption is rate-limited
//! to the external tick source. The host drives the loop and owns the
//! hooks; this module owns the state and the per-tick decisions.

use vstd::prelude::*;

use crate::assoc::{distinct_keys, has_key, lemma_assoc_map, lemma_assoc_push_fresh,
    lemma_assoc_remove_at, seq_to_map};
use crate::events::{first_max_pos, is_first_max, DataObj, EventQueue, WidgetEvent};
use crate::registry::UiWidgets;

verus! {

/// The enumerated status space of the overall system. Transitions are driven
/// entirely by the host's hooks; the core only ever checks for the terminal
/// `UI_EXIT`.
#[derive(Debug, Clone, Copy, PartialEq, Eq, Structural, Hash)]
#[allow(non_camel_case_types)]
pub enum UiState {
    UI_IDLE,
    UI_LOCKED,
    UI_DRAW,
    UI_CALL,
    UI_INTERACT,
    UI_EXIT,
}

impl Default for UiState {
    /// The resting status.
    fn default() -> (r: Self)
        ensures
            r == UiState::UI_IDLE,
    {
        UiState::UI_IDLE
    }
}

/// The shared environment map the hooks read and write: string names over
/// plain payload values.
pub struct EnvMap {
    entries: Vec<(String, DataObj)>,
}

impl EnvMap {
    /// The environment as an association sequence over string views.
    pub closed spec fn eseq(self) -> Seq<(Seq<char>, DataObj)> {
        self.entries@.map_values(|p: (String, DataObj)| (p.0@, p.1))
    }

    /// What the environment means: a map from name to value.
    pub open spec fn env_map(self) -> Map<Seq<char>, DataObj> {
        seq_to_map(self.eseq())
    }

    /// Each name bound at most once.
    pub open spec fn wf(self) -> bool {
        distinct_keys(self.eseq())
    }

    /// An empty environment; the capacity is an allocation hint only.
    pub fn with_capacity(capacity: usize) -> (r: Self)
        ensures
            r.wf(),
            r.env_map() == Map::<Seq<char>, DataObj>::empty(),
    {
        let r = EnvMap { entries: Vec::with_capacity(capacity) };
        proof {
            assert(r.eseq() =~= Seq::<(Seq<char>, DataObj)>::empty());
        }
        r
    }

    /// Position of `k` among the entries, if bound.
    fn find(&self, k: &String) -> (r: Option<usize>)
        ensures
            match r {
                Some(i) => i < self.eseq().len() && self.eseq()[i as int].0 == k@,
                None => !has_key(self.eseq(), k@),
            },
    {
        let n = self.entries.len();
        let mut i: usize = 0;
        while i < n
            invariant
                i <= n,
                n == self.eseq().len(),
                forall|j: int| 0 <= j < i ==> (#[trigger] self.eseq()[j]).0 != k@,
            decreases n - i,
        {
            if self.entries[i].0 == *k {
                return Some(i);
            }
            i += 1;
        }
        None
    }

    /// Whether `k` is bound.
    pub fn contains_key(&self, k: &String) -> (r: bool)
        requires
            self.wf(),
        ensures
            r == self.env_map().contains_key(k@),
    {
        proof {
            lemma_assoc_map(self.eseq());
        }
        self.find(k).is_some()
    }

    /// The value bound to `k`, if any.
    pub fn get(&self, k: &String) -> (r: Option<&DataObj>)
        requires
            self.wf(),
        ensures
            match r {
                Some(v) => self.env_map().contains_key(k@) && *v == self.env_map()[k@],
                None => !self.env_map().contains_key(k@),
            },
    {
        proof {
            lemma_assoc_map(self.eseq());
        }
        match self.find(k) {
            Some(i) => Some(&self.entries[i].1),
            None => None,
        }
    }

    /// Binds `k` to `v`, returning what it was bound to before.
    pub fn insert(&mut self, k: String, v: DataObj) -> (r: Option<DataObj>)
        requires
            old(self).wf(),
        ensures
            final(self).wf(),
            final(self).env_map() == old(self).env_map().insert(k@, v),
            r == if old(self).env_map().contains_key(k@) {
                Some(old(self).env_map()[k@])
            } else {
                None::<DataObj>
            },
    {
        proof {
            lemma_assoc_map(self.eseq());
        }
        match self.find(&k) {
            Some(pos) => {
                let (_, prev) = self.entries.remove(pos);
                self.entries.push((k, v));
                proof {
                    let s0 = old(self).eseq();
                    lemma_assoc_remove_at(s0, pos as int);
                    lemma_assoc_push_fresh(s0.remove(pos as int), k@, v);
                    assert(self.eseq() =~= s0.remove(pos as int).push((k@, v)));
                    assert(self.env_map() =~= old(self).env_map().insert(k@, v));
                }
                Some(prev)
            },
            None => {
                self.entries.push((k, v));
                proof {
                    lemma_assoc_push_fresh(old(self).eseq(), k@, v);
                    assert(self.eseq() =~= old(self).eseq().push((k@, v)));
                }
                None
            },
        }
    }

    /// Unbinds `k`, returning its value.
    pub fn remove(&mut self, k: &String) -> (r: Option<DataObj>)
        requires
            old(self).wf(),
        ensures
            final(self).wf(),
            final(self).env_map() == old(self).env_map().remove(k@),
            r == if old(self).env_map().contains_key(k@) {
                Some(old(self).env_map()[k@])
            } else {
                None::<DataObj>
            },
    {
        proof {
            lemma_assoc_map(self.eseq());
        }
        match self.find(k) {
            Some(pos) => {
                let (_, prev) = self.entries.remove(pos);
                proof {
                    lemma_assoc_remove_at(old(self).eseq(), pos as int);
                    assert(self.eseq() =~= old(self).eseq().remove(pos as int));
                }
                Some(prev)
            },
            None => {
                proof {
                    assert(old(self).env_map().remove(k@) =~= old(self).env_map());
                }
                None
            },
        }
    }

    /// How many names are bound.
    pub fn len(&self) -> (r: usize)
        requires
            self.wf(),
        ensures
            r == self.env_map().len(),
    {
        proof {
            lemma_assoc_map(self.eseq());
        }
        self.entries.len()
    }
}

/// The data the hooks share across ticks.
pub struct UiData {
    pub globals: EnvMap,
}

/// The pending events.
pub struct UiEvents {
    pub queue: EventQueue,
}

/// The whole dispatcher state: status, shared data, pending events and the
/// registry. Within a tick it is owned exclusively by the loop and lent to
/// exactly one hook at a time; there is no concurrent access.
pub struct UI {
    pub status: UiState,
    pub data: UiData,
    pub events: UiEvents,
    pub widgets: UiWidgets,
}

impl UI {
    /// Every component well-formed.
    pub open spec fn wf(self) -> bool {
        self.data.globals.wf() && self.widgets.wf()
    }

    /// A fresh dispatcher: resting status, everything empty.
    pub fn new() -> (r: Self)
        ensures
            r.wf(),
            r.status == UiState::UI_IDLE,
            r.data.globals.env_map() == Map::<Seq<char>, DataObj>::empty(),
            r.events.queue@ == Seq::<WidgetEvent>::empty(),
            r.widgets.tag_map() == Map::<Seq<char>, crate::registry::WidgetID>::empty(),
            r.widgets.widget_map() == Map::<crate::registry::WidgetID, crate::widget::Widget>::empty(),
            r.widgets.spec_indices() == 0,
    {
        UI {
            status: UiState::UI_IDLE,
            data: UiData { globals: EnvMap::with_capacity(0) },
            events: UiEvents { queue: EventQueue::new() },
            widgets: UiWidgets::new(),
        }
    }

    /// Whether the status is the terminal one. This, alongside the external
    /// terminate signal, is the only thing the loop checks to stop.
    pub fn should_exit(&self) -> (r: bool)
        ensures
            r == (self.status == UiState::UI_EXIT),
    {
        self.status == UiState::UI_EXIT
    }

    /// The loop condition: keep ticking while the status is not terminal and
    /// the external collaborator has not asked to close.
    pub fn keep_ticking(&self, external_close: bool) -> (r: bool)
        ensures
            r == (!external_close && self.status != UiState::UI_EXIT),
    {
        !external_close && !self.should_exit()
    }

    /// The event step of one tick: pops at most one event — the earliest of
    /// the highest rank — and touches nothing else. The host calls its loop
    /// hook first, then this, then hands any popped event to its event hook;
    /// events the hook enqueues are served on a later tick, never the same
    /// one.
    pub fn tick_event(&mut self) -> (r: Option<WidgetEvent>)
        ensures
            final(self).status == old(self).status,
            final(self).data == old(self).data,
            final(self).widgets == old(self).widgets,
            old(self).events.queue@.len() == 0 ==> r is None && final(self).events.queue@ == old(
                self,
            ).events.queue@,
            old(self).events.queue@.len() > 0 ==> {
                let j = first_max_pos(old(self).events.queue@);
                &&& is_first_max(old(self).events.queue@, j)
                &&& r == Some(old(self).events.queue@[j])
                &&& final(self).events.queue@ == old(self).events.queue@.remove(j)
            },
    {
        self.events.queue.pop()
    }
}

impl Default for UI {
    /// A fresh dispatcher: resting status, everything empty.
    fn default() -> (r: Self)
        ensures
            r.wf(),
            r.status == UiState::UI_IDLE,
            r.data.globals.env_map() == Map::<Seq<char>, DataObj>::empty(),
            r.events.queue@ == Seq::<WidgetEvent>::empty(),
            r.widgets.spec_indices() == 0,
    {
        Self::new()
    }
}

/// How many events `ticks` ticks dispatch when `pending` events wait and the
/// loop hook enqueues nothing: each tick serves one event while any waits.
pub open spec fn ticks_dispatched(pending: nat, ticks: nat) -> nat
    decreases ticks,
{
    if ticks == 0 {
        0
    } else if pending == 0 {
        ticks_dispatched(0, (ticks - 1) as nat)
    } else {
        (1 + ticks_dispatched((pending - 1) as nat, (ticks - 1) as nat)) as nat
    }
}

/// The dispatcher serves at most one event per tick and never idles while
/// events wait: `pending` waiting events over `ticks` ticks yield exactly
/// the smaller of the two counts in event-hook invocations.
pub proof fn lemma_one_event_per_tick(pending: nat, ticks: nat)
    ensures
        ticks_dispatched(pending, ticks) == if pending <= ticks {
            pending
        } else {
            ticks
        },
    decreases ticks,
{
    if ticks > 0 {
        if pending == 0 {
            lemma_one_event_per_tick(0, (ticks - 1) as nat);
        } else {
            lemma_one_event_per_tick((pending - 1) as nat, (ticks - 1) as nat);
        }
    }
}

/// Builds a dispatcher with chosen pre-allocated capacities. The requested
/// total capacity must fit the declared element counts: a configuration
/// that cannot hold what it declares is refused before any registration.
#[derive(Debug, Clone, Copy)]
pub struct UIBuilder {
    pub status: UiState,
    pub globals: usize,
    pub drawables: usize,
    pub tags: usize,
    pub capacity: usize,
}

impl Default for UIBuilder {
    /// A builder with the resting status and no pre-allocation.
    fn default() -> (r: Self)
        ensures
            r == (UIBuilder {
                status: UiState::UI_IDLE,
                globals: 0,
                drawables: 0,
                tags: 0,
                capacity: 0,
            }),
    {
        Self::init()
    }
}

impl UIBuilder {
    /// A builder with the resting status and no pre-allocation.
    pub fn init() -> (r: Self)
        ensures
            r == (UIBuilder { status: UiState::UI_IDLE, globals: 0, drawables: 0, tags: 0, capacity: 0 }),
    {
        UIBuilder { status: UiState::UI_IDLE, globals: 0, drawables: 0, tags: 0, capacity: 0 }
    }

    /// Chooses the starting status.
    pub fn status(self, status: UiState) -> (r: Self)
        ensures
            r == (UIBuilder { status, ..self }),
    {
        UIBuilder { status, ..self }
    }

    /// Declares the environment capacity.
    pub fn globals(self, globals: usize) -> (r: Self)
        ensures
            r == (UIBuilder { globals, ..self }),
    {
        UIBuilder { globals, ..self }
    }

    /// Declares the drawable-membership capacity.
    pub fn drawables(self, drawables: usize) -> (r: Self)
        ensures
            r == (UIBuilder { drawables, ..self }),
    {
        UIBuilder { drawables, ..self }
    }

    /// Declares the tag capacity.
    pub fn tags(self, tags: usize) -> (r: Self)
        ensures
            r == (UIBuilder { tags, ..self }),
    {
        UIBuilder { tags, ..self }
    }

    /// Declares the storage capacity. Asking for less room than the
    /// declared element counts is a configuration error and is refused
    /// already here, before construction.
    pub fn capacity(self, capacity: usize) -> (r: Self)
        requires
            capacity >= self.drawables + self.tags,
        ensures
            r == (UIBuilder { capacity, ..self }),
    {
        UIBuilder { capacity, ..self }
    }

    /// Builds the dispatcher: chosen status, empty tables at the declared
    /// capacities. The declared element counts must fit the requested
    /// capacity: a configuration that cannot hold what it declares fails
    /// fast here, at construction time, before any object registration —
    /// whatever order the declarations were made in.
    pub fn build(&self) -> (ui: UI)
        requires
            self.capacity >= self.drawables + self.tags,
        ensures
            ui.wf(),
            ui.status == self.status,
            ui.data.globals.env_map() == Map::<Seq<char>, DataObj>::empty(),
            ui.events.queue@ == Seq::<WidgetEvent>::empty(),
            ui.widgets.tag_map() == Map::<Seq<char>, crate::registry::WidgetID>::empty(),
            ui.widgets.widget_map() == Map::<crate::registry::WidgetID, crate::widget::Widget>::empty(),
            ui.widgets.spec_indices() == 0,
            forall|c: crate::widget::Capability| (#[trigger] ui.widgets.membership(c)).len() == 0,
    {
        UI {
            status: self.status,
            data: UiData { globals: EnvMap::with_capacity(self.globals) },
            events: UiEvents { queue: EventQueue::new() },
            widgets: UiWidgets::with_capacity(self.capacity, self.drawables, self.tags),
        }
    }
}

} // verus!
