//! The registry: allocation, naming, storage and capability membership
//! composed into one collection of tagged polymorphic objects. Identifiers
//! come from a monotone allocator and are never reused; objects are owned by
//! an identifier-keyed store; names live in a separate tag map (tagging binds
//! a name, nothing more — it never creates an alias relationship); and each
//! capability has an ordered membership sequence, filled at registration
//! time and defining iteration order for capability-filtered traversal.

use vstd::prelude::*;

use crate::assoc::{distinct_keys, has_key, lemma_assoc_map, lemma_assoc_push_fresh,
    lemma_assoc_remove_at, seq_to_map};
use crate::widget::{Capability, Widget};

verus! {

/// The identifier of one registered object.
pub type WidgetID = usize;

/// The collection of registered objects.
pub struct UiWidgets {
    drawables: Vec<WidgetID>,
    callables: Vec<WidgetID>,
    collidables: Vec<WidgetID>,
    tags: Vec<(String, WidgetID)>,
    widgets: Vec<(WidgetID, Widget)>,
    indices: usize,
}

impl UiWidgets {
    /// The tag table as an association sequence over string views.
    pub closed spec fn tseq(self) -> Seq<(Seq<char>, WidgetID)> {
        self.tags@.map_values(|p: (String, WidgetID)| (p.0@, p.1))
    }

    /// The object store as an association sequence.
    pub closed spec fn wseq(self) -> Seq<(WidgetID, Widget)> {
        self.widgets@
    }

    /// What the tag table means: a map from name to identifier.
    pub open spec fn tag_map(self) -> Map<Seq<char>, WidgetID> {
        seq_to_map(self.tseq())
    }

    /// What the store means: a map from identifier to owned object.
    pub open spec fn widget_map(self) -> Map<WidgetID, Widget> {
        seq_to_map(self.wseq())
    }

    /// How many identifiers have been issued; also the next one.
    pub closed spec fn spec_indices(self) -> usize {
        self.indices
    }

    /// The ordered membership sequence of a capability: the identifiers
    /// registered under it, in registration order, never re-sorted.
    pub closed spec fn membership(self, c: Capability) -> Seq<WidgetID> {
        match c {
            Capability::Drawable => self.drawables@,
            Capability::Callable => self.callables@,
            Capability::Collidable => self.collidables@,
        }
    }

    /// A membership sequence is sound: no identifier twice, every member
    /// stored, every member's object supporting the capability.
    pub open spec fn membership_ok(self, c: Capability) -> bool {
        &&& forall|i: int, j: int|
            0 <= i < j < self.membership(c).len() ==> self.membership(c)[i] != self.membership(
                c,
            )[j]
        &&& forall|i: int|
            0 <= i < self.membership(c).len() ==> self.widget_map().contains_key(
                #[trigger] self.membership(c)[i],
            ) && self.widget_map()[self.membership(c)[i]].caps.spec_supports(c)
    }

    /// Well-formedness: unambiguous tables, every stored identifier below
    /// the allocator, every membership sequence sound.
    pub open spec fn wf(self) -> bool {
        &&& distinct_keys(self.tseq())
        &&& distinct_keys(self.wseq())
        &&& forall|l: int|
            0 <= l < self.wseq().len() ==> (#[trigger] self.wseq()[l]).0 < self.spec_indices()
        &&& self.membership_ok(Capability::Drawable)
        &&& self.membership_ok(Capability::Callable)
        &&& self.membership_ok(Capability::Collidable)
    }

    /// An empty registry; the arguments are allocation hints only.
    pub fn with_capacity(capacity: usize, drawables: usize, tags: usize) -> (r: Self)
        ensures
            r.wf(),
            r.tag_map() == Map::<Seq<char>, WidgetID>::empty(),
            r.widget_map() == Map::<WidgetID, Widget>::empty(),
            r.spec_indices() == 0,
            forall|c: Capability| (#[trigger] r.membership(c)).len() == 0,
    {
        let r = UiWidgets {
            drawables: Vec::with_capacity(drawables),
            callables: Vec::new(),
            collidables: Vec::new(),
            tags: Vec::with_capacity(tags),
            widgets: Vec::with_capacity(capacity),
            indices: 0,
        };
        proof {
            assert(r.tseq() =~= Seq::<(Seq<char>, WidgetID)>::empty());
            assert forall|c: Capability| (#[trigger] r.membership(c)).len() == 0 by {
                match c {
                    Capability::Drawable => {},
                    Capability::Callable => {},
                    Capability::Collidable => {},
                }
            }
        }
        r
    }

    /// An empty registry.
    pub fn new() -> (r: Self)
        ensures
            r.wf(),
            r.tag_map() == Map::<Seq<char>, WidgetID>::empty(),
            r.widget_map() == Map::<WidgetID, Widget>::empty(),
            r.spec_indices() == 0,
            forall|c: Capability| (#[trigger] r.membership(c)).len() == 0,
    {
        Self::with_capacity(0, 0, 0)
    }

    /// Position of `k` in the tag vector, if bound.
    fn find_tag(&self, k: &String) -> (r: Option<usize>)
        ensures
            match r {
                Some(i) => i < self.tseq().len() && self.tseq()[i as int].0 == k@,
                None => !has_key(self.tseq(), k@),
            },
    {
        let n = self.tags.len();
        let mut i: usize = 0;
        while i < n
            invariant
                i <= n,
                n == self.tseq().len(),
                forall|j: int| 0 <= j < i ==> (#[trigger] self.tseq()[j]).0 != k@,
            decreases n - i,
        {
            if self.tags[i].0 == *k {
                return Some(i);
            }
            i += 1;
        }
        None
    }

    /// Position of identifier `id` in the store, if present.
    fn find_widget(&self, id: WidgetID) -> (r: Option<usize>)
        ensures
            match r {
                Some(i) => i < self.wseq().len() && self.wseq()[i as int].0 == id,
                None => !has_key(self.wseq(), id),
            },
    {
        let n = self.widgets.len();
        let mut i: usize = 0;
        while i < n
            invariant
                i <= n,
                n == self.wseq().len(),
                forall|j: int| 0 <= j < i ==> (#[trigger] self.wseq()[j]).0 != id,
            decreases n - i,
        {
            if self.widgets[i].0 == id {
                return Some(i);
            }
            i += 1;
        }
        None
    }

    /// Issues the next identifier. Exhaustion of the identifier space is a
    /// caller contract violation; use [`Self::try_next_id`] to detect it.
    pub fn next_id(&mut self) -> (r: WidgetID)
        requires
            old(self).wf(),
            old(self).spec_indices() < usize::MAX,
        ensures
            final(self).wf(),
            r == old(self).spec_indices(),
            final(self).spec_indices() == old(self).spec_indices() + 1,
            final(self).tseq() == old(self).tseq(),
            final(self).wseq() == old(self).wseq(),
            forall|c: Capability| #[trigger] final(self).membership(c) == old(self).membership(c),
    {
        let id = self.indices;
        self.indices = self.indices + 1;
        proof {
            lemma_membership_same(*old(self), *self, Capability::Drawable);
            lemma_membership_same(*old(self), *self, Capability::Callable);
            lemma_membership_same(*old(self), *self, Capability::Collidable);
        }
        id
    }

    /// Issues the next identifier, detecting exhaustion instead of requiring
    /// its absence.
    pub fn try_next_id(&mut self) -> (r: Option<WidgetID>)
        requires
            old(self).wf(),
        ensures
            final(self).wf(),
            old(self).spec_indices() < usize::MAX ==> r == Some(old(self).spec_indices())
                && final(self).spec_indices() == old(self).spec_indices() + 1,
            old(self).spec_indices() == usize::MAX ==> r is None && final(self).spec_indices()
                == old(self).spec_indices(),
            final(self).tseq() == old(self).tseq(),
            final(self).wseq() == old(self).wseq(),
            forall|c: Capability| #[trigger] final(self).membership(c) == old(self).membership(c),
    {
        let r = if self.indices < usize::MAX {
            let id = self.indices;
            self.indices = self.indices + 1;
            Some(id)
        } else {
            None
        };
        proof {
            lemma_membership_same(*old(self), *self, Capability::Drawable);
            lemma_membership_same(*old(self), *self, Capability::Callable);
            lemma_membership_same(*old(self), *self, Capability::Collidable);
        }
        r
    }

    /// How many identifiers have been issued so far.
    pub fn ids(&self) -> (r: usize)
        ensures
            r == self.spec_indices(),
    {
        self.indices
    }

    /// Stores `w` under a fresh identifier, assigning no name and joining no
    /// membership sequence.
    pub fn register(&mut self, w: Widget) -> (id: WidgetID)
        requires
            old(self).wf(),
            old(self).spec_indices() < usize::MAX,
        ensures
            final(self).wf(),
            register_transition(*old(self), *final(self), w, id),
    {
        proof {
            lemma_assoc_map(self.wseq());
        }
        let id = self.next_id();
        let ghost mid = *self;
        self.widgets.push((id, w));
        proof {
            assert forall|l: int| 0 <= l < mid.wseq().len() implies (#[trigger] mid.wseq()[l]).0
                != id by {}
            assert(!has_key(mid.wseq(), id));
            lemma_assoc_push_fresh(mid.wseq(), id, w);
            assert(self.wseq() =~= mid.wseq().push((id, w)));
            assert(!old(self).widget_map().contains_key(id));
            assert forall|c: Capability| #[trigger] self.membership(c)
                == old(self).membership(c) by {
                assert(mid.membership(c) == old(self).membership(c));
            }
            lemma_membership_preserved(*old(self), *self, Capability::Drawable, id, w);
            lemma_membership_preserved(*old(self), *self, Capability::Callable, id, w);
            lemma_membership_preserved(*old(self), *self, Capability::Collidable, id, w);
            assert forall|l: int|
                0 <= l < self.wseq().len() implies (#[trigger] self.wseq()[l]).0
                < self.spec_indices() by {
                if l < self.wseq().len() - 1 {
                    assert(self.wseq()[l] == old(self).wseq()[l]);
                }
            }
        }
        id
    }

    /// Stores `w` under a fresh identifier and, because the object supports
    /// the capability, appends that identifier to the capability's ordered
    /// membership sequence. An object that does not support the capability
    /// is rejected before it enters any sequence and handed back: that check
    /// runs at registration time, not at dispatch time. Rejection allocates
    /// nothing, so only an accepted registration needs identifier space.
    pub fn register_with_capability(&mut self, w: Widget, c: Capability) -> (r: Result<
        WidgetID,
        Widget,
    >)
        requires
            old(self).wf(),
            w.caps.spec_supports(c) ==> old(self).spec_indices() < usize::MAX,
        ensures
            final(self).wf(),
            w.caps.spec_supports(c) ==> r is Ok && member_registered(
                *old(self),
                *final(self),
                w,
                c,
                r->Ok_0,
            ),
            !w.caps.spec_supports(c) ==> r is Err && r->Err_0 == w && *final(self) == *old(self),
    {
        if w.supports(c) {
            let ghost pre = *old(self);
            let id = self.register(w);
            let ghost mid = *self;
            match c {
                Capability::Drawable => self.drawables.push(id),
                Capability::Callable => self.callables.push(id),
                Capability::Collidable => self.collidables.push(id),
            }
            proof {
                assert(self.membership(c) =~= mid.membership(c).push(id));
                assert forall|c2: Capability| c2 != c implies #[trigger] self.membership(c2)
                    == pre.membership(c2) by {
                    assert(self.membership(c2) == mid.membership(c2));
                }
                assert(self.wseq() == mid.wseq() && self.tseq() == mid.tseq());
                lemma_membership_extended(pre, *self, c, id, w);
                assert forall|c2: Capability| c2 != c && pre.membership_ok(c2)
                    implies self.membership_ok(c2) by {
                    assert(self.membership(c2) == mid.membership(c2));
                    assert(mid.membership_ok(c2));
                }
                assert(self.membership_ok(Capability::Drawable));
                assert(self.membership_ok(Capability::Callable));
                assert(self.membership_ok(Capability::Collidable));
            }
            Ok(id)
        } else {
            Err(w)
        }
    }

    /// Stores a drawable object and appends it to the drawable membership
    /// sequence; the capability check has already been promised by the
    /// caller.
    pub fn register_as_drawable(&mut self, w: Widget) -> (id: WidgetID)
        requires
            old(self).wf(),
            old(self).spec_indices() < usize::MAX,
            w.caps.spec_supports(Capability::Drawable),
        ensures
            final(self).wf(),
            member_registered(*old(self), *final(self), w, Capability::Drawable, id),
    {
        match self.register_with_capability(w, Capability::Drawable) {
            Ok(id) => id,
            Err(_) => vstd::pervasive::unreached(),
        }
    }

    /// Binds a human-readable name to an identifier. A name that already
    /// named something is silently rebound — last write wins — and the
    /// previous identifier is returned so accidental overwrite can be
    /// detected. Binding a name neither checks the identifier nor creates
    /// any alias relationship.
    pub fn tag(&mut self, id: WidgetID, tag: String) -> (r: Option<WidgetID>)
        requires
            old(self).wf(),
        ensures
            final(self).wf(),
            final(self).tag_map() == old(self).tag_map().insert(tag@, id),
            final(self).wseq() == old(self).wseq(),
            final(self).spec_indices() == old(self).spec_indices(),
            forall|c: Capability| #[trigger] final(self).membership(c) == old(self).membership(c),
            r == if old(self).tag_map().contains_key(tag@) {
                Some(old(self).tag_map()[tag@])
            } else {
                None::<WidgetID>
            },
    {
        proof {
            lemma_assoc_map(self.tseq());
        }
        let r = match self.find_tag(&tag) {
            Some(pos) => {
                let (_, prev) = self.tags.remove(pos);
                proof {
                    lemma_assoc_remove_at(old(self).tseq(), pos as int);
                    assert(self.tseq() =~= old(self).tseq().remove(pos as int));
                }
                Some(prev)
            },
            None => None,
        };
        let ghost mid = *self;
        self.tags.push((tag, id));
        proof {
            lemma_assoc_map(mid.tseq());
            lemma_assoc_push_fresh(mid.tseq(), tag@, id);
            assert(self.tseq() =~= mid.tseq().push((tag@, id)));
            assert(self.tag_map() =~= old(self).tag_map().insert(tag@, id));
            assert forall|c: Capability| #[trigger] self.membership(c)
                == old(self).membership(c) by {
                assert(self.membership(c) == mid.membership(c));
            }
            lemma_membership_same(*old(self), *self, Capability::Drawable);
            lemma_membership_same(*old(self), *self, Capability::Callable);
            lemma_membership_same(*old(self), *self, Capability::Collidable);
        }
        r
    }

    /// Resolves a name to the object it identifies: name to identifier,
    /// identifier to object. An unknown name and a missing identifier are
    /// both the ordinary absent outcome.
    pub fn get_by_tag(&self, tag: &String) -> (r: Option<&Widget>)
        requires
            self.wf(),
        ensures
            match r {
                Some(w) => self.tag_map().contains_key(tag@) && self.widget_map().contains_key(
                    self.tag_map()[tag@],
                ) && *w == self.widget_map()[self.tag_map()[tag@]],
                None => !self.tag_map().contains_key(tag@) || !self.widget_map().contains_key(
                    self.tag_map()[tag@],
                ),
            },
    {
        proof {
            lemma_assoc_map(self.tseq());
            lemma_assoc_map(self.wseq());
        }
        match self.find_tag(tag) {
            Some(i) => {
                let id = self.tags[i].1;
                match self.find_widget(id) {
                    Some(j) => Some(&self.widgets[j].1),
                    None => None,
                }
            },
            None => None,
        }
    }

    /// Resolves a name and narrows to the requested capability view: the
    /// object comes back only if it supports `c`. An unknown name and an
    /// unsupported capability are both the ordinary absent outcome, never an
    /// error.
    pub fn get_by_tag_with_capability(&self, tag: &String, c: Capability) -> (r: Option<&Widget>)
        requires
            self.wf(),
        ensures
            match r {
                Some(w) => self.tag_map().contains_key(tag@) && self.widget_map().contains_key(
                    self.tag_map()[tag@],
                ) && *w == self.widget_map()[self.tag_map()[tag@]] && w.caps.spec_supports(c),
                None => !self.tag_map().contains_key(tag@) || !self.widget_map().contains_key(
                    self.tag_map()[tag@],
                ) || !self.widget_map()[self.tag_map()[tag@]].caps.spec_supports(c),
            },
    {
        match self.get_by_tag(tag) {
            Some(w) => {
                if w.supports(c) {
                    Some(w)
                } else {
                    None
                }
            },
            None => None,
        }
    }

    /// Resolves a name to its object's drawable view.
    pub fn get_drawable_by_tag(&self, tag: &String) -> (r: Option<&Widget>)
        requires
            self.wf(),
        ensures
            match r {
                Some(w) => self.tag_map().contains_key(tag@) && self.widget_map().contains_key(
                    self.tag_map()[tag@],
                ) && *w == self.widget_map()[self.tag_map()[tag@]] && w.caps.drawable,
                None => !self.tag_map().contains_key(tag@) || !self.widget_map().contains_key(
                    self.tag_map()[tag@],
                ) || !self.widget_map()[self.tag_map()[tag@]].caps.drawable,
            },
    {
        self.get_by_tag_with_capability(tag, Capability::Drawable)
    }

    /// Replaces the object a name resolves to, returning the previous one:
    /// the mutable counterpart of [`Self::get_by_tag`], phrased as a swap so
    /// the store never lends its contents out. The replacement must support
    /// every capability the identifier is a member of, or the membership
    /// sequences would lie about their objects. An unresolvable name
    /// replaces nothing.
    pub fn replace_by_tag(&mut self, tag: &String, w: Widget) -> (r: Option<Widget>)
        requires
            old(self).wf(),
            old(self).tag_map().contains_key(tag@) && old(self).widget_map().contains_key(
                old(self).tag_map()[tag@],
            ) ==> forall|c: Capability|
                (#[trigger] old(self).membership(c)).contains(old(self).tag_map()[tag@])
                    ==> w.caps.spec_supports(c),
        ensures
            final(self).wf(),
            final(self).tseq() == old(self).tseq(),
            final(self).spec_indices() == old(self).spec_indices(),
            forall|c: Capability| #[trigger] final(self).membership(c) == old(self).membership(c),
            old(self).tag_map().contains_key(tag@) && old(self).widget_map().contains_key(
                old(self).tag_map()[tag@],
            ) ==> {
                &&& final(self).widget_map() == old(self).widget_map().insert(
                    old(self).tag_map()[tag@],
                    w,
                )
                &&& r == Some(old(self).widget_map()[old(self).tag_map()[tag@]])
            },
            !(old(self).tag_map().contains_key(tag@) && old(self).widget_map().contains_key(
                old(self).tag_map()[tag@],
            )) ==> *final(self) == *old(self) && r is None,
    {
        proof {
            lemma_assoc_map(self.tseq());
            lemma_assoc_map(self.wseq());
        }
        let tpos = match self.find_tag(tag) {
            Some(p) => p,
            None => {
                return None;
            },
        };
        let id = self.tags[tpos].1;
        let wpos = match self.find_widget(id) {
            Some(p) => p,
            None => {
                return None;
            },
        };
        let (_, prev) = self.widgets.remove(wpos);
        self.widgets.push((id, w));
        proof {
            let s0 = old(self).wseq();
            lemma_assoc_remove_at(s0, wpos as int);
            lemma_assoc_push_fresh(s0.remove(wpos as int), id, w);
            assert(self.wseq() =~= s0.remove(wpos as int).push((id, w)));
            assert(self.widget_map() =~= old(self).widget_map().insert(id, w));
            assert forall|l: int|
                0 <= l < self.wseq().len() implies (#[trigger] self.wseq()[l]).0
                < self.spec_indices() by {
                if l < self.wseq().len() - 1 {
                    let l0: int = if l < wpos { l } else { l + 1 };
                    assert(self.wseq()[l] == s0[l0]);
                } else {
                    assert(self.wseq()[l].0 == s0[wpos as int].0);
                }
            }
            assert forall|c: Capability| old(self).membership_ok(c)
                implies self.membership_ok(c) by {
                assert(self.membership(c) == old(self).membership(c));
                assert forall|i: int|
                    0 <= i < self.membership(c).len() implies self.widget_map().contains_key(
                    #[trigger] self.membership(c)[i],
                ) && self.widget_map()[self.membership(c)[i]].caps.spec_supports(c) by {
                    let m = old(self).membership(c)[i];
                    if m == id {
                        assert(old(self).membership(c).contains(id));
                        assert(w.caps.spec_supports(c));
                    }
                }
            }
            assert(self.membership_ok(Capability::Drawable));
            assert(self.membership_ok(Capability::Callable));
            assert(self.membership_ok(Capability::Collidable));
        }
        Some(prev)
    }

    /// How many objects a capability's membership sequence holds.
    pub fn membership_len(&self, c: Capability) -> (r: usize)
        ensures
            r == self.membership(c).len(),
    {
        match c {
            Capability::Drawable => self.drawables.len(),
            Capability::Callable => self.callables.len(),
            Capability::Collidable => self.collidables.len(),
        }
    }

    /// The object at position `i` of a capability's iteration order. On a
    /// well-formed registry every member resolves, so iteration never skips:
    /// a membership entry without a stored object cannot arise through this
    /// interface.
    pub fn with_capability_at(&self, c: Capability, i: usize) -> (r: &Widget)
        requires
            self.wf(),
            i < self.membership(c).len(),
        ensures
            *r == self.widget_map()[self.membership(c)[i as int]],
            r.caps.spec_supports(c),
    {
        proof {
            lemma_assoc_map(self.wseq());
        }
        let id = match c {
            Capability::Drawable => self.drawables[i],
            Capability::Callable => self.callables[i],
            Capability::Collidable => self.collidables[i],
        };
        match self.find_widget(id) {
            Some(j) => &self.widgets[j].1,
            None => vstd::pervasive::unreached(),
        }
    }

    /// The identifier at position `i` of a capability's iteration order.
    pub fn member_at(&self, c: Capability, i: usize) -> (id: WidgetID)
        requires
            i < self.membership(c).len(),
        ensures
            id == self.membership(c)[i as int],
    {
        match c {
            Capability::Drawable => self.drawables[i],
            Capability::Callable => self.callables[i],
            Capability::Collidable => self.collidables[i],
        }
    }

    /// Replaces the object at position `i` of a capability's iteration
    /// order, returning the previous one: the mutable counterpart of
    /// [`Self::with_capability_at`], phrased as a swap so the store never
    /// lends its contents out. Stepping over the positions and swapping at
    /// each visits every member exactly once, in registration order. The
    /// replacement must support every capability that identifier is a
    /// member of.
    pub fn replace_at(&mut self, c: Capability, i: usize, w: Widget) -> (prev: Widget)
        requires
            old(self).wf(),
            i < old(self).membership(c).len(),
            forall|c2: Capability|
                (#[trigger] old(self).membership(c2)).contains(old(self).membership(c)[i as int])
                    ==> w.caps.spec_supports(c2),
        ensures
            final(self).wf(),
            final(self).widget_map() == old(self).widget_map().insert(
                old(self).membership(c)[i as int],
                w,
            ),
            prev == old(self).widget_map()[old(self).membership(c)[i as int]],
            final(self).tseq() == old(self).tseq(),
            final(self).spec_indices() == old(self).spec_indices(),
            forall|c2: Capability| #[trigger] final(self).membership(c2) == old(self).membership(
                c2,
            ),
    {
        proof {
            lemma_assoc_map(self.wseq());
        }
        let id = self.member_at(c, i);
        let wpos = match self.find_widget(id) {
            Some(p) => p,
            None => vstd::pervasive::unreached(),
        };
        let (_, prev) = self.widgets.remove(wpos);
        self.widgets.push((id, w));
        proof {
            let s0 = old(self).wseq();
            lemma_assoc_remove_at(s0, wpos as int);
            lemma_assoc_push_fresh(s0.remove(wpos as int), id, w);
            assert(self.wseq() =~= s0.remove(wpos as int).push((id, w)));
            assert(self.widget_map() =~= old(self).widget_map().insert(id, w));
            assert forall|l: int|
                0 <= l < self.wseq().len() implies (#[trigger] self.wseq()[l]).0
                < self.spec_indices() by {
                if l < self.wseq().len() - 1 {
                    let l0: int = if l < wpos { l } else { l + 1 };
                    assert(self.wseq()[l] == s0[l0]);
                } else {
                    assert(self.wseq()[l].0 == s0[wpos as int].0);
                }
            }
            assert forall|c2: Capability| old(self).membership_ok(c2)
                implies self.membership_ok(c2) by {
                assert(self.membership(c2) == old(self).membership(c2));
                assert forall|k: int|
                    0 <= k < self.membership(c2).len() implies self.widget_map().contains_key(
                    #[trigger] self.membership(c2)[k],
                ) && self.widget_map()[self.membership(c2)[k]].caps.spec_supports(c2) by {
                    let m = old(self).membership(c2)[k];
                    if m == id {
                        assert(old(self).membership(c2).contains(id));
                        assert(w.caps.spec_supports(c2));
                    }
                }
            }
            assert(self.membership_ok(Capability::Drawable));
            assert(self.membership_ok(Capability::Callable));
            assert(self.membership_ok(Capability::Collidable));
        }
        prev
    }

    /// How many objects the drawable iteration covers.
    pub fn drawables_len(&self) -> (r: usize)
        ensures
            r == self.membership(Capability::Drawable).len(),
    {
        self.drawables.len()
    }

    /// The drawable object at position `i` of the drawable iteration order.
    pub fn drawable_at(&self, i: usize) -> (r: &Widget)
        requires
            self.wf(),
            i < self.membership(Capability::Drawable).len(),
        ensures
            *r == self.widget_map()[self.membership(Capability::Drawable)[i as int]],
            r.caps.drawable,
    {
        self.with_capability_at(Capability::Drawable, i)
    }
}

impl Default for UiWidgets {
    /// An empty registry.
    fn default() -> (r: Self)
        ensures
            r.wf(),
            r.tag_map() == Map::<Seq<char>, WidgetID>::empty(),
            r.widget_map() == Map::<WidgetID, Widget>::empty(),
            r.spec_indices() == 0,
            forall|c: Capability| (#[trigger] r.membership(c)).len() == 0,
    {
        Self::new()
    }
}

/// What `register` does: the issued identifier is the allocator's value and
/// is fresh, the object is stored under it, and names, memberships and
/// everything else stay as they were.
pub open spec fn register_transition(
    pre: UiWidgets,
    post: UiWidgets,
    w: Widget,
    id: WidgetID,
) -> bool {
    &&& id == pre.spec_indices()
    &&& !pre.widget_map().contains_key(id)
    &&& post.spec_indices() == pre.spec_indices() + 1
    &&& post.widget_map() == pre.widget_map().insert(id, w)
    &&& post.tag_map() == pre.tag_map()
    &&& forall|c: Capability| #[trigger] post.membership(c) == pre.membership(c)
}

/// What a successful capability registration does: a plain registration,
/// plus the fresh identifier appended to exactly the one membership
/// sequence of the capability.
pub open spec fn member_registered(
    pre: UiWidgets,
    post: UiWidgets,
    w: Widget,
    c: Capability,
    id: WidgetID,
) -> bool {
    &&& id == pre.spec_indices()
    &&& !pre.widget_map().contains_key(id)
    &&& post.spec_indices() == pre.spec_indices() + 1
    &&& post.widget_map() == pre.widget_map().insert(id, w)
    &&& post.tag_map() == pre.tag_map()
    &&& post.membership(c) == pre.membership(c).push(id)
    &&& forall|c2: Capability| c2 != c ==> #[trigger] post.membership(c2) == pre.membership(c2)
}

/// A membership sequence stays sound when a fresh object is stored and the
/// sequence itself does not change.
proof fn lemma_membership_preserved(
    pre: UiWidgets,
    post: UiWidgets,
    c: Capability,
    id: WidgetID,
    w: Widget,
)
    requires
        pre.membership_ok(c),
        post.membership(c) == pre.membership(c),
        post.widget_map() == pre.widget_map().insert(id, w),
        !pre.widget_map().contains_key(id),
    ensures
        post.membership_ok(c),
{
    assert forall|i: int|
        0 <= i < post.membership(c).len() implies post.widget_map().contains_key(
        #[trigger] post.membership(c)[i],
    ) && post.widget_map()[post.membership(c)[i]].caps.spec_supports(c) by {
        assert(pre.membership(c)[i] != id);
    }
}

/// A membership sequence stays sound when a fresh supporting object is
/// stored and its identifier is appended to the sequence.
proof fn lemma_membership_extended(
    pre: UiWidgets,
    post: UiWidgets,
    c: Capability,
    id: WidgetID,
    w: Widget,
)
    requires
        pre.membership_ok(c),
        post.membership(c) == pre.membership(c).push(id),
        post.widget_map() == pre.widget_map().insert(id, w),
        !pre.widget_map().contains_key(id),
        w.caps.spec_supports(c),
    ensures
        post.membership_ok(c),
{
    assert forall|i: int, j: int|
        0 <= i < j < post.membership(c).len() implies post.membership(c)[i] != post.membership(
        c,
    )[j] by {
        if j == post.membership(c).len() - 1 {
            assert(post.membership(c)[i] == pre.membership(c)[i]);
            assert(pre.widget_map().contains_key(pre.membership(c)[i]));
        } else {
            assert(post.membership(c)[i] == pre.membership(c)[i]);
            assert(post.membership(c)[j] == pre.membership(c)[j]);
        }
    }
    assert forall|i: int|
        0 <= i < post.membership(c).len() implies post.widget_map().contains_key(
        #[trigger] post.membership(c)[i],
    ) && post.widget_map()[post.membership(c)[i]].caps.spec_supports(c) by {
        if i < post.membership(c).len() - 1 {
            assert(post.membership(c)[i] == pre.membership(c)[i]);
            assert(pre.membership(c)[i] != id);
        } else {
            assert(post.membership(c)[i] == id);
        }
    }
}

/// A membership sequence stays sound when neither it nor the store changes.
proof fn lemma_membership_same(pre: UiWidgets, post: UiWidgets, c: Capability)
    requires
        pre.membership_ok(c),
        post.membership(c) == pre.membership(c),
        post.wseq() == pre.wseq(),
    ensures
        post.membership_ok(c),
{
}

/// Identifiers issued by successive registrations are strictly increasing,
/// so every registered object keeps a unique identifier, and both stay
/// stored.
pub proof fn lemma_register_ids_strictly_increase(
    r0: UiWidgets,
    r1: UiWidgets,
    r2: UiWidgets,
    w1: Widget,
    w2: Widget,
    id1: WidgetID,
    id2: WidgetID,
)
    requires
        register_transition(r0, r1, w1, id1),
        register_transition(r1, r2, w2, id2),
    ensures
        id1 < id2,
        r2.widget_map().contains_key(id1),
        r2.widget_map().contains_key(id2),
        r2.widget_map()[id1] == w1,
        r2.widget_map()[id2] == w2,
{
}

/// Capability-filtered iteration visits every member of the capability's
/// sequence exactly once, in registration order, and each visit lands on a
/// stored object that supports the capability.
pub proof fn lemma_capability_iteration(r: UiWidgets, c: Capability)
    requires
        r.wf(),
    ensures
        forall|i: int, j: int|
            0 <= i < j < r.membership(c).len() ==> r.membership(c)[i] != r.membership(c)[j],
        forall|i: int|
            0 <= i < r.membership(c).len() ==> r.widget_map().contains_key(
                #[trigger] r.membership(c)[i],
            ) && r.widget_map()[r.membership(c)[i]].caps.spec_supports(c),
{
}

} // verus!
