//! Objects stored by the registry, and the closed set of optional
//! capabilities one of them may support. Whether an instance supports a
//! capability is a static fact of the instance, answered by a dynamic query —
//! never assumed from where the object happens to be stored — because one
//! object may support several capabilities at once.

use vstd::prelude::*;

verus! {

/// One of the optional behavioural interfaces an object may support.
#[derive(Debug, Clone, Copy, PartialEq, Eq, Structural)]
pub enum Capability {
    Drawable,
    Callable,
    Collidable,
}

/// The capability answers of one object. A collidable object is always
/// drawable: collision handling is an extension of the drawable interface.
#[derive(Debug, Clone, Copy, PartialEq, Eq, Structural)]
pub struct Capabilities {
    pub drawable: bool,
    pub callable: bool,
    pub collidable: bool,
}

impl Capabilities {
    /// The capability hierarchy is respected.
    pub open spec fn wf(self) -> bool {
        self.collidable ==> self.drawable
    }

    /// Whether capability `c` is supported.
    pub open spec fn spec_supports(self, c: Capability) -> bool {
        match c {
            Capability::Drawable => self.drawable,
            Capability::Callable => self.callable,
            Capability::Collidable => self.collidable,
        }
    }

    /// Supports nothing beyond the base interface.
    pub fn none() -> (r: Self)
        ensures
            r == (Capabilities { drawable: false, callable: false, collidable: false }),
    {
        Capabilities { drawable: false, callable: false, collidable: false }
    }

    /// Supports exactly the drawable interface.
    pub fn drawable() -> (r: Self)
        ensures
            r == (Capabilities { drawable: true, callable: false, collidable: false }),
    {
        Capabilities { drawable: true, callable: false, collidable: false }
    }

    /// Supports exactly the callable interface.
    pub fn callable() -> (r: Self)
        ensures
            r == (Capabilities { drawable: false, callable: true, collidable: false }),
    {
        Capabilities { drawable: false, callable: true, collidable: false }
    }

    /// Supports the collidable interface, and with it the drawable one.
    pub fn collidable() -> (r: Self)
        ensures
            r == (Capabilities { drawable: true, callable: false, collidable: true }),
    {
        Capabilities { drawable: true, callable: false, collidable: true }
    }

    /// Dynamic capability query.
    pub fn supports(&self, c: Capability) -> (r: bool)
        ensures
            r == self.spec_supports(c),
    {
        match c {
            Capability::Drawable => self.drawable,
            Capability::Callable => self.callable,
            Capability::Collidable => self.collidable,
        }
    }
}

/// One stored object: a base identity every object has, a capability set,
/// and the per-capability state the optional interfaces read and write.
#[derive(Debug, Clone)]
pub struct Widget {
    pub id: String,
    pub caps: Capabilities,
    pub visible: bool,
    pub ready: bool,
    pub locked: bool,
}

impl Widget {
    /// A fresh object: hidden, not ready, unlocked.
    pub fn new(id: String, caps: Capabilities) -> (r: Widget)
        ensures
            r.id@ == id@,
            r.caps == caps,
            !r.visible,
            !r.ready,
            !r.locked,
    {
        Widget { id, caps, visible: false, ready: false, locked: false }
    }

    /// The base identity every stored object answers.
    pub fn get_id(&self) -> (r: &String)
        ensures
            r@ == self.id@,
    {
        &self.id
    }

    /// Dynamic capability query: the registry narrows through this, never
    /// through where the object is stored.
    pub fn supports(&self, c: Capability) -> (r: bool)
        ensures
            r == self.caps.spec_supports(c),
    {
        self.caps.supports(c)
    }

    /// Drawable state: whether rendering would draw this object.
    pub fn visible(&self) -> (r: bool)
        ensures
            r == self.visible,
    {
        self.visible
    }

    /// Makes the object visible.
    pub fn show(&mut self)
        ensures
            *final(self) == (Widget { visible: true, ..*old(self) }),
    {
        self.visible = true;
    }

    /// Hides the object.
    pub fn conceal(&mut self)
        ensures
            *final(self) == (Widget { visible: false, ..*old(self) }),
    {
        self.visible = false;
    }

    /// Flips visibility.
    pub fn toggle_visibility(&mut self)
        ensures
            *final(self) == (Widget { visible: !old(self).visible, ..*old(self) }),
    {
        self.visible = !self.visible;
    }

    /// Callable state: whether a call would run.
    pub fn is_ready(&self) -> (r: bool)
        ensures
            r == self.ready,
    {
        self.ready
    }

    /// Arms the callable state.
    pub fn ready(&mut self)
        ensures
            *final(self) == (Widget { ready: true, ..*old(self) }),
    {
        self.ready = true;
    }

    /// Disarms the callable state.
    pub fn unready(&mut self)
        ensures
            *final(self) == (Widget { ready: false, ..*old(self) }),
    {
        self.ready = false;
    }

    /// Flips the callable state.
    pub fn toggle_ready(&mut self)
        ensures
            *final(self) == (Widget { ready: !old(self).ready, ..*old(self) }),
    {
        self.ready = !self.ready;
    }

    /// Collidable state: whether interaction is currently refused.
    pub fn locked(&self) -> (r: bool)
        ensures
            r == self.locked,
    {
        self.locked
    }

    /// Refuses interaction until unlocked.
    pub fn lock(&mut self)
        ensures
            *final(self) == (Widget { locked: true, ..*old(self) }),
    {
        self.locked = true;
    }

    /// Accepts interaction again.
    pub fn unlock(&mut self)
        ensures
            *final(self) == (Widget { locked: false, ..*old(self) }),
    {
        self.locked = false;
    }

    /// Flips the interaction lock.
    pub fn toggle_lock(&mut self)
        ensures
            *final(self) == (Widget { locked: !old(self).locked, ..*old(self) }),
    {
        self.locked = !self.locked;
    }
}

} // verus!
