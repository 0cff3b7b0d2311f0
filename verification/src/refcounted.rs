//! Reference-counted engine objects.
//!
//! The engine allocates capability tables as refcounted objects whose first
//! field is a control block (`add_ref` / `release`). This module models that
//! heap explicitly: a [`Registry`] holds one instrumented [`ControlBlock`] per
//! object, and a [`RefCountedPtr`] is the host-owned handle that stands for
//! exactly one reference to one object. Freed objects keep their control block
//! as a tombstone with reference count zero, so the counters over an object's
//! full lifetime stay observable.

use vstd::prelude::*;

verus! {

/// The capability categories a composite client exposes, plus the client
/// table itself. Every table object carries the kind it was allocated for.
#[derive(Clone, Copy, PartialEq, Eq, Structural, Debug)]
pub enum HandlerKind {
    Audio,
    ContextMenu,
    Dialog,
    Display,
    Download,
    Drag,
    Find,
    Focus,
    JsDialog,
    Keyboard,
    LifeSpan,
    Load,
    Render,
    Request,
    Client,
}

/// One engine object's control block, instrumented with how many add-ref and
/// release calls it has served. Allocation counts as the first add-ref: it
/// hands the creator one implicit reference.
pub struct ControlBlock {
    pub kind: HandlerKind,
    pub ref_count: u64,
    pub add_ref_calls: u64,
    pub release_calls: u64,
}

/// The engine-side heap of refcounted table objects.
pub struct Registry {
    pub blocks: Vec<ControlBlock>,
}

/// A raw, possibly null table pointer as it crosses the boundary. A non-null
/// pointer carries one reference that the receiver must eventually release.
#[derive(Clone, Copy, PartialEq, Eq, Structural, Debug)]
pub struct TablePtr {
    pub addr: usize,
}

/// A host-owned handle standing for exactly one reference to one engine
/// object. It is deliberately not `Clone`: a new reference is only had from
/// [`RefCountedPtr::clone_ref`], which increments the engine-side count, and a
/// reference is only given up by the consuming [`RefCountedPtr::release`] or
/// [`RefCountedPtr::into_raw`].
pub struct RefCountedPtr {
    pub id: usize,
}

impl Registry {
    /// Every control block balances: the reference count is exactly the
    /// add-ref calls served minus the release calls served.
    pub open spec fn wf(self) -> bool {
        forall|i: int| 0 <= i < self.blocks@.len() ==> {
            &&& (#[trigger] self.blocks@[i]).release_calls <= self.blocks@[i].add_ref_calls
            &&& self.blocks@[i].ref_count == self.blocks@[i].add_ref_calls
                - self.blocks@[i].release_calls
        }
    }

    /// The object `id` exists and still holds at least one reference.
    pub open spec fn live(self, id: int) -> bool {
        &&& 0 <= id < self.blocks@.len()
        &&& self.blocks@[id].ref_count > 0
    }

    pub open spec fn kind_of(self, id: int) -> HandlerKind {
        self.blocks@[id].kind
    }

    pub fn new() -> (r: Registry)
        ensures
            r.wf(),
            r.blocks@.len() == 0,
    {
        Registry { blocks: Vec::new() }
    }

    /// Releases the reference carried by a raw non-null table pointer, as the
    /// engine does through the object's control block.
    pub fn release_raw(&mut self, p: TablePtr)
        requires
            old(self).wf(),
            p.addr != 0,
            old(self).live(p.addr - 1),
            old(self).blocks@[p.addr - 1].release_calls < u64::MAX,
        ensures
            final(self).wf(),
            final(self).blocks@ == old(self).blocks@.update(
                p.addr - 1,
                ControlBlock {
                    ref_count: (old(self).blocks@[p.addr - 1].ref_count - 1) as u64,
                    release_calls: (old(self).blocks@[p.addr - 1].release_calls + 1) as u64,
                    ..old(self).blocks@[p.addr - 1]
                },
            ),
    {
        let i = p.addr - 1;
        let b = &mut self.blocks[i];
        b.ref_count = b.ref_count - 1;
        b.release_calls = b.release_calls + 1;
    }
}

impl RefCountedPtr {
    /// Allocates a fresh table object of the given kind and returns the
    /// handle for its creation reference. The allocation itself is the
    /// object's first add-ref.
    pub fn wrap(reg: &mut Registry, kind: HandlerKind) -> (p: RefCountedPtr)
        requires
            old(reg).wf(),
        ensures
            final(reg).wf(),
            p.id == old(reg).blocks@.len(),
            final(reg).blocks@ == old(reg).blocks@.push(
                ControlBlock { kind, ref_count: 1, add_ref_calls: 1, release_calls: 0 },
            ),
            final(reg).live(p.id as int),
            final(reg).kind_of(p.id as int) == kind,
    {
        let id = reg.blocks.len();
        reg.blocks.push(ControlBlock { kind, ref_count: 1, add_ref_calls: 1, release_calls: 0 });
        RefCountedPtr { id }
    }

    /// A second handle to the same object: increments the engine-side count.
    pub fn clone_ref(&self, reg: &mut Registry) -> (p: RefCountedPtr)
        requires
            old(reg).wf(),
            old(reg).live(self.id as int),
            old(reg).blocks@[self.id as int].add_ref_calls < u64::MAX,
        ensures
            final(reg).wf(),
            p.id == self.id,
            final(reg).blocks@ == old(reg).blocks@.update(
                self.id as int,
                ControlBlock {
                    ref_count: (old(reg).blocks@[self.id as int].ref_count + 1) as u64,
                    add_ref_calls: (old(reg).blocks@[self.id as int].add_ref_calls + 1) as u64,
                    ..old(reg).blocks@[self.id as int]
                },
            ),
            final(reg).live(p.id as int),
    {
        let i = self.id;
        let b = &mut reg.blocks[i];
        b.ref_count = b.ref_count + 1;
        b.add_ref_calls = b.add_ref_calls + 1;
        RefCountedPtr { id: self.id }
    }

    /// Gives this handle's reference up, decrementing the engine-side count.
    /// The handle is consumed: a released reference cannot be used again.
    pub fn release(self, reg: &mut Registry)
        requires
            old(reg).wf(),
            old(reg).live(self.id as int),
            old(reg).blocks@[self.id as int].release_calls < u64::MAX,
        ensures
            final(reg).wf(),
            final(reg).blocks@ == old(reg).blocks@.update(
                self.id as int,
                ControlBlock {
                    ref_count: (old(reg).blocks@[self.id as int].ref_count - 1) as u64,
                    release_calls: (old(reg).blocks@[self.id as int].release_calls + 1) as u64,
                    ..old(reg).blocks@[self.id as int]
                },
            ),
    {
        let i = self.id;
        let b = &mut reg.blocks[i];
        b.ref_count = b.ref_count - 1;
        b.release_calls = b.release_calls + 1;
    }

    /// Reconstitutes the handle whose reference a raw non-null pointer
    /// carries: the inverse of [`RefCountedPtr::into_raw`], used when a
    /// freshly built table is handed off. Nothing is incremented, and no
    /// validity is checked beyond non-nullness.
    pub fn from_ptr_unchecked(t: TablePtr) -> (p: RefCountedPtr)
        requires
            t.addr != 0,
        ensures
            p.id == t.addr - 1,
    {
        RefCountedPtr { id: t.addr - 1 }
    }

    /// Converts the handle into the raw pointer handed across the boundary.
    /// The reference travels with the pointer: nothing is decremented.
    pub fn into_raw(self) -> (t: TablePtr)
        requires
            self.id < usize::MAX,
        ensures
            t.addr == self.id + 1,
            t.addr != 0,
    {
        TablePtr { addr: self.id + 1 }
    }
}

impl TablePtr {
    /// The null pointer: "no handler", telling the engine to use its default
    /// behaviour.
    pub fn null() -> (t: TablePtr)
        ensures
            t.addr == 0,
    {
        TablePtr { addr: 0 }
    }

    pub fn is_null(&self) -> (r: bool)
        ensures
            r == (self.addr == 0),
    {
        self.addr == 0
    }
}

/// Reference counting balances over an object's full lifetime: once its
/// reference count has dropped to zero, its instrumented control block has
/// served exactly as many release calls as add-ref calls.
pub proof fn lemma_refcount_balance(reg: Registry, i: int)
    requires
        reg.wf(),
        0 <= i < reg.blocks@.len(),
        reg.blocks@[i].ref_count == 0,
    ensures
        reg.blocks@[i].add_ref_calls == reg.blocks@[i].release_calls,
{
}

} // verus!
