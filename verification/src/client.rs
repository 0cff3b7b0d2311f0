//! The composite client handler and its dispatch bridge.
//!
//! A host application implements [`ClientCallbacks`]; [`ClientWrapper::wrap`]
//! turns that implementation into a refcounted client table the engine can
//! call back into. Each accessor on [`Client`] is the trampoline behind one
//! entry of that table: it asks the callbacks for the optional sub-handler of
//! one category and translates the answer to the boundary's convention — a
//! present handler crosses as a non-null table pointer carrying one reference,
//! an absent one crosses as exactly the null pointer, which tells the engine
//! to fall back to its default behaviour.

use crate::refcounted::{ControlBlock, HandlerKind, RefCountedPtr, Registry, TablePtr};
use vstd::prelude::*;

verus! {

/// A host-held sub-handler of one capability category: the handle to a
/// refcounted table object of that category's kind.
pub struct Handler {
    pub kind: HandlerKind,
    pub ptr: RefCountedPtr,
}

pub type AudioHandler = Handler;

pub type ContextMenuHandler = Handler;

pub type DialogHandler = Handler;

pub type DisplayHandler = Handler;

pub type DownloadHandler = Handler;

pub type DragHandler = Handler;

pub type FindHandler = Handler;

pub type FocusHandler = Handler;

pub type JsDialogHandler = Handler;

pub type KeyboardHandler = Handler;

pub type LifeSpanHandler = Handler;

pub type LoadHandler = Handler;

pub type RenderHandler = Handler;

pub type RequestHandler = Handler;

impl Handler {
    /// The handle points at a live object of this handler's own kind.
    pub open spec fn wf(self, reg: Registry) -> bool {
        &&& reg.live(self.ptr.id as int)
        &&& reg.kind_of(self.ptr.id as int) == self.kind
        &&& self.ptr.id < usize::MAX
    }

    /// Allocates the table object behind a sub-handler of the given kind.
    pub fn new(reg: &mut Registry, kind: HandlerKind) -> (h: Handler)
        requires
            old(reg).wf(),
        ensures
            final(reg).wf(),
            h.wf(*final(reg)),
            h.kind == kind,
            h.ptr.id == old(reg).blocks@.len(),
            final(reg).blocks@ == old(reg).blocks@.push(
                ControlBlock { kind, ref_count: 1, add_ref_calls: 1, release_calls: 0 },
            ),
            final(reg).blocks@.len() == old(reg).blocks@.len() + 1,
            final(reg).blocks@.subrange(0, old(reg).blocks@.len() as int) == old(reg).blocks@,
    {
        let ptr = RefCountedPtr::wrap(reg, kind);
        proof {
            vstd::std_specs::vec::axiom_spec_len(&reg.blocks);
            assert(final(reg).blocks@.subrange(0, old(reg).blocks@.len() as int)
                =~= old(reg).blocks@);
        }
        Handler { kind, ptr }
    }
}

/// The processes of the embedding model that can originate a message.
#[derive(Clone, Copy, PartialEq, Eq, Structural, Debug)]
pub enum ProcessId {
    Browser,
    Renderer,
}

/// An engine-owned browser passed through a callback unchanged.
pub struct Browser {
    pub id: usize,
}

/// An engine-owned frame passed through a callback unchanged.
pub struct Frame {
    pub id: usize,
}

/// An engine-owned inter-process message passed through a callback unchanged.
pub struct ProcessMessage {
    pub id: usize,
}

/// Implement this trait to provide handler implementations. Every accessor
/// defaults to absent and the message event defaults to unhandled, so a
/// minimal implementation overrides only what it needs. An accessor that does
/// return a handler must return a live one of its own category.
pub trait ClientCallbacks: Sized + Send + Sync + 'static {
    /// Return the handler for audio rendering events.
    fn get_audio_handler(&self, reg: &mut Registry) -> (r: Option<AudioHandler>)
        requires
            old(reg).wf(),
        ensures
            final(reg).wf(),
            old(reg).blocks@.len() <= final(reg).blocks@.len(),
            r matches Some(h) ==> h.wf(*final(reg)) && h.kind == HandlerKind::Audio,
    {
        None
    }

    /// Return the handler for context menus. If no handler is provided the
    /// engine default implementation will be used.
    fn get_context_menu_handler(&self, reg: &mut Registry) -> (r: Option<ContextMenuHandler>)
        requires
            old(reg).wf(),
        ensures
            final(reg).wf(),
            old(reg).blocks@.len() <= final(reg).blocks@.len(),
            r matches Some(h) ==> h.wf(*final(reg)) && h.kind == HandlerKind::ContextMenu,
    {
        None
    }

    /// Return the handler for dialogs. If no handler is provided the engine
    /// default implementation will be used.
    fn get_dialog_handler(&self, reg: &mut Registry) -> (r: Option<DialogHandler>)
        requires
            old(reg).wf(),
        ensures
            final(reg).wf(),
            old(reg).blocks@.len() <= final(reg).blocks@.len(),
            r matches Some(h) ==> h.wf(*final(reg)) && h.kind == HandlerKind::Dialog,
    {
        None
    }

    /// Return the handler for browser display state events.
    fn get_display_handler(&self, reg: &mut Registry) -> (r: Option<DisplayHandler>)
        requires
            old(reg).wf(),
        ensures
            final(reg).wf(),
            old(reg).blocks@.len() <= final(reg).blocks@.len(),
            r matches Some(h) ==> h.wf(*final(reg)) && h.kind == HandlerKind::Display,
    {
        None
    }

    /// Return the handler for download events. If no handler is returned
    /// downloads will not be allowed.
    fn get_download_handler(&self, reg: &mut Registry) -> (r: Option<DownloadHandler>)
        requires
            old(reg).wf(),
        ensures
            final(reg).wf(),
            old(reg).blocks@.len() <= final(reg).blocks@.len(),
            r matches Some(h) ==> h.wf(*final(reg)) && h.kind == HandlerKind::Download,
    {
        None
    }

    /// Return the handler for drag events.
    fn get_drag_handler(&self, reg: &mut Registry) -> (r: Option<DragHandler>)
        requires
            old(reg).wf(),
        ensures
            final(reg).wf(),
            old(reg).blocks@.len() <= final(reg).blocks@.len(),
            r matches Some(h) ==> h.wf(*final(reg)) && h.kind == HandlerKind::Drag,
    {
        None
    }

    /// Return the handler for find result events.
    fn get_find_handler(&self, reg: &mut Registry) -> (r: Option<FindHandler>)
        requires
            old(reg).wf(),
        ensures
            final(reg).wf(),
            old(reg).blocks@.len() <= final(reg).blocks@.len(),
            r matches Some(h) ==> h.wf(*final(reg)) && h.kind == HandlerKind::Find,
    {
        None
    }

    /// Return the handler for focus events.
    fn get_focus_handler(&self, reg: &mut Registry) -> (r: Option<FocusHandler>)
        requires
            old(reg).wf(),
        ensures
            final(reg).wf(),
            old(reg).blocks@.len() <= final(reg).blocks@.len(),
            r matches Some(h) ==> h.wf(*final(reg)) && h.kind == HandlerKind::Focus,
    {
        None
    }

    /// Return the handler for JavaScript dialogs. If no handler is provided
    /// the engine default implementation will be used.
    fn get_jsdialog_handler(&self, reg: &mut Registry) -> (r: Option<JsDialogHandler>)
        requires
            old(reg).wf(),
        ensures
            final(reg).wf(),
            old(reg).blocks@.len() <= final(reg).blocks@.len(),
            r matches Some(h) ==> h.wf(*final(reg)) && h.kind == HandlerKind::JsDialog,
    {
        None
    }

    /// Return the handler for keyboard events.
    fn get_keyboard_handler(&self, reg: &mut Registry) -> (r: Option<KeyboardHandler>)
        requires
            old(reg).wf(),
        ensures
            final(reg).wf(),
            old(reg).blocks@.len() <= final(reg).blocks@.len(),
            r matches Some(h) ==> h.wf(*final(reg)) && h.kind == HandlerKind::Keyboard,
    {
        None
    }

    /// Return the handler for browser life span events.
    fn get_life_span_handler(&self, reg: &mut Registry) -> (r: Option<LifeSpanHandler>)
        requires
            old(reg).wf(),
        ensures
            final(reg).wf(),
            old(reg).blocks@.len() <= final(reg).blocks@.len(),
            r matches Some(h) ==> h.wf(*final(reg)) && h.kind == HandlerKind::LifeSpan,
    {
        None
    }

    /// Return the handler for browser load status events.
    fn get_load_handler(&self, reg: &mut Registry) -> (r: Option<LoadHandler>)
        requires
            old(reg).wf(),
        ensures
            final(reg).wf(),
            old(reg).blocks@.len() <= final(reg).blocks@.len(),
            r matches Some(h) ==> h.wf(*final(reg)) && h.kind == HandlerKind::Load,
    {
        None
    }

    /// Return the handler for off-screen rendering events.
    fn get_render_handler(&self, reg: &mut Registry) -> (r: Option<RenderHandler>)
        requires
            old(reg).wf(),
        ensures
            final(reg).wf(),
            old(reg).blocks@.len() <= final(reg).blocks@.len(),
            r matches Some(h) ==> h.wf(*final(reg)) && h.kind == HandlerKind::Render,
    {
        None
    }

    /// Return the handler for browser request events.
    fn get_request_handler(&self, reg: &mut Registry) -> (r: Option<RequestHandler>)
        requires
            old(reg).wf(),
        ensures
            final(reg).wf(),
            old(reg).blocks@.len() <= final(reg).blocks@.len(),
            r matches Some(h) ==> h.wf(*final(reg)) && h.kind == HandlerKind::Request,
    {
        None
    }

    /// Called when a new message is received from a different process. Return
    /// true if the message was handled or false otherwise.
    fn on_process_message_received(
        &self,
        reg: &mut Registry,
        browser: Browser,
        frame: Frame,
        message: ProcessMessage,
    ) -> (r: bool)
        requires
            old(reg).wf(),
        ensures
            final(reg).wf(),
            old(reg).blocks@.len() <= final(reg).blocks@.len(),
    {
        false
    }
}

/// The negotiation rule at the boundary: an absent sub-handler crosses as
/// exactly the null table pointer, a present one as the non-null pointer that
/// carries the handler's reference onward.
pub fn table_or_null(opt: Option<Handler>) -> (r: TablePtr)
    requires
        opt matches Some(h) ==> h.ptr.id < usize::MAX,
    ensures
        (r.addr == 0) <==> (opt is None),
        opt matches Some(h) ==> r.addr == h.ptr.id + 1,
{
    match opt {
        Some(h) => h.ptr.into_raw(),
        None => TablePtr::null(),
    }
}

/// The boundary encoding of a handled flag: a true answer crosses as exactly
/// 1, a false one as exactly 0. Every message trampoline translates through
/// here, so its integer answer is the handler's boolean and nothing else.
pub fn handled_to_abi(handled: bool) -> (r: i32)
    ensures
        r == if handled {
            1i32
        } else {
            0i32
        },
{
    if handled {
        1
    } else {
        0
    }
}

/// The pairing of a host callbacks implementation with the client table
/// built over it. The dispatch bridge recovers the concrete implementation
/// from here when the engine calls back.
pub struct ClientWrapper<C: ClientCallbacks> {
    pub delegate: C,
}

impl<C: ClientCallbacks> ClientWrapper<C> {
    pub fn new(delegate: C) -> (w: ClientWrapper<C>)
        ensures
            w.delegate == delegate,
    {
        ClientWrapper { delegate }
    }

    /// Recovers the concrete callbacks implementation registered behind this
    /// wrapper. Recovery of a different concrete type than the one registered
    /// is "no match"; with the registration typed, that case is ruled out
    /// here, so recovery always succeeds.
    pub fn get_client(&self) -> (r: Option<&C>)
        ensures
            r == Some(&self.delegate),
    {
        Some(&self.delegate)
    }

    /// Builds the refcounted client table over this wrapper. The returned
    /// client owns the table's creation reference.
    pub fn wrap(self, reg: &mut Registry) -> (c: Client<C>)
        requires
            old(reg).wf(),
        ensures
            final(reg).wf(),
            c.wrapper.delegate == self.delegate,
            c.ptr.id == old(reg).blocks@.len(),
            final(reg).blocks@ == old(reg).blocks@.push(
                ControlBlock {
                    kind: HandlerKind::Client,
                    ref_count: 1,
                    add_ref_calls: 1,
                    release_calls: 0,
                },
            ),
            final(reg).live(c.ptr.id as int),
            final(reg).kind_of(c.ptr.id as int) == HandlerKind::Client,
    {
        let ptr = RefCountedPtr::wrap(reg, HandlerKind::Client);
        Client { wrapper: self, ptr }
    }
}

/// A client: the host-side handle to the client table, paired with the
/// wrapper the table dispatches into.
pub struct Client<C: ClientCallbacks> {
    pub wrapper: ClientWrapper<C>,
    pub ptr: RefCountedPtr,
}

impl<C: ClientCallbacks> Client<C> {
    pub fn new(reg: &mut Registry, callbacks: C) -> (c: Client<C>)
        requires
            old(reg).wf(),
        ensures
            final(reg).wf(),
            c.wrapper.delegate == callbacks,
            c.ptr.id == old(reg).blocks@.len(),
            final(reg).blocks@ == old(reg).blocks@.push(
                ControlBlock {
                    kind: HandlerKind::Client,
                    ref_count: 1,
                    add_ref_calls: 1,
                    release_calls: 0,
                },
            ),
            final(reg).live(c.ptr.id as int),
            final(reg).kind_of(c.ptr.id as int) == HandlerKind::Client,
    {
        ClientWrapper::new(callbacks).wrap(reg)
    }

    /// Trampoline for the audio accessor entry of the client table.
    pub fn get_audio_handler(&self, reg: &mut Registry) -> (r: TablePtr)
        requires
            old(reg).wf(),
        ensures
            final(reg).wf(),
            r.addr != 0 ==> final(reg).live(r.addr - 1) && final(reg).kind_of(r.addr - 1)
                == HandlerKind::Audio,
    {
        let opt = self.wrapper.delegate.get_audio_handler(reg);
        table_or_null(opt)
    }

    /// Trampoline for the context menu accessor entry of the client table.
    pub fn get_context_menu_handler(&self, reg: &mut Registry) -> (r: TablePtr)
        requires
            old(reg).wf(),
        ensures
            final(reg).wf(),
            r.addr != 0 ==> final(reg).live(r.addr - 1) && final(reg).kind_of(r.addr - 1)
                == HandlerKind::ContextMenu,
    {
        let opt = self.wrapper.delegate.get_context_menu_handler(reg);
        table_or_null(opt)
    }

    /// Trampoline for the dialog accessor entry of the client table.
    pub fn get_dialog_handler(&self, reg: &mut Registry) -> (r: TablePtr)
        requires
            old(reg).wf(),
        ensures
            final(reg).wf(),
            r.addr != 0 ==> final(reg).live(r.addr - 1) && final(reg).kind_of(r.addr - 1)
                == HandlerKind::Dialog,
    {
        let opt = self.wrapper.delegate.get_dialog_handler(reg);
        table_or_null(opt)
    }

    /// Trampoline for the display accessor entry of the client table.
    pub fn get_display_handler(&self, reg: &mut Registry) -> (r: TablePtr)
        requires
            old(reg).wf(),
        ensures
            final(reg).wf(),
            r.addr != 0 ==> final(reg).live(r.addr - 1) && final(reg).kind_of(r.addr - 1)
                == HandlerKind::Display,
    {
        let opt = self.wrapper.delegate.get_display_handler(reg);
        table_or_null(opt)
    }

    /// Trampoline for the download accessor entry of the client table.
    pub fn get_download_handler(&self, reg: &mut Registry) -> (r: TablePtr)
        requires
            old(reg).wf(),
        ensures
            final(reg).wf(),
            r.addr != 0 ==> final(reg).live(r.addr - 1) && final(reg).kind_of(r.addr - 1)
                == HandlerKind::Download,
    {
        let opt = self.wrapper.delegate.get_download_handler(reg);
        table_or_null(opt)
    }

    /// Trampoline for the drag accessor entry of the client table.
    pub fn get_drag_handler(&self, reg: &mut Registry) -> (r: TablePtr)
        requires
            old(reg).wf(),
        ensures
            final(reg).wf(),
            r.addr != 0 ==> final(reg).live(r.addr - 1) && final(reg).kind_of(r.addr - 1)
                == HandlerKind::Drag,
    {
        let opt = self.wrapper.delegate.get_drag_handler(reg);
        table_or_null(opt)
    }

    /// Trampoline for the find accessor entry of the client table.
    pub fn get_find_handler(&self, reg: &mut Registry) -> (r: TablePtr)
        requires
            old(reg).wf(),
        ensures
            final(reg).wf(),
            r.addr != 0 ==> final(reg).live(r.addr - 1) && final(reg).kind_of(r.addr - 1)
                == HandlerKind::Find,
    {
        let opt = self.wrapper.delegate.get_find_handler(reg);
        table_or_null(opt)
    }

    /// Trampoline for the focus accessor entry of the client table.
    pub fn get_focus_handler(&self, reg: &mut Registry) -> (r: TablePtr)
        requires
            old(reg).wf(),
        ensures
            final(reg).wf(),
            r.addr != 0 ==> final(reg).live(r.addr - 1) && final(reg).kind_of(r.addr - 1)
                == HandlerKind::Focus,
    {
        let opt = self.wrapper.delegate.get_focus_handler(reg);
        table_or_null(opt)
    }

    /// Trampoline for the JavaScript dialog accessor entry of the client
    /// table.
    pub fn get_jsdialog_handler(&self, reg: &mut Registry) -> (r: TablePtr)
        requires
            old(reg).wf(),
        ensures
            final(reg).wf(),
            r.addr != 0 ==> final(reg).live(r.addr - 1) && final(reg).kind_of(r.addr - 1)
                == HandlerKind::JsDialog,
    {
        let opt = self.wrapper.delegate.get_jsdialog_handler(reg);
        table_or_null(opt)
    }

    /// Trampoline for the keyboard accessor entry of the client table.
    pub fn get_keyboard_handler(&self, reg: &mut Registry) -> (r: TablePtr)
        requires
            old(reg).wf(),
        ensures
            final(reg).wf(),
            r.addr != 0 ==> final(reg).live(r.addr - 1) && final(reg).kind_of(r.addr - 1)
                == HandlerKind::Keyboard,
    {
        let opt = self.wrapper.delegate.get_keyboard_handler(reg);
        table_or_null(opt)
    }

    /// Trampoline for the life span accessor entry of the client table.
    pub fn get_life_span_handler(&self, reg: &mut Registry) -> (r: TablePtr)
        requires
            old(reg).wf(),
        ensures
            final(reg).wf(),
            r.addr != 0 ==> final(reg).live(r.addr - 1) && final(reg).kind_of(r.addr - 1)
                == HandlerKind::LifeSpan,
    {
        let opt = self.wrapper.delegate.get_life_span_handler(reg);
        table_or_null(opt)
    }

    /// Trampoline for the load accessor entry of the client table.
    pub fn get_load_handler(&self, reg: &mut Registry) -> (r: TablePtr)
        requires
            old(reg).wf(),
        ensures
            final(reg).wf(),
            r.addr != 0 ==> final(reg).live(r.addr - 1) && final(reg).kind_of(r.addr - 1)
                == HandlerKind::Load,
    {
        let opt = self.wrapper.delegate.get_load_handler(reg);
        table_or_null(opt)
    }

    /// Trampoline for the render accessor entry of the client table.
    pub fn get_render_handler(&self, reg: &mut Registry) -> (r: TablePtr)
        requires
            old(reg).wf(),
        ensures
            final(reg).wf(),
            r.addr != 0 ==> final(reg).live(r.addr - 1) && final(reg).kind_of(r.addr - 1)
                == HandlerKind::Render,
    {
        let opt = self.wrapper.delegate.get_render_handler(reg);
        table_or_null(opt)
    }

    /// Trampoline for the request accessor entry of the client table.
    pub fn get_request_handler(&self, reg: &mut Registry) -> (r: TablePtr)
        requires
            old(reg).wf(),
        ensures
            final(reg).wf(),
            r.addr != 0 ==> final(reg).live(r.addr - 1) && final(reg).kind_of(r.addr - 1)
                == HandlerKind::Request,
    {
        let opt = self.wrapper.delegate.get_request_handler(reg);
        table_or_null(opt)
    }

    /// Trampoline for the message event entry of the client table. Messages
    /// to the client arrive from the renderer process; the engine guarantees
    /// the source role, so any other source is a corrupted boundary and is
    /// excluded rather than handled. The callbacks are asked once, and their
    /// answer crosses the boundary through [`handled_to_abi`]: 1 exactly when
    /// the message was handled, 0 otherwise.
    pub fn on_process_message_received(
        &self,
        reg: &mut Registry,
        browser: Browser,
        frame: Frame,
        source_process: ProcessId,
        message: ProcessMessage,
    ) -> (r: i32)
        requires
            old(reg).wf(),
            source_process == ProcessId::Renderer,
        ensures
            final(reg).wf(),
            r == 0 || r == 1,
    {
        let handled = self.wrapper.delegate.on_process_message_received(reg, browser, frame, message);
        handled_to_abi(handled)
    }
}

} // verus!
