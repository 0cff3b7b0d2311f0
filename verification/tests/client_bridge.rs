use cef_bridge::client::{
    Browser, Client, ClientCallbacks, ClientWrapper, Frame, Handler, LoadHandler, ProcessId,
    ProcessMessage,
};
use cef_bridge::refcounted::{HandlerKind, RefCountedPtr, Registry, TablePtr};

struct MinimalCallbacks;

impl ClientCallbacks for MinimalCallbacks {}

struct LoadOnlyCallbacks;

impl ClientCallbacks for LoadOnlyCallbacks {
    fn get_load_handler(&self, reg: &mut Registry) -> Option<LoadHandler> {
        Some(Handler::new(reg, HandlerKind::Load))
    }
}

struct HandlingCallbacks;

impl ClientCallbacks for HandlingCallbacks {
    fn on_process_message_received(
        &self,
        _reg: &mut Registry,
        _browser: Browser,
        _frame: Frame,
        _message: ProcessMessage,
    ) -> bool {
        true
    }
}

#[test]
fn refcount_balance_over_lifetime() {
    let mut reg = Registry::new();
    let p = RefCountedPtr::wrap(&mut reg, HandlerKind::Audio);
    assert_eq!(reg.blocks[0].ref_count, 1);
    let q = p.clone_ref(&mut reg);
    assert_eq!(reg.blocks[0].ref_count, 2);
    assert_eq!(reg.blocks[0].add_ref_calls, 2);
    q.release(&mut reg);
    assert_eq!(reg.blocks[0].ref_count, 1);
    p.release(&mut reg);
    assert_eq!(reg.blocks[0].ref_count, 0);
    assert_eq!(reg.blocks[0].add_ref_calls, reg.blocks[0].release_calls);
}

#[test]
fn raw_pointer_release_balances() {
    let mut reg = Registry::new();
    let p = RefCountedPtr::wrap(&mut reg, HandlerKind::Render);
    let t = p.into_raw();
    assert!(!t.is_null());
    assert_eq!(reg.blocks[0].ref_count, 1);
    reg.release_raw(t);
    assert_eq!(reg.blocks[0].ref_count, 0);
    assert_eq!(reg.blocks[0].add_ref_calls, reg.blocks[0].release_calls);
}

#[test]
fn raw_pointer_round_trips_to_a_handle() {
    let mut reg = Registry::new();
    let p = RefCountedPtr::wrap(&mut reg, HandlerKind::LifeSpan);
    let t = p.into_raw();
    let q = RefCountedPtr::from_ptr_unchecked(t);
    assert_eq!(reg.blocks[q.id].ref_count, 1);
    q.release(&mut reg);
    assert_eq!(reg.blocks[0].add_ref_calls, reg.blocks[0].release_calls);
}

#[test]
fn null_pointer_is_null() {
    let t = TablePtr::null();
    assert!(t.is_null());
}

fn query_all_categories(client: &Client<LoadOnlyCallbacks>, reg: &mut Registry) -> Vec<TablePtr> {
    vec![
        client.get_audio_handler(reg),
        client.get_context_menu_handler(reg),
        client.get_dialog_handler(reg),
        client.get_display_handler(reg),
        client.get_download_handler(reg),
        client.get_drag_handler(reg),
        client.get_find_handler(reg),
        client.get_focus_handler(reg),
        client.get_jsdialog_handler(reg),
        client.get_keyboard_handler(reg),
        client.get_life_span_handler(reg),
        client.get_load_handler(reg),
        client.get_render_handler(reg),
        client.get_request_handler(reg),
    ]
}

#[test]
fn absent_handlers_cross_as_null() {
    let mut reg = Registry::new();
    let client = Client::new(&mut reg, MinimalCallbacks);
    assert!(client.get_audio_handler(&mut reg).is_null());
    assert!(client.get_context_menu_handler(&mut reg).is_null());
    assert!(client.get_dialog_handler(&mut reg).is_null());
    assert!(client.get_display_handler(&mut reg).is_null());
    assert!(client.get_download_handler(&mut reg).is_null());
    assert!(client.get_drag_handler(&mut reg).is_null());
    assert!(client.get_find_handler(&mut reg).is_null());
    assert!(client.get_focus_handler(&mut reg).is_null());
    assert!(client.get_jsdialog_handler(&mut reg).is_null());
    assert!(client.get_keyboard_handler(&mut reg).is_null());
    assert!(client.get_life_span_handler(&mut reg).is_null());
    assert!(client.get_load_handler(&mut reg).is_null());
    assert!(client.get_render_handler(&mut reg).is_null());
    assert!(client.get_request_handler(&mut reg).is_null());
}

#[test]
fn single_override_yields_exactly_one_table() {
    let mut reg = Registry::new();
    let client = Client::new(&mut reg, LoadOnlyCallbacks);
    let answers = query_all_categories(&client, &mut reg);
    let non_null: Vec<&TablePtr> = answers.iter().filter(|t| !t.is_null()).collect();
    assert_eq!(non_null.len(), 1);
    // The one present handler is the overridden category, and its control
    // block responds to a subsequent release.
    let t = *non_null[0];
    assert_eq!(reg.blocks[t.addr - 1].kind, HandlerKind::Load);
    assert_eq!(reg.blocks[t.addr - 1].ref_count, 1);
    reg.release_raw(t);
    assert_eq!(reg.blocks[t.addr - 1].ref_count, 0);
    assert_eq!(
        reg.blocks[t.addr - 1].add_ref_calls,
        reg.blocks[t.addr - 1].release_calls
    );
}

#[test]
fn wrapper_recovers_registered_callbacks() {
    let w = ClientWrapper::new(MinimalCallbacks);
    assert!(w.get_client().is_some());
}

#[test]
fn message_event_crosses_as_zero_or_one() {
    let mut reg = Registry::new();
    let quiet = Client::new(&mut reg, MinimalCallbacks);
    let r = quiet.on_process_message_received(
        &mut reg,
        Browser { id: 1 },
        Frame { id: 2 },
        ProcessId::Renderer,
        ProcessMessage { id: 3 },
    );
    assert_eq!(r, 0);
    let eager = Client::new(&mut reg, HandlingCallbacks);
    let r = eager.on_process_message_received(
        &mut reg,
        Browser { id: 1 },
        Frame { id: 2 },
        ProcessId::Renderer,
        ProcessMessage { id: 3 },
    );
    assert_eq!(r, 1);
}

#[test]
fn client_table_kind_is_client() {
    let mut reg = Registry::new();
    let client = Client::new(&mut reg, MinimalCallbacks);
    let id = client.ptr.id;
    assert_eq!(reg.blocks[id].kind, HandlerKind::Client);
    assert_eq!(reg.blocks[id].ref_count, 1);
    // Over the registration's full lifetime the counts balance.
    client.ptr.release(&mut reg);
    assert_eq!(reg.blocks[id].ref_count, 0);
    assert_eq!(reg.blocks[id].add_ref_calls, reg.blocks[id].release_calls);
}
