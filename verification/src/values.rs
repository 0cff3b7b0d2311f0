//! The engine's dynamically typed values.
//!
//! A [`Value`] holds a scalar inline and a complex payload (binary,
//! dictionary, list) by reference; [`BinaryValue`], [`DictionaryValue`] and
//! [`ListValue`] are handles to complex storage. The storage itself is the
//! engine's and is modeled explicitly by [`ValueStore`]: every operation that
//! touches complex data takes the store it lives in.
//!
//! Assigning a complex value into a container follows the engine's rule:
//! a value not owned by any container moves — its storage tree changes hands
//! and every old handle to it goes stale — while a value already owned by a
//! container is deep-copied and the source stays untouched. Reading a complex
//! entry hands out a handle to the same storage, so mutating through it
//! mutates the container; reading a scalar copies.

use crate::tree::{
    apply_at, apply_at_exec, apply_op, copy_node, copy_of, entries_put, entries_view, find_entry,
    has_key, items_view, key_index, lemma_apply_at_success, lemma_apply_keeps_mutable, lemma_apply_wf, lemma_copy_wf,
    lemma_entries_view, lemma_items_view, lemma_key_index_unique, lemma_lookup_put, lemma_resolve_after_apply,
    lemma_resolve_snoc, lemma_resolve_wf, lemma_view_kind, lemma_wf_children, lookup, next_stamp, nodes_equal,
    node_view, resize_items, resolve_at, resolve_path, step, val_stamp, val_wf,
    BinaryNode, DictNode, ListNode, Node, PathSeg, TreeOp, Val,
};
use vstd::prelude::*;

verus! {

/// The type of the data a value holds.
#[derive(Clone, Copy, PartialEq, Eq, Structural, Debug)]
pub enum ValueType {
    Invalid,
    Null,
    Bool,
    Int,
    Double,
    String,
    Binary,
    Dictionary,
    List,
}

/// The engine-side storage for complex values: one tree per root slot. A
/// slot goes empty when its tree is moved into a container, and every handle
/// into the abandoned slot goes stale with it.
pub struct ValueStore {
    pub roots: Vec<Option<Node>>,
    pub next_stamp: u64,
}

impl ValueStore {
    /// Every tree in the store is well-formed.
    pub open spec fn wf(self) -> bool {
        forall|r: int|
            0 <= r < self.roots@.len() ==> match #[trigger] self.roots@[r] {
                Some(n) => val_wf(n@),
                None => true,
            }
    }

    /// The tree in root slot `r`, if the slot exists and is filled.
    pub open spec fn root_val(self, r: int) -> Option<Val> {
        if 0 <= r < self.roots@.len() {
            match self.roots@[r] {
                Some(n) => Some(n@),
                None => None,
            }
        } else {
            None
        }
    }

    pub fn new() -> (s: ValueStore)
        ensures
            s.wf(),
            s.roots@.len() == 0,
    {
        ValueStore { roots: Vec::new(), next_stamp: 0 }
    }
}

/// Where a complex value lives: its root slot, the path down to its node,
/// and the stamp its node carries. A handle is good exactly while the path
/// still leads to a node carrying the same stamp.
pub struct Anchor {
    pub root: usize,
    pub path: Vec<PathSeg>,
    pub stamp: u64,
}

/// The node an anchor points at, if its path still resolves.
pub open spec fn anchor_target(a: Anchor, s: ValueStore) -> Option<Val> {
    match s.root_val(a.root as int) {
        Some(v) => resolve_path(v, a.path@),
        None => None,
    }
}

/// The anchor points at a live complex node that still carries its stamp.
pub open spec fn anchor_live(a: Anchor, s: ValueStore) -> bool {
    match anchor_target(a, s) {
        Some(v) => val_stamp(v) == Some(a.stamp),
        None => false,
    }
}

/// Two anchors address the same storage: same root slot, same path, same
/// stamp.
pub open spec fn same_place(a: Anchor, b: Anchor) -> bool {
    &&& a.root == b.root
    &&& a.stamp == b.stamp
    &&& a.path@.len() == b.path@.len()
    &&& forall|i: int| 0 <= i < a.path@.len() ==> seg_eq(#[trigger] a.path@[i], b.path@[i])
}

/// Two path segments take the same step.
pub open spec fn seg_eq(a: PathSeg, b: PathSeg) -> bool {
    match (a, b) {
        (PathSeg::Key(k1), PathSeg::Key(k2)) => k1@ == k2@,
        (PathSeg::Index(i1), PathSeg::Index(i2)) => i1 == i2,
        _ => false,
    }
}

/// A copy of a path, segment by segment.
fn clone_path(p: &Vec<PathSeg>) -> (r: Vec<PathSeg>)
    ensures
        r@ == p@,
{
    let mut r: Vec<PathSeg> = Vec::new();
    let mut i: usize = 0;
    while i < p.len()
        invariant
            i <= p@.len(),
            r@.len() == i,
            forall|t: int| 0 <= t < i ==> #[trigger] r@[t] == p@[t],
        decreases p@.len() - i,
    {
        let seg = match &p[i] {
            PathSeg::Key(k) => PathSeg::Key(k.clone()),
            PathSeg::Index(ix) => PathSeg::Index(*ix),
        };
        r.push(seg);
        i = i + 1;
    }
    proof {
        assert(r@ =~= p@);
    }
    r
}

/// A second anchor for the same place.
fn anchor_dup(a: &Anchor) -> (r: Anchor)
    ensures
        r.root == a.root,
        r.stamp == a.stamp,
        r.path@ == a.path@,
{
    Anchor { root: a.root, path: clone_path(&a.path), stamp: a.stamp }
}

/// Whether two anchors address the same storage.
fn anchors_same(a: &Anchor, b: &Anchor) -> (r: bool)
    ensures
        r == same_place(*a, *b),
{
    if a.root != b.root || a.stamp != b.stamp || a.path.len() != b.path.len() {
        return false;
    }
    let mut i: usize = 0;
    while i < a.path.len()
        invariant
            a.root == b.root,
            a.stamp == b.stamp,
            a.path@.len() == b.path@.len(),
            i <= a.path@.len(),
            forall|t: int| 0 <= t < i ==> seg_eq(#[trigger] a.path@[t], b.path@[t]),
        decreases a.path@.len() - i,
    {
        let same = match (&a.path[i], &b.path[i]) {
            (PathSeg::Key(k1), PathSeg::Key(k2)) => *k1 == *k2,
            (PathSeg::Index(i1), PathSeg::Index(i2)) => *i1 == *i2,
            _ => false,
        };
        if !same {
            proof {
                assert(!seg_eq(a.path@[i as int], b.path@[i as int]));
            }
            return false;
        }
        i = i + 1;
    }
    true
}

/// Applies one op at an anchor's place, leaving every other root slot alone.
/// The anchor's stamp is not consulted here: callers check their handle
/// first.
fn apply_in_store(store: &mut ValueStore, place: &Anchor, op: TreeOp) -> (r: bool)
    requires
        old(store).wf(),
        crate::tree::op_wf(op),
    ensures
        final(store).wf(),
        final(store).roots@.len() == old(store).roots@.len(),
        final(store).next_stamp == old(store).next_stamp,
        r == (match old(store).root_val(place.root as int) {
            Some(rv) => apply_at(rv, place.path@, op) is Some,
            None => false,
        }),
        r ==> final(store).root_val(place.root as int) == Some(
            apply_at(old(store).root_val(place.root as int)->Some_0, place.path@, op)->Some_0,
        ),
        forall|t: int|
            0 <= t < old(store).roots@.len() && t != place.root as int
                ==> final(store).roots@[t] == old(store).roots@[t],
        !r ==> forall|t: int| final(store).root_val(t) == old(store).root_val(t),
{
    if place.root >= store.roots.len() {
        return false;
    }
    let slot = &mut store.roots[place.root];
    match slot {
        Some(n) => {
            let ok = apply_at_exec(n, &place.path, 0, op);
            proof {
                assert(place.path@.skip(0) =~= place.path@);
                if ok {
                    lemma_apply_wf(old(store).root_val(place.root as int)->Some_0, place.path@, op);
                }
            }
            ok
        },
        None => false,
    }
}

/// Takes a complex value out of the store to be placed into a container at
/// `dst_root`: an unowned value is detached from its root slot (it moves, and
/// its slot goes empty), an owned one is deep-copied with fresh stamps. The
/// result is `None` when the anchor is stale, or when the value is the very
/// tree the destination lives in.
fn detach_or_copy(store: &mut ValueStore, place: &Anchor, dst_root: usize) -> (r: Option<Node>)
    requires
        old(store).wf(),
    ensures
        final(store).wf(),
        final(store).roots@.len() == old(store).roots@.len(),
        r is Some <==> (anchor_live(*place, *old(store)) && (place.path@.len() > 0 || place.root
            != dst_root)),
        r is None ==> forall|t: int| final(store).root_val(t) == old(store).root_val(t),
        r matches Some(n) ==> val_wf(n@),
        r is Some && place.path@.len() > 0 ==> {
            &&& forall|t: int| final(store).root_val(t) == old(store).root_val(t)
            &&& copy_of(anchor_target(*place, *old(store))->Some_0, r->Some_0@)
        },
        r is Some && place.path@.len() == 0 ==> {
            &&& r->Some_0@ == anchor_target(*place, *old(store))->Some_0
            &&& final(store).root_val(place.root as int) is None
            &&& forall|t: int|
                t != place.root as int ==> final(store).root_val(t) == old(store).root_val(t)
        },
    {
        if !anchor_live_exec(store, place) {
            return None;
        }
        proof {
            lemma_view_kind_of_target(*place, *store);
            assert((place.root as int) < store.roots@.len());
            assert(store.roots@[place.root as int] is Some);
        }
        if place.path.len() > 0 {
            // Owned by a container: deep copy, the source stays.
            let mut counter = store.next_stamp;
            let copied = match &store.roots[place.root] {
                Some(n) => {
                    proof {
                        assert(val_wf(n@));
                        assert(place.path@.skip(0) =~= place.path@);
                    }
                    let mo = resolve_at(n, &place.path, 0);
                    proof {
                        assert(mo is Some);
                    }
                    let m = mo.unwrap();
                    copy_node(m, &mut counter)
                },
                None => {
                    proof {
                        assert(false);
                    }
                    Node::Null
                },
            };
            store.next_stamp = counter;
            proof {
                lemma_copy_wf(anchor_target(*place, *old(store))->Some_0, copied@);
            }
            Some(copied)
        } else {
            if place.root == dst_root {
                return None;
            }
            let taken = store.roots[place.root].take();
            match taken {
                Some(n) => Some(n),
                None => {
                    proof {
                        assert(false);
                    }
                    None
                },
            }
        }
    }

/// A stale anchor resolves to nothing; a live one to a complex node.
proof fn lemma_view_kind_of_target(a: Anchor, s: ValueStore)
    ensures
        anchor_live(a, s) ==> (anchor_target(a, s) matches Some(v) && (v is Binary || v is Dict
            || v is List)),
{
}

/// The anchor addresses a live dictionary node.
pub open spec fn dict_live(a: Anchor, s: ValueStore) -> bool {
    &&& anchor_target(a, s) matches Some(v)
    &&& anchor_target(a, s)->Some_0 is Dict
    &&& anchor_target(a, s)->Some_0->Dict_stamp == a.stamp
}

/// The anchor addresses a live list node.
pub open spec fn list_live(a: Anchor, s: ValueStore) -> bool {
    &&& anchor_target(a, s) matches Some(v)
    &&& anchor_target(a, s)->Some_0 is List
    &&& anchor_target(a, s)->Some_0->List_stamp == a.stamp
}

/// The anchor addresses a live binary node.
pub open spec fn bin_live(a: Anchor, s: ValueStore) -> bool {
    &&& anchor_target(a, s) matches Some(v)
    &&& anchor_target(a, s)->Some_0 is Binary
    &&& anchor_target(a, s)->Some_0->Binary_stamp == a.stamp
}

/// Mutation through the anchor's path is allowed: it resolves, and nothing
/// along it is read-only.
pub open spec fn anchor_mutable(a: Anchor, s: ValueStore) -> bool {
    match s.root_val(a.root as int) {
        Some(v) => crate::tree::path_mutable(v, a.path@),
        None => false,
    }
}

/// Whether the anchor still addresses a live complex node.
fn anchor_live_exec(store: &ValueStore, a: &Anchor) -> (r: bool)
    requires
        store.wf(),
    ensures
        r == anchor_live(*a, *store),
{
    if a.root >= store.roots.len() {
        return false;
    }
    match &store.roots[a.root] {
        Some(n) => {
            proof {
                assert(val_wf(n@));
            }
            match resolve_at(n, &a.path, 0) {
                Some(m) => {
                    proof {
                        assert(a.path@.skip(0) =~= a.path@);
                        lemma_view_kind(*m);
                    }
                    match m {
                        Node::Binary(bn) => bn.stamp == a.stamp,
                        Node::Dict(dn) => dn.stamp == a.stamp,
                        Node::List(ln) => ln.stamp == a.stamp,
                        _ => false,
                    }
                },
                None => false,
            }
        },
        None => false,
    }
}

/// Whether mutation through the anchor's path is allowed.
fn anchor_mutable_exec(store: &ValueStore, a: &Anchor) -> (r: bool)
    requires
        store.wf(),
    ensures
        r == anchor_mutable(*a, *store),
{
    if a.root >= store.roots.len() {
        return false;
    }
    match &store.roots[a.root] {
        Some(n) => {
            proof {
                assert(val_wf(n@));
                assert(a.path@.skip(0) =~= a.path@);
            }
            crate::tree::path_mutable_exec(n, &a.path, 0)
        },
        None => false,
    }
}

/// The type tag of a value.
pub open spec fn val_type_of(v: Val) -> ValueType {
    match v {
        Val::Null => ValueType::Null,
        Val::Bool(_) => ValueType::Bool,
        Val::Int(_) => ValueType::Int,
        Val::Double(_) => ValueType::Double,
        Val::Str(_) => ValueType::String,
        Val::Binary { .. } => ValueType::Binary,
        Val::Dict { .. } => ValueType::Dictionary,
        Val::List { .. } => ValueType::List,
    }
}

/// The entry under `key` exists and has type `t`.
pub open spec fn lookup_kind(es: Seq<(Seq<char>, Val)>, key: Seq<char>, t: ValueType) -> bool {
    match lookup(es, key) {
        Some(v) => val_type_of(v) == t,
        None => false,
    }
}

/// The type tag of a stored node.
fn node_type(n: &Node) -> (t: ValueType)
    ensures
        t == val_type_of(n@),
{
    proof {
        lemma_view_kind(*n);
    }
    match n {
        Node::Null => ValueType::Null,
        Node::Bool(_) => ValueType::Bool,
        Node::Int(_) => ValueType::Int,
        Node::Double(_) => ValueType::Double,
        Node::Str(_) => ValueType::String,
        Node::Binary(_) => ValueType::Binary,
        Node::Dict(_) => ValueType::Dictionary,
        Node::List(_) => ValueType::List,
    }
}

/// Binary data held by handle, with a read cursor; its storage lives in a
/// [`ValueStore`].
pub struct BinaryValue {
    pub place: Anchor,
    pub cursor: usize,
}

/// An ordered, index-addressed, resizable sequence of values, held by handle;
/// its storage lives in a [`ValueStore`].
pub struct ListValue {
    pub place: Anchor,
}

/// What a [`Value`] holds: a scalar inline, or a complex payload by
/// reference. A double is carried as its bit pattern: the boundary converts,
/// this layer only stores.
pub enum ValuePayload {
    Null,
    Bool(bool),
    Int(i32),
    Double(u64),
    Str(String),
    Binary(Anchor),
    Dict(Anchor),
    List(Anchor),
}

/// A dynamically typed value. Scalars are copied in and out; binding a
/// complex value only references its storage, and ownership of that storage
/// is unchanged.
pub struct Value {
    pub payload: ValuePayload,
}

/// A dictionary of string keys to values, held by handle; its storage lives
/// in a [`ValueStore`].
pub struct DictionaryValue {
    pub place: Anchor,
}

impl DictionaryValue {
    /// The handle still addresses its dictionary.
    pub open spec fn spec_valid(self, s: ValueStore) -> bool {
        dict_live(self.place, s)
    }

    /// The dictionary's entries, meaningful while the handle is valid.
    pub open spec fn spec_entries(self, s: ValueStore) -> Seq<(Seq<char>, Val)> {
        anchor_target(self.place, s)->Some_0->Dict_entries
    }

    /// The dictionary's storage is owned by an enclosing container.
    pub open spec fn spec_owned(self, s: ValueStore) -> bool {
        self.spec_valid(s) && self.place.path@.len() > 0
    }

    /// Mutation through this handle is refused: the handle is stale, or the
    /// dictionary itself or a container enclosing it is read-only. A valid
    /// dictionary that is not read-only is exactly one whose mutations go
    /// through.
    pub open spec fn spec_read_only(self, s: ValueStore) -> bool {
        !self.spec_valid(s) || !anchor_mutable(self.place, s)
    }

    /// The handle's whole path can be mutated through.
    pub open spec fn spec_mutable(self, s: ValueStore) -> bool {
        anchor_mutable(self.place, s)
    }

    /// Creates a new dictionary that is not owned by any other object.
    pub fn new(store: &mut ValueStore) -> (d: DictionaryValue)
        requires
            old(store).wf(),
        ensures
            final(store).wf(),
            final(store).roots@.len() == old(store).roots@.len() + 1,
            forall|t: int|
                0 <= t < old(store).roots@.len() ==> final(store).roots@[t] == old(
                    store,
                ).roots@[t],
            d.place.root == old(store).roots@.len(),
            d.place.path@.len() == 0,
            d.spec_valid(*final(store)),
            d.spec_entries(*final(store)) == Seq::<(Seq<char>, Val)>::empty(),
            !d.spec_owned(*final(store)),
            !d.spec_read_only(*final(store)),
            d.spec_mutable(*final(store)),
    {
        let stamp = next_stamp(&mut store.next_stamp);
        let root = store.roots.len();
        let node = Node::Dict(DictNode { stamp, read_only: false, entries: Vec::new() });
        let ghost nv = node@;
        proof {
            assert(entries_view(node->Dict_0.entries@) =~= Seq::<(Seq<char>, Val)>::empty());
            assert(val_wf(nv));
        }
        store.roots.push(Some(node));
        let d = DictionaryValue { place: Anchor { root, path: Vec::new(), stamp } };
        proof {
            assert(final(store).root_val(root as int) == Some(nv));
            assert(resolve_path(nv, d.place.path@) == Some(nv));
        }
        d
    }

    /// The dictionary node this handle addresses, while it is live.
    fn node<'a>(&self, store: &'a ValueStore) -> (r: Option<&'a DictNode>)
        requires
            store.wf(),
        ensures
            r is Some <==> self.spec_valid(*store),
            r matches Some(dn) ==> {
                &&& anchor_target(self.place, *store) == Some(node_view(Node::Dict(*dn)))
                &&& val_wf(node_view(Node::Dict(*dn)))
                &&& dn.stamp == self.place.stamp
            },
    {
        if self.place.root >= store.roots.len() {
            return None;
        }
        match &store.roots[self.place.root] {
            Some(n) => {
                proof {
                    assert(val_wf(n@));
                }
                match resolve_at(n, &self.place.path, 0) {
                    Some(m) => {
                        proof {
                            assert(self.place.path@.skip(0) =~= self.place.path@);
                            lemma_view_kind(*m);
                        }
                        match m {
                            Node::Dict(dn) => if dn.stamp == self.place.stamp {
                                Some(dn)
                            } else {
                                None
                            },
                            _ => None,
                        }
                    },
                    None => None,
                }
            },
            None => None,
        }
    }

    /// Returns true if this object is valid. The handle goes stale when the
    /// storage it addresses is moved, displaced or destroyed; do not expect
    /// other operations to succeed once this returns false.
    pub fn is_valid(&self, store: &ValueStore) -> (r: bool)
        requires
            store.wf(),
        ensures
            r == self.spec_valid(*store),
    {
        self.node(store).is_some()
    }

    /// Returns true if the underlying data is owned by another object.
    pub fn is_owned(&self, store: &ValueStore) -> (r: bool)
        requires
            store.wf(),
        ensures
            r == self.spec_owned(*store),
    {
        self.is_valid(store) && self.place.path.len() > 0
    }

    /// Returns true if the underlying data is read-only, because this
    /// dictionary or a container enclosing it is so marked, or because the
    /// handle is stale. Some engine interfaces expose read-only objects. A
    /// valid dictionary that is not read-only accepts every mutation.
    pub fn is_read_only(&self, store: &ValueStore) -> (r: bool)
        requires
            store.wf(),
        ensures
            r == self.spec_read_only(*store),
    {
        !(self.is_valid(store) && anchor_mutable_exec(store, &self.place))
    }

    /// Returns true if this object and `that` object have the same underlying
    /// data: they address the same storage, so modifications through one are
    /// seen through the other.
    pub fn is_same(&self, that: &DictionaryValue) -> (r: bool)
        ensures
            r == same_place(self.place, that.place),
    {
        anchors_same(&self.place, &that.place)
    }

    /// Returns the number of entries; zero when the handle is stale.
    pub fn len(&self, store: &ValueStore) -> (r: usize)
        requires
            store.wf(),
        ensures
            r == if self.spec_valid(*store) {
                self.spec_entries(*store).len()
            } else {
                0
            },
    {
        match self.node(store) {
            Some(dn) => {
                proof {
                    lemma_entries_view(dn.entries@);
                }
                dn.entries.len()
            },
            None => 0,
        }
    }

    /// Returns true if the dictionary has a value for the given key.
    pub fn contains_key(&self, store: &ValueStore, key: &str) -> (r: bool)
        requires
            store.wf(),
        ensures
            r == (self.spec_valid(*store) && has_key(self.spec_entries(*store), key@)),
    {
        match self.node(store) {
            Some(dn) => {
                proof {
                    lemma_entries_view(dn.entries@);
                }
                match find_entry(&dn.entries, &key.to_owned()) {
                    Some(j) => {
                        proof {
                            assert(entries_view(dn.entries@)[j as int].0 == key@);
                        }
                        true
                    },
                    None => false,
                }
            },
            None => false,
        }
    }

    /// Reads all keys of this dictionary, in entry order.
    pub fn keys(&self, store: &ValueStore) -> (r: Vec<String>)
        requires
            store.wf(),
        ensures
            r@.len() == if self.spec_valid(*store) {
                self.spec_entries(*store).len()
            } else {
                0
            },
            self.spec_valid(*store) ==> forall|i: int|
                0 <= i < r@.len() ==> (#[trigger] r@[i])@ == self.spec_entries(*store)[i].0,
    {
        match self.node(store) {
            Some(dn) => {
                proof {
                    lemma_entries_view(dn.entries@);
                }
                let mut r: Vec<String> = Vec::new();
                let mut i: usize = 0;
                while i < dn.entries.len()
                    invariant
                        i <= dn.entries@.len(),
                        r@.len() == i,
                        forall|t: int|
                            0 <= t < i ==> (#[trigger] r@[t])@ == entries_view(dn.entries@)[t].0,
                    decreases dn.entries@.len() - i,
                {
                    proof {
                        lemma_entries_view(dn.entries@);
                    }
                    r.push(dn.entries[i].0.clone());
                    i = i + 1;
                }
                r
            },
            None => Vec::new(),
        }
    }

    /// Returns the type of the value stored under `key`, or invalid when the
    /// handle is stale or the key is absent.
    pub fn get_type(&self, store: &ValueStore, key: &str) -> (r: ValueType)
        requires
            store.wf(),
        ensures
            r == if self.spec_valid(*store) {
                match lookup(self.spec_entries(*store), key@) {
                    Some(v) => val_type_of(v),
                    None => ValueType::Invalid,
                }
            } else {
                ValueType::Invalid
            },
    {
        match self.entry_node(store, key) {
            Some(c) => node_type(c),
            None => ValueType::Invalid,
        }
    }

    /// The node stored under `key`, while the handle is live and the key
    /// present.
    fn entry_node<'a>(&self, store: &'a ValueStore, key: &str) -> (r: Option<&'a Node>)
        requires
            store.wf(),
        ensures
            r is Some <==> (self.spec_valid(*store) && has_key(self.spec_entries(*store), key@)),
            r matches Some(c) ==> {
                &&& lookup(self.spec_entries(*store), key@) == Some(c@)
                &&& val_wf(c@)
            },
    {
        match self.node(store) {
            Some(dn) => {
                let ghost ev = entries_view(dn.entries@);
                proof {
                    lemma_entries_view(dn.entries@);
                    lemma_wf_children(node_view(Node::Dict(*dn)));
                }
                match find_entry(&dn.entries, &key.to_owned()) {
                    Some(j) => {
                        proof {
                            assert(ev[j as int].0 == key@);
                            lemma_key_index_unique(ev, key@, j as int);
                            assert(val_wf(ev[j as int].1));
                        }
                        Some(&dn.entries[j].1)
                    },
                    None => None,
                }
            },
            None => None,
        }
    }

    /// Returns the value under `key` as a bool; false when the handle is
    /// stale, the key absent, or the entry of another type.
    pub fn get_bool(&self, store: &ValueStore, key: &str) -> (r: bool)
        requires
            store.wf(),
        ensures
            r == (self.spec_valid(*store) && lookup(self.spec_entries(*store), key@) == Some(
                Val::Bool(true),
            )),
    {
        match self.entry_node(store, key) {
            Some(c) => match c {
                Node::Bool(b) => *b,
                _ => {
                    proof {
                        lemma_view_kind(*c);
                    }
                    false
                },
            },
            None => false,
        }
    }

    /// Returns the value under `key` as an int; zero when the handle is
    /// stale, the key absent, or the entry of another type.
    pub fn get_int(&self, store: &ValueStore, key: &str) -> (r: i32)
        requires
            store.wf(),
        ensures
            r == if self.spec_valid(*store) {
                match lookup(self.spec_entries(*store), key@) {
                    Some(Val::Int(x)) => x,
                    _ => 0,
                }
            } else {
                0
            },
    {
        match self.entry_node(store, key) {
            Some(c) => {
                proof {
                    lemma_view_kind(*c);
                }
                match c {
                    Node::Int(x) => *x,
                    _ => 0,
                }
            },
            None => 0,
        }
    }

    /// Returns the value under `key` as a double's bit pattern; zero when the
    /// handle is stale, the key absent, or the entry of another type. The
    /// boundary converts the bits to the host's floating point type.
    pub fn get_double(&self, store: &ValueStore, key: &str) -> (r: u64)
        requires
            store.wf(),
        ensures
            r == if self.spec_valid(*store) {
                match lookup(self.spec_entries(*store), key@) {
                    Some(Val::Double(x)) => x,
                    _ => 0u64,
                }
            } else {
                0u64
            },
    {
        match self.entry_node(store, key) {
            Some(c) => {
                proof {
                    lemma_view_kind(*c);
                }
                match c {
                    Node::Double(x) => *x,
                    _ => 0,
                }
            },
            None => 0,
        }
    }

    /// Returns the value under `key` as a string; empty when the handle is
    /// stale, the key absent, or the entry of another type.
    pub fn get_string(&self, store: &ValueStore, key: &str) -> (r: String)
        requires
            store.wf(),
        ensures
            r@ == if self.spec_valid(*store) {
                match lookup(self.spec_entries(*store), key@) {
                    Some(Val::Str(sq)) => sq,
                    _ => Seq::<char>::empty(),
                }
            } else {
                Seq::<char>::empty()
            },
    {
        match self.entry_node(store, key) {
            Some(c) => {
                proof {
                    lemma_view_kind(*c);
                }
                match c {
                    Node::Str(sv) => sv.clone(),
                    _ => String::new(),
                }
            },
            None => String::new(),
        }
    }

    /// Returns the value under `key` as a binary handle. The handle
    /// references the existing data: it does not copy.
    pub fn try_get_binary(&self, store: &ValueStore, key: &str) -> (r: Option<BinaryValue>)
        requires
            store.wf(),
        ensures
            r is Some <==> (self.spec_valid(*store) && lookup_kind(
                self.spec_entries(*store),
                key@,
                ValueType::Binary,
            )),
            r matches Some(h) ==> {
                &&& bin_live(h.place, *store)
                &&& anchor_target(h.place, *store) == lookup(self.spec_entries(*store), key@)
                &&& h.place.root == self.place.root
                &&& h.place.path@.len() == self.place.path@.len() + 1
                &&& h.cursor == 0
            },
    {
        match self.child_anchor(store, key, ValueType::Binary) {
            Some(a) => Some(BinaryValue { place: a, cursor: 0 }),
            None => None,
        }
    }

    /// Returns the value under `key` as a dictionary handle. The handle
    /// references the existing data: modifications through it modify this
    /// object.
    pub fn try_get_dictionary(&self, store: &ValueStore, key: &str) -> (r: Option<DictionaryValue>)
        requires
            store.wf(),
        ensures
            r is Some <==> (self.spec_valid(*store) && lookup_kind(
                self.spec_entries(*store),
                key@,
                ValueType::Dictionary,
            )),
            r matches Some(h) ==> {
                &&& dict_live(h.place, *store)
                &&& anchor_target(h.place, *store) == lookup(self.spec_entries(*store), key@)
                &&& h.place.root == self.place.root
                &&& h.place.path@.len() == self.place.path@.len() + 1
            },
    {
        match self.child_anchor(store, key, ValueType::Dictionary) {
            Some(a) => Some(DictionaryValue { place: a }),
            None => None,
        }
    }

    /// Returns the value under `key` as a list handle. The handle references
    /// the existing data: modifications through it modify this object.
    pub fn try_get_list(&self, store: &ValueStore, key: &str) -> (r: Option<ListValue>)
        requires
            store.wf(),
        ensures
            r is Some <==> (self.spec_valid(*store) && lookup_kind(
                self.spec_entries(*store),
                key@,
                ValueType::List,
            )),
            r matches Some(h) ==> {
                &&& list_live(h.place, *store)
                &&& anchor_target(h.place, *store) == lookup(self.spec_entries(*store), key@)
                &&& h.place.root == self.place.root
                &&& h.place.path@.len() == self.place.path@.len() + 1
            },
    {
        match self.child_anchor(store, key, ValueType::List) {
            Some(a) => Some(ListValue { place: a }),
            None => None,
        }
    }

    /// An anchor for the complex value under `key`, when it has the wanted
    /// kind.
    fn child_anchor(&self, store: &ValueStore, key: &str, want: ValueType) -> (r: Option<Anchor>)
        requires
            store.wf(),
            want == ValueType::Binary || want == ValueType::Dictionary || want == ValueType::List,
        ensures
            r is Some <==> (self.spec_valid(*store) && lookup_kind(
                self.spec_entries(*store),
                key@,
                want,
            )),
            r matches Some(a) ==> {
                &&& anchor_target(a, *store) == lookup(self.spec_entries(*store), key@)
                &&& anchor_live(a, *store)
                &&& val_stamp(lookup(self.spec_entries(*store), key@)->Some_0) == Some(a.stamp)
                &&& a.root == self.place.root
                &&& a.path@.len() == self.place.path@.len() + 1
            },
    {
        match self.entry_node(store, key) {
            Some(c) => {
                proof {
                    lemma_view_kind(*c);
                }
                let stamp = match c {
                    Node::Binary(bn) => if matches!(want, ValueType::Binary) {
                        Some(bn.stamp)
                    } else {
                        None
                    },
                    Node::Dict(dn) => if matches!(want, ValueType::Dictionary) {
                        Some(dn.stamp)
                    } else {
                        None
                    },
                    Node::List(ln) => if matches!(want, ValueType::List) {
                        Some(ln.stamp)
                    } else {
                        None
                    },
                    _ => None,
                };
                match stamp {
                    Some(st) => {
                        let mut path = clone_path(&self.place.path);
                        let seg = PathSeg::Key(key.to_owned());
                        let ghost gseg = seg;
                        path.push(seg);
                        proof {
                            let rv = store.root_val(self.place.root as int)->Some_0;
                            lemma_resolve_snoc(rv, self.place.path@, gseg);
                            assert(path@ =~= self.place.path@.push(gseg));
                        }
                        Some(Anchor { root: self.place.root, path, stamp: st })
                    },
                    None => None,
                }
            },
            None => None,
        }
    }
}

impl DictionaryValue {
    /// Applies one op at this handle's place, after checking the handle.
    fn dict_apply(&self, store: &mut ValueStore, op: TreeOp) -> (r: bool)
        requires
            old(store).wf(),
            crate::tree::op_wf(op),
        ensures
            final(store).wf(),
            final(store).roots@.len() == old(store).roots@.len(),
            final(store).next_stamp == old(store).next_stamp,
            forall|t: int|
                t != self.place.root as int ==> final(store).root_val(t) == old(store).root_val(t),
            !r ==> forall|t: int| final(store).root_val(t) == old(store).root_val(t),
            r == (self.spec_valid(*old(store)) && match old(store).root_val(
                self.place.root as int,
            ) {
                Some(rv) => apply_at(rv, self.place.path@, op) is Some,
                None => false,
            }),
            r ==> anchor_target(self.place, *final(store)) == Some(
                apply_op(anchor_target(self.place, *old(store))->Some_0, op)->Some_0,
            ),
            r && !(op is MarkReadOnly) ==> anchor_mutable(self.place, *final(store)),
    {
        let valid = self.is_valid(store);
        if !valid {
            return false;
        }
        let ghost gop = op;
        let r = apply_in_store(store, &self.place, op);
        proof {
            let ri = self.place.root as int;
            assert(old(store).root_val(ri) is Some);
            if r {
                let rv = old(store).root_val(ri)->Some_0;
                assert(val_wf(rv)) by {
                    assert(old(store).roots@[ri] is Some);
                }
                lemma_resolve_after_apply(rv, self.place.path@, gop);
                if !(gop is MarkReadOnly) {
                    lemma_apply_keeps_mutable(rv, self.place.path@, gop);
                }
            }
            assert forall|t: int| t != ri implies final(store).root_val(t) == old(
                store,
            ).root_val(t) by {
                if 0 <= t < old(store).roots@.len() {
                    assert(final(store).roots@[t] == old(store).roots@[t]);
                }
            }
        }
        r
    }

    /// Sets the value under `key` to null. Returns true if the value was set
    /// successfully.
    pub fn insert_null(&self, store: &mut ValueStore, key: &str) -> (r: bool)
        requires
            old(store).wf(),
        ensures
            final(store).wf(),
            final(store).roots@.len() == old(store).roots@.len(),
            forall|t: int|
                t != self.place.root as int ==> final(store).root_val(t) == old(store).root_val(t),
            !r ==> forall|t: int| final(store).root_val(t) == old(store).root_val(t),
            r == (self.spec_valid(*old(store)) && self.spec_mutable(*old(store))),
            r ==> self.spec_valid(*final(store)) && self.spec_entries(*final(store)) == entries_put(
                self.spec_entries(*old(store)),
                key@,
                Val::Null,
            ),
            r ==> self.spec_mutable(*final(store)),
            r ==> lookup(self.spec_entries(*final(store)), key@) == Some(Val::Null),
            r ==> self.spec_entries(*final(store)).len() == self.spec_entries(*old(store)).len()
                + (if has_key(self.spec_entries(*old(store)), key@) {
                0int
            } else {
                1int
            }),
            r ==> forall|k2: Seq<char>|
                k2 != key@ ==> #[trigger] lookup(self.spec_entries(*final(store)), k2) == lookup(
                    self.spec_entries(*old(store)),
                    k2,
                ),
    {
        let op = TreeOp::DictPut(key.to_owned(), Node::Null);
        let ghost gop = op;
        let r = self.dict_apply(store, op);
        proof {
            self.lemma_put(*old(store), gop, key@, Val::Null, r);
            if r {
                self.lemma_entries_unique(*old(store));
                lemma_lookup_put(self.spec_entries(*old(store)), key@, Val::Null);
            }
        }
        r
    }

    /// Sets the value under `key` to a bool. Returns true if the value was
    /// set successfully.
    pub fn insert_bool(&self, store: &mut ValueStore, key: &str, value: bool) -> (r: bool)
        requires
            old(store).wf(),
        ensures
            final(store).wf(),
            final(store).roots@.len() == old(store).roots@.len(),
            forall|t: int|
                t != self.place.root as int ==> final(store).root_val(t) == old(store).root_val(t),
            !r ==> forall|t: int| final(store).root_val(t) == old(store).root_val(t),
            r == (self.spec_valid(*old(store)) && self.spec_mutable(*old(store))),
            r ==> self.spec_valid(*final(store)) && self.spec_entries(*final(store)) == entries_put(
                self.spec_entries(*old(store)),
                key@,
                Val::Bool(value),
            ),
            r ==> self.spec_mutable(*final(store)),
            r ==> lookup(self.spec_entries(*final(store)), key@) == Some(Val::Bool(value)),
            r ==> self.spec_entries(*final(store)).len() == self.spec_entries(*old(store)).len()
                + (if has_key(self.spec_entries(*old(store)), key@) {
                0int
            } else {
                1int
            }),
            r ==> forall|k2: Seq<char>|
                k2 != key@ ==> #[trigger] lookup(self.spec_entries(*final(store)), k2) == lookup(
                    self.spec_entries(*old(store)),
                    k2,
                ),
    {
        let op = TreeOp::DictPut(key.to_owned(), Node::Bool(value));
        let ghost gop = op;
        let r = self.dict_apply(store, op);
        proof {
            self.lemma_put(*old(store), gop, key@, Val::Bool(value), r);
            if r {
                self.lemma_entries_unique(*old(store));
                lemma_lookup_put(self.spec_entries(*old(store)), key@, Val::Bool(value));
            }
        }
        r
    }

    /// Sets the value under `key` to an int. Returns true if the value was
    /// set successfully.
    pub fn insert_int(&self, store: &mut ValueStore, key: &str, value: i32) -> (r: bool)
        requires
            old(store).wf(),
        ensures
            final(store).wf(),
            final(store).roots@.len() == old(store).roots@.len(),
            forall|t: int|
                t != self.place.root as int ==> final(store).root_val(t) == old(store).root_val(t),
            !r ==> forall|t: int| final(store).root_val(t) == old(store).root_val(t),
            r == (self.spec_valid(*old(store)) && self.spec_mutable(*old(store))),
            r ==> self.spec_valid(*final(store)) && self.spec_entries(*final(store)) == entries_put(
                self.spec_entries(*old(store)),
                key@,
                Val::Int(value),
            ),
            r ==> self.spec_mutable(*final(store)),
            r ==> lookup(self.spec_entries(*final(store)), key@) == Some(Val::Int(value)),
            r ==> self.spec_entries(*final(store)).len() == self.spec_entries(*old(store)).len()
                + (if has_key(self.spec_entries(*old(store)), key@) {
                0int
            } else {
                1int
            }),
            r ==> forall|k2: Seq<char>|
                k2 != key@ ==> #[trigger] lookup(self.spec_entries(*final(store)), k2) == lookup(
                    self.spec_entries(*old(store)),
                    k2,
                ),
    {
        let op = TreeOp::DictPut(key.to_owned(), Node::Int(value));
        let ghost gop = op;
        let r = self.dict_apply(store, op);
        proof {
            self.lemma_put(*old(store), gop, key@, Val::Int(value), r);
            if r {
                self.lemma_entries_unique(*old(store));
                lemma_lookup_put(self.spec_entries(*old(store)), key@, Val::Int(value));
            }
        }
        r
    }

    /// Sets the value under `key` to a double, given as its bit pattern.
    /// Returns true if the value was set successfully.
    pub fn insert_double(&self, store: &mut ValueStore, key: &str, bits: u64) -> (r: bool)
        requires
            old(store).wf(),
        ensures
            final(store).wf(),
            final(store).roots@.len() == old(store).roots@.len(),
            forall|t: int|
                t != self.place.root as int ==> final(store).root_val(t) == old(store).root_val(t),
            !r ==> forall|t: int| final(store).root_val(t) == old(store).root_val(t),
            r == (self.spec_valid(*old(store)) && self.spec_mutable(*old(store))),
            r ==> self.spec_valid(*final(store)) && self.spec_entries(*final(store)) == entries_put(
                self.spec_entries(*old(store)),
                key@,
                Val::Double(bits),
            ),
            r ==> self.spec_mutable(*final(store)),
            r ==> lookup(self.spec_entries(*final(store)), key@) == Some(Val::Double(bits)),
            r ==> self.spec_entries(*final(store)).len() == self.spec_entries(*old(store)).len()
                + (if has_key(self.spec_entries(*old(store)), key@) {
                0int
            } else {
                1int
            }),
            r ==> forall|k2: Seq<char>|
                k2 != key@ ==> #[trigger] lookup(self.spec_entries(*final(store)), k2) == lookup(
                    self.spec_entries(*old(store)),
                    k2,
                ),
    {
        let op = TreeOp::DictPut(key.to_owned(), Node::Double(bits));
        let ghost gop = op;
        let r = self.dict_apply(store, op);
        proof {
            self.lemma_put(*old(store), gop, key@, Val::Double(bits), r);
            if r {
                self.lemma_entries_unique(*old(store));
                lemma_lookup_put(self.spec_entries(*old(store)), key@, Val::Double(bits));
            }
        }
        r
    }

    /// Sets the value under `key` to a string. Returns true if the value was
    /// set successfully.
    pub fn insert_string(&self, store: &mut ValueStore, key: &str, value: &str) -> (r: bool)
        requires
            old(store).wf(),
        ensures
            final(store).wf(),
            final(store).roots@.len() == old(store).roots@.len(),
            forall|t: int|
                t != self.place.root as int ==> final(store).root_val(t) == old(store).root_val(t),
            !r ==> forall|t: int| final(store).root_val(t) == old(store).root_val(t),
            r == (self.spec_valid(*old(store)) && self.spec_mutable(*old(store))),
            r ==> self.spec_valid(*final(store)) && self.spec_entries(*final(store)) == entries_put(
                self.spec_entries(*old(store)),
                key@,
                Val::Str(value@),
            ),
            r ==> self.spec_mutable(*final(store)),
            r ==> lookup(self.spec_entries(*final(store)), key@) == Some(Val::Str(value@)),
            r ==> self.spec_entries(*final(store)).len() == self.spec_entries(*old(store)).len()
                + (if has_key(self.spec_entries(*old(store)), key@) {
                0int
            } else {
                1int
            }),
            r ==> forall|k2: Seq<char>|
                k2 != key@ ==> #[trigger] lookup(self.spec_entries(*final(store)), k2) == lookup(
                    self.spec_entries(*old(store)),
                    k2,
                ),
    {
        let op = TreeOp::DictPut(key.to_owned(), Node::Str(value.to_owned()));
        let ghost gop = op;
        let r = self.dict_apply(store, op);
        proof {
            self.lemma_put(*old(store), gop, key@, Val::Str(value@), r);
            if r {
                self.lemma_entries_unique(*old(store));
                lemma_lookup_put(self.spec_entries(*old(store)), key@, Val::Str(value@));
            }
        }
        r
    }

    /// Removes the value under `key`. Returns true if the value was removed
    /// successfully.
    pub fn remove(&self, store: &mut ValueStore, key: &str) -> (r: bool)
        requires
            old(store).wf(),
        ensures
            final(store).wf(),
            final(store).roots@.len() == old(store).roots@.len(),
            forall|t: int|
                t != self.place.root as int ==> final(store).root_val(t) == old(store).root_val(t),
            !r ==> forall|t: int| final(store).root_val(t) == old(store).root_val(t),
            r == (self.spec_valid(*old(store)) && self.spec_mutable(*old(store)) && has_key(
                self.spec_entries(*old(store)),
                key@,
            )),
            r ==> self.spec_valid(*final(store)) && self.spec_entries(*final(store))
                == self.spec_entries(*old(store)).remove(
                key_index(self.spec_entries(*old(store)), key@),
            ),
            r ==> self.spec_mutable(*final(store)),
    {
        let op = TreeOp::DictRemove(key.to_owned());
        let ghost gop = op;
        let r = self.dict_apply(store, op);
        proof {
            if self.spec_valid(*old(store)) {
                let rv = old(store).root_val(self.place.root as int)->Some_0;
                assert(val_wf(rv)) by {
                    assert(old(store).roots@[self.place.root as int] is Some);
                }
                lemma_apply_at_success(rv, self.place.path@, gop);
            }
        }
        r
    }

    /// Removes all entries. Returns true on success.
    pub fn clear(&self, store: &mut ValueStore) -> (r: bool)
        requires
            old(store).wf(),
        ensures
            final(store).wf(),
            final(store).roots@.len() == old(store).roots@.len(),
            forall|t: int|
                t != self.place.root as int ==> final(store).root_val(t) == old(store).root_val(t),
            !r ==> forall|t: int| final(store).root_val(t) == old(store).root_val(t),
            r == (self.spec_valid(*old(store)) && self.spec_mutable(*old(store))),
            r ==> self.spec_valid(*final(store)) && self.spec_entries(*final(store)) == Seq::<
                (Seq<char>, Val),
            >::empty(),
            r ==> self.spec_mutable(*final(store)),
    {
        let op = TreeOp::DictClear;
        let ghost gop = op;
        let r = self.dict_apply(store, op);
        proof {
            if self.spec_valid(*old(store)) {
                let rv = old(store).root_val(self.place.root as int)->Some_0;
                assert(val_wf(rv)) by {
                    assert(old(store).roots@[self.place.root as int] is Some);
                }
                lemma_apply_at_success(rv, self.place.path@, gop);
            }
        }
        r
    }

    /// Not read-only is exactly valid-and-mutable: on a valid dictionary
    /// that is not read-only, every mutation's handle-side condition holds.
    pub proof fn lemma_writable_iff(self, s: ValueStore)
        ensures
            !self.spec_read_only(s) <==> (self.spec_valid(s) && self.spec_mutable(s)),
    {
    }

    /// A valid dictionary's entries have unique keys: the store only holds
    /// well-formed trees.
    pub proof fn lemma_entries_unique(self, s: ValueStore)
        requires
            s.wf(),
            self.spec_valid(s),
        ensures
            crate::tree::keys_unique(self.spec_entries(s)),
    {
        let rv = s.root_val(self.place.root as int)->Some_0;
        assert(val_wf(rv)) by {
            assert(s.roots@[self.place.root as int] is Some);
        }
        lemma_resolve_wf(rv, self.place.path@);
        lemma_wf_children(anchor_target(self.place, s)->Some_0);
    }

    /// What a successful or failed put means at this handle, given what
    /// `dict_apply` reports.
    proof fn lemma_put(&self, pre: ValueStore, op: TreeOp, key: Seq<char>, x: Val, r: bool)
        requires
            pre.wf(),
            op matches TreeOp::DictPut(k, n) && k@ == key && n@ == x,
            r == (self.spec_valid(pre) && match pre.root_val(self.place.root as int) {
                Some(rv) => apply_at(rv, self.place.path@, op) is Some,
                None => false,
            }),
        ensures
            r == (self.spec_valid(pre) && self.spec_mutable(pre)),
            r ==> (apply_op(anchor_target(self.place, pre)->Some_0, op) matches Some(v2) && v2
                is Dict && v2->Dict_stamp == self.place.stamp && v2->Dict_entries == entries_put(
                self.spec_entries(pre),
                key,
                x,
            )),
    {
        if self.spec_valid(pre) {
            let rv = pre.root_val(self.place.root as int)->Some_0;
            assert(val_wf(rv)) by {
                assert(pre.roots@[self.place.root as int] is Some);
            }
            lemma_apply_at_success(rv, self.place.path@, op);
        }
    }
}

/// A scalar payload's value; `None` for complex payloads.
pub open spec fn payload_scalar(p: ValuePayload) -> Option<Val> {
    match p {
        ValuePayload::Null => Some(Val::Null),
        ValuePayload::Bool(b) => Some(Val::Bool(b)),
        ValuePayload::Int(i) => Some(Val::Int(i)),
        ValuePayload::Double(d) => Some(Val::Double(d)),
        ValuePayload::Str(sv) => Some(Val::Str(sv@)),
        _ => None,
    }
}

/// A complex payload's anchor; `None` for scalar payloads.
pub open spec fn payload_anchor(p: ValuePayload) -> Option<Anchor> {
    match p {
        ValuePayload::Binary(a) => Some(a),
        ValuePayload::Dict(a) => Some(a),
        ValuePayload::List(a) => Some(a),
        _ => None,
    }
}

impl DictionaryValue {
    /// Places the complex value behind `src` under `key`: an unowned source
    /// moves in, an owned one is deep-copied.
    fn put_complex(&self, store: &mut ValueStore, key: &str, src: &Anchor) -> (r: bool)
        requires
            old(store).wf(),
        ensures
            final(store).wf(),
            final(store).roots@.len() == old(store).roots@.len(),
            forall|t: int|
                t != self.place.root as int && t != src.root as int ==> final(store).root_val(t)
                    == old(store).root_val(t),
            r == (self.spec_valid(*old(store)) && self.spec_mutable(*old(store)) && anchor_live(
                *src,
                *old(store),
            ) && (src.path@.len() > 0 || src.root != self.place.root)),
            !r ==> forall|t: int| final(store).root_val(t) == old(store).root_val(t),
            r ==> self.spec_valid(*final(store)),
            r ==> self.spec_mutable(*final(store)),
            r && src.path@.len() > 0 ==> {
                &&& forall|t: int|
                    t != self.place.root as int
                        ==> final(store).root_val(t) == old(store).root_val(t)
                &&& exists|cv: Val|
                    #[trigger] copy_of(anchor_target(*src, *old(store))->Some_0, cv)
                        && self.spec_entries(*final(store)) == entries_put(
                        self.spec_entries(*old(store)),
                        key@,
                        cv,
                    )
            },
            r && src.path@.len() == 0 ==> {
                &&& final(store).root_val(src.root as int) is None
                &&& self.spec_entries(*final(store)) == entries_put(
                    self.spec_entries(*old(store)),
                    key@,
                    anchor_target(*src, *old(store))->Some_0,
                )
            },
    {
        if !self.is_valid(store) {
            return false;
        }
        let mutable = match &store.roots[self.place.root] {
            Some(n) => {
                proof {
                    assert(val_wf(n@));
                    assert(self.place.path@.skip(0) =~= self.place.path@);
                }
                crate::tree::path_mutable_exec(n, &self.place.path, 0)
            },
            None => false,
        };
        if !mutable {
            return false;
        }
        if !anchor_live_exec(store, src) {
            return false;
        }
        if src.path.len() == 0 && src.root == self.place.root {
            return false;
        }
        let node = match detach_or_copy(store, src, self.place.root) {
            Some(n) => n,
            None => {
                proof {
                    assert(false);
                }
                return false;
            },
        };
        let ghost mid = *store;
        let ghost nodeval = node@;
        let op = TreeOp::DictPut(key.to_owned(), node);
        let ghost gop = op;
        let ok = apply_in_store(store, &self.place, op);
        proof {
            let ri = self.place.root as int;
            let rv = old(store).root_val(ri)->Some_0;
            assert(mid.root_val(ri) == old(store).root_val(ri));
            assert(val_wf(rv)) by {
                assert(old(store).roots@[ri] is Some);
            }
            lemma_apply_at_success(rv, self.place.path@, gop);
            assert(ok);
            lemma_resolve_after_apply(rv, self.place.path@, gop);
            lemma_apply_keeps_mutable(rv, self.place.path@, gop);
            assert(anchor_target(self.place, *final(store)) == Some(
                apply_op(anchor_target(self.place, *old(store))->Some_0, gop)->Some_0,
            ));
            assert forall|t: int|
                t != ri && t != src.root as int implies final(store).root_val(t) == old(
                store,
            ).root_val(t) by {
                if 0 <= t < mid.roots@.len() {
                    assert(final(store).roots@[t] == mid.roots@[t]);
                }
            }
            if src.path@.len() > 0 {
                assert(copy_of(anchor_target(*src, *old(store))->Some_0, nodeval));
                assert(self.spec_entries(*final(store)) == entries_put(
                    self.spec_entries(*old(store)),
                    key@,
                    nodeval,
                ));
            } else {
                assert(final(store).root_val(src.root as int) == mid.root_val(src.root as int));
            }
        }
        ok
    }

    /// Sets the value under `key` to the given binary data. Returns true if
    /// the value was set successfully. If `value` is currently owned by
    /// another object its data is copied and other handles to it stay good;
    /// otherwise ownership transfers to this dictionary and every other
    /// handle to `value`'s storage goes stale.
    pub fn insert_binary(&self, store: &mut ValueStore, key: &str, value: BinaryValue) -> (r: bool)
        requires
            old(store).wf(),
        ensures
            final(store).wf(),
            final(store).roots@.len() == old(store).roots@.len(),
            forall|t: int|
                t != self.place.root as int && t != value.place.root as int
                    ==> final(store).root_val(t) == old(store).root_val(t),
            r == (self.spec_valid(*old(store)) && self.spec_mutable(*old(store)) && anchor_live(
                value.place,
                *old(store),
            ) && (value.place.path@.len() > 0 || value.place.root != self.place.root)),
            !r ==> forall|t: int| final(store).root_val(t) == old(store).root_val(t),
            r ==> self.spec_valid(*final(store)),
            r ==> self.spec_mutable(*final(store)),
            r && value.place.path@.len() > 0 ==> {
                &&& forall|t: int|
                    t != self.place.root as int
                        ==> final(store).root_val(t) == old(store).root_val(t)
                &&& exists|cv: Val|
                    #[trigger] copy_of(anchor_target(value.place, *old(store))->Some_0, cv)
                        && self.spec_entries(*final(store)) == entries_put(
                        self.spec_entries(*old(store)),
                        key@,
                        cv,
                    )
            },
            r && value.place.path@.len() == 0 ==> {
                &&& final(store).root_val(value.place.root as int) is None
                &&& self.spec_entries(*final(store)) == entries_put(
                    self.spec_entries(*old(store)),
                    key@,
                    anchor_target(value.place, *old(store))->Some_0,
                )
            },
    {
        self.put_complex(store, key, &value.place)
    }

    /// Sets the value under `key` to the given dictionary. Returns true if
    /// the value was set successfully. If `value` is currently owned by
    /// another object its data is copied and other handles to it stay good;
    /// otherwise ownership transfers to this dictionary and every other
    /// handle to `value`'s storage goes stale.
    pub fn insert_dictionary(
        &self,
        store: &mut ValueStore,
        key: &str,
        value: DictionaryValue,
    ) -> (r: bool)
        requires
            old(store).wf(),
        ensures
            final(store).wf(),
            final(store).roots@.len() == old(store).roots@.len(),
            forall|t: int|
                t != self.place.root as int && t != value.place.root as int
                    ==> final(store).root_val(t) == old(store).root_val(t),
            r == (self.spec_valid(*old(store)) && self.spec_mutable(*old(store)) && anchor_live(
                value.place,
                *old(store),
            ) && (value.place.path@.len() > 0 || value.place.root != self.place.root)),
            !r ==> forall|t: int| final(store).root_val(t) == old(store).root_val(t),
            r ==> self.spec_valid(*final(store)),
            r ==> self.spec_mutable(*final(store)),
            r && value.place.path@.len() > 0 ==> {
                &&& forall|t: int|
                    t != self.place.root as int
                        ==> final(store).root_val(t) == old(store).root_val(t)
                &&& exists|cv: Val|
                    #[trigger] copy_of(anchor_target(value.place, *old(store))->Some_0, cv)
                        && self.spec_entries(*final(store)) == entries_put(
                        self.spec_entries(*old(store)),
                        key@,
                        cv,
                    )
            },
            r && value.place.path@.len() == 0 ==> {
                &&& final(store).root_val(value.place.root as int) is None
                &&& self.spec_entries(*final(store)) == entries_put(
                    self.spec_entries(*old(store)),
                    key@,
                    anchor_target(value.place, *old(store))->Some_0,
                )
            },
    {
        self.put_complex(store, key, &value.place)
    }

    /// Sets the value under `key` to the given list. Returns true if the
    /// value was set successfully. If `value` is currently owned by another
    /// object its data is copied and other handles to it stay good; otherwise
    /// ownership transfers to this dictionary and every other handle to
    /// `value`'s storage goes stale.
    pub fn insert_list(&self, store: &mut ValueStore, key: &str, value: ListValue) -> (r: bool)
        requires
            old(store).wf(),
        ensures
            final(store).wf(),
            final(store).roots@.len() == old(store).roots@.len(),
            forall|t: int|
                t != self.place.root as int && t != value.place.root as int
                    ==> final(store).root_val(t) == old(store).root_val(t),
            r == (self.spec_valid(*old(store)) && self.spec_mutable(*old(store)) && anchor_live(
                value.place,
                *old(store),
            ) && (value.place.path@.len() > 0 || value.place.root != self.place.root)),
            !r ==> forall|t: int| final(store).root_val(t) == old(store).root_val(t),
            r ==> self.spec_valid(*final(store)),
            r ==> self.spec_mutable(*final(store)),
            r && value.place.path@.len() > 0 ==> {
                &&& forall|t: int|
                    t != self.place.root as int
                        ==> final(store).root_val(t) == old(store).root_val(t)
                &&& exists|cv: Val|
                    #[trigger] copy_of(anchor_target(value.place, *old(store))->Some_0, cv)
                        && self.spec_entries(*final(store)) == entries_put(
                        self.spec_entries(*old(store)),
                        key@,
                        cv,
                    )
            },
            r && value.place.path@.len() == 0 ==> {
                &&& final(store).root_val(value.place.root as int) is None
                &&& self.spec_entries(*final(store)) == entries_put(
                    self.spec_entries(*old(store)),
                    key@,
                    anchor_target(value.place, *old(store))->Some_0,
                )
            },
    {
        self.put_complex(store, key, &value.place)
    }

    /// Sets the value under `key`. Scalar data is copied in; complex data is
    /// referenced, moving in when unowned and copying when already owned, as
    /// for the typed inserts.
    pub fn insert(&self, store: &mut ValueStore, key: &str, value: Value) -> (r: bool)
        requires
            old(store).wf(),
        ensures
            final(store).wf(),
            final(store).roots@.len() == old(store).roots@.len(),
            payload_scalar(value.payload) matches Some(sv) ==> {
                &&& forall|t: int|
                    t != self.place.root as int
                        ==> final(store).root_val(t) == old(store).root_val(t)
                &&& r == (self.spec_valid(*old(store)) && self.spec_mutable(*old(store)))
                &&& r ==> self.spec_valid(*final(store)) && self.spec_mutable(*final(store))
                    && self.spec_entries(*final(store)) == entries_put(
                    self.spec_entries(*old(store)),
                    key@,
                    sv,
                )
            },
            payload_anchor(value.payload) matches Some(a) ==> {
                &&& forall|t: int|
                    t != self.place.root as int && t != a.root as int ==> final(store).root_val(t)
                        == old(store).root_val(t)
                &&& r == (self.spec_valid(*old(store)) && self.spec_mutable(*old(store))
                    && anchor_live(a, *old(store)) && (a.path@.len() > 0 || a.root
                    != self.place.root))
                &&& r ==> self.spec_valid(*final(store)) && self.spec_mutable(*final(store))
                &&& r && a.path@.len() == 0 ==> final(store).root_val(a.root as int) is None
                    && self.spec_entries(*final(store)) == entries_put(
                    self.spec_entries(*old(store)),
                    key@,
                    anchor_target(a, *old(store))->Some_0,
                )
                &&& r && a.path@.len() > 0 ==> exists|cv: Val|
                    #[trigger] copy_of(anchor_target(a, *old(store))->Some_0, cv)
                        && self.spec_entries(*final(store)) == entries_put(
                        self.spec_entries(*old(store)),
                        key@,
                        cv,
                    )
            },
            !r ==> forall|t: int| final(store).root_val(t) == old(store).root_val(t),
    {
        match value.payload {
            ValuePayload::Null => {
                let op = TreeOp::DictPut(key.to_owned(), Node::Null);
                let ghost gop = op;
                let r = self.dict_apply(store, op);
                proof {
                    self.lemma_put(*old(store), gop, key@, Val::Null, r);
                }
                r
            },
            ValuePayload::Bool(b) => {
                let op = TreeOp::DictPut(key.to_owned(), Node::Bool(b));
                let ghost gop = op;
                let r = self.dict_apply(store, op);
                proof {
                    self.lemma_put(*old(store), gop, key@, Val::Bool(b), r);
                }
                r
            },
            ValuePayload::Int(x) => {
                let op = TreeOp::DictPut(key.to_owned(), Node::Int(x));
                let ghost gop = op;
                let r = self.dict_apply(store, op);
                proof {
                    self.lemma_put(*old(store), gop, key@, Val::Int(x), r);
                }
                r
            },
            ValuePayload::Double(d) => {
                let op = TreeOp::DictPut(key.to_owned(), Node::Double(d));
                let ghost gop = op;
                let r = self.dict_apply(store, op);
                proof {
                    self.lemma_put(*old(store), gop, key@, Val::Double(d), r);
                }
                r
            },
            ValuePayload::Str(sv) => {
                let ghost svv = sv@;
                let op = TreeOp::DictPut(key.to_owned(), Node::Str(sv));
                let ghost gop = op;
                let r = self.dict_apply(store, op);
                proof {
                    self.lemma_put(*old(store), gop, key@, Val::Str(svv), r);
                }
                r
            },
            ValuePayload::Binary(a) => self.put_complex(store, key, &a),
            ValuePayload::Dict(a) => self.put_complex(store, key, &a),
            ValuePayload::List(a) => self.put_complex(store, key, &a),
        }
    }
}

impl ListValue {
    /// The handle still addresses its list.
    pub open spec fn spec_valid(self, s: ValueStore) -> bool {
        list_live(self.place, s)
    }

    /// The list's items, meaningful while the handle is valid.
    pub open spec fn spec_items(self, s: ValueStore) -> Seq<Val> {
        anchor_target(self.place, s)->Some_0->List_items
    }

    /// The list's storage is owned by an enclosing container.
    pub open spec fn spec_owned(self, s: ValueStore) -> bool {
        self.spec_valid(s) && self.place.path@.len() > 0
    }

    /// Mutation through this handle is refused: the handle is stale, or the
    /// list itself or a container enclosing it is read-only. A valid list
    /// that is not read-only is exactly one whose mutations go through.
    pub open spec fn spec_read_only(self, s: ValueStore) -> bool {
        !self.spec_valid(s) || !anchor_mutable(self.place, s)
    }

    /// The handle's whole path can be mutated through.
    pub open spec fn spec_mutable(self, s: ValueStore) -> bool {
        anchor_mutable(self.place, s)
    }

    /// Creates a new list that is not owned by any other object.
    pub fn new(store: &mut ValueStore) -> (l: ListValue)
        requires
            old(store).wf(),
        ensures
            final(store).wf(),
            final(store).roots@.len() == old(store).roots@.len() + 1,
            forall|t: int|
                0 <= t < old(store).roots@.len() ==> final(store).roots@[t] == old(
                    store,
                ).roots@[t],
            l.place.root == old(store).roots@.len(),
            l.place.path@.len() == 0,
            l.spec_valid(*final(store)),
            l.spec_items(*final(store)) == Seq::<Val>::empty(),
            !l.spec_owned(*final(store)),
            !l.spec_read_only(*final(store)),
            l.spec_mutable(*final(store)),
    {
        let stamp = next_stamp(&mut store.next_stamp);
        let root = store.roots.len();
        let node = Node::List(ListNode { stamp, read_only: false, items: Vec::new() });
        let ghost nv = node@;
        proof {
            assert(items_view(node->List_0.items@) =~= Seq::<Val>::empty());
            assert(val_wf(nv));
        }
        store.roots.push(Some(node));
        let l = ListValue { place: Anchor { root, path: Vec::new(), stamp } };
        proof {
            assert(final(store).root_val(root as int) == Some(nv));
            assert(resolve_path(nv, l.place.path@) == Some(nv));
        }
        l
    }

    /// The list node this handle addresses, while it is live.
    fn node<'a>(&self, store: &'a ValueStore) -> (r: Option<&'a ListNode>)
        requires
            store.wf(),
        ensures
            r is Some <==> self.spec_valid(*store),
            r matches Some(ln) ==> {
                &&& anchor_target(self.place, *store) == Some(node_view(Node::List(*ln)))
                &&& val_wf(node_view(Node::List(*ln)))
                &&& ln.stamp == self.place.stamp
            },
    {
        if self.place.root >= store.roots.len() {
            return None;
        }
        match &store.roots[self.place.root] {
            Some(n) => {
                proof {
                    assert(val_wf(n@));
                }
                match resolve_at(n, &self.place.path, 0) {
                    Some(m) => {
                        proof {
                            assert(self.place.path@.skip(0) =~= self.place.path@);
                            lemma_view_kind(*m);
                        }
                        match m {
                            Node::List(ln) => if ln.stamp == self.place.stamp {
                                Some(ln)
                            } else {
                                None
                            },
                            _ => None,
                        }
                    },
                    None => None,
                }
            },
            None => None,
        }
    }

    /// Returns true if this object is valid. The handle goes stale when the
    /// storage it addresses is moved, displaced or destroyed; do not expect
    /// other operations to succeed once this returns false.
    pub fn is_valid(&self, store: &ValueStore) -> (r: bool)
        requires
            store.wf(),
        ensures
            r == self.spec_valid(*store),
    {
        self.node(store).is_some()
    }

    /// Returns true if the underlying data is owned by another object.
    pub fn is_owned(&self, store: &ValueStore) -> (r: bool)
        requires
            store.wf(),
        ensures
            r == self.spec_owned(*store),
    {
        self.is_valid(store) && self.place.path.len() > 0
    }

    /// Returns true if the underlying data is read-only, because this list
    /// or a container enclosing it is so marked, or because the handle is
    /// stale. Some engine interfaces expose read-only objects. A valid list
    /// that is not read-only accepts every mutation on an index in range.
    pub fn is_read_only(&self, store: &ValueStore) -> (r: bool)
        requires
            store.wf(),
        ensures
            r == self.spec_read_only(*store),
    {
        !(self.is_valid(store) && anchor_mutable_exec(store, &self.place))
    }

    /// Returns true if this object and `that` object have the same underlying
    /// data: they address the same storage, so modifications through one are
    /// seen through the other.
    pub fn is_same(&self, that: &ListValue) -> (r: bool)
        ensures
            r == same_place(self.place, that.place),
    {
        anchors_same(&self.place, &that.place)
    }

    /// Returns the number of items; zero when the handle is stale.
    pub fn len(&self, store: &ValueStore) -> (r: usize)
        requires
            store.wf(),
        ensures
            r == if self.spec_valid(*store) {
                self.spec_items(*store).len()
            } else {
                0
            },
    {
        match self.node(store) {
            Some(ln) => {
                proof {
                    lemma_items_view(ln.items@);
                }
                ln.items.len()
            },
            None => 0,
        }
    }

    /// The node stored at `index`, while the handle is live and the index in
    /// range.
    fn item_node<'a>(&self, store: &'a ValueStore, index: usize) -> (r: Option<&'a Node>)
        requires
            store.wf(),
        ensures
            r is Some <==> (self.spec_valid(*store) && (index as int) < self.spec_items(
                *store,
            ).len()),
            r matches Some(c) ==> {
                &&& self.spec_items(*store)[index as int] == c@
                &&& val_wf(c@)
            },
    {
        match self.node(store) {
            Some(ln) => {
                proof {
                    lemma_items_view(ln.items@);
                    lemma_wf_children(node_view(Node::List(*ln)));
                }
                if index < ln.items.len() {
                    proof {
                        assert(val_wf(items_view(ln.items@)[index as int]));
                    }
                    Some(&ln.items[index])
                } else {
                    None
                }
            },
            None => None,
        }
    }

    /// Returns the type of the value at `index`, or invalid when the handle
    /// is stale or the index out of range.
    pub fn get_type(&self, store: &ValueStore, index: usize) -> (r: ValueType)
        requires
            store.wf(),
        ensures
            r == if self.spec_valid(*store) && (index as int) < self.spec_items(*store).len() {
                val_type_of(self.spec_items(*store)[index as int])
            } else {
                ValueType::Invalid
            },
    {
        match self.item_node(store, index) {
            Some(c) => node_type(c),
            None => ValueType::Invalid,
        }
    }

    /// Returns the value at `index` as a bool; false when the handle is
    /// stale, the index out of range, or the item of another type.
    pub fn get_bool(&self, store: &ValueStore, index: usize) -> (r: bool)
        requires
            store.wf(),
        ensures
            r == (self.spec_valid(*store) && (index as int) < self.spec_items(*store).len()
                && self.spec_items(*store)[index as int] == Val::Bool(true)),
    {
        match self.item_node(store, index) {
            Some(c) => match c {
                Node::Bool(b) => *b,
                _ => {
                    proof {
                        lemma_view_kind(*c);
                    }
                    false
                },
            },
            None => false,
        }
    }

    /// Returns the value at `index` as an int; zero when the handle is stale,
    /// the index out of range, or the item of another type.
    pub fn get_int(&self, store: &ValueStore, index: usize) -> (r: i32)
        requires
            store.wf(),
        ensures
            r == if self.spec_valid(*store) && (index as int) < self.spec_items(*store).len() {
                match self.spec_items(*store)[index as int] {
                    Val::Int(x) => x,
                    _ => 0,
                }
            } else {
                0
            },
    {
        match self.item_node(store, index) {
            Some(c) => {
                proof {
                    lemma_view_kind(*c);
                }
                match c {
                    Node::Int(x) => *x,
                    _ => 0,
                }
            },
            None => 0,
        }
    }

    /// Returns the value at `index` as a double's bit pattern; zero when the
    /// handle is stale, the index out of range, or the item of another type.
    /// The boundary converts the bits to the host's floating point type.
    pub fn get_double(&self, store: &ValueStore, index: usize) -> (r: u64)
        requires
            store.wf(),
        ensures
            r == if self.spec_valid(*store) && (index as int) < self.spec_items(*store).len() {
                match self.spec_items(*store)[index as int] {
                    Val::Double(x) => x,
                    _ => 0u64,
                }
            } else {
                0u64
            },
    {
        match self.item_node(store, index) {
            Some(c) => {
                proof {
                    lemma_view_kind(*c);
                }
                match c {
                    Node::Double(x) => *x,
                    _ => 0,
                }
            },
            None => 0,
        }
    }

    /// Returns the value at `index` as a string; empty when the handle is
    /// stale, the index out of range, or the item of another type.
    pub fn get_string(&self, store: &ValueStore, index: usize) -> (r: String)
        requires
            store.wf(),
        ensures
            r@ == if self.spec_valid(*store) && (index as int) < self.spec_items(*store).len() {
                match self.spec_items(*store)[index as int] {
                    Val::Str(sq) => sq,
                    _ => Seq::<char>::empty(),
                }
            } else {
                Seq::<char>::empty()
            },
    {
        match self.item_node(store, index) {
            Some(c) => {
                proof {
                    lemma_view_kind(*c);
                }
                match c {
                    Node::Str(sv) => sv.clone(),
                    _ => String::new(),
                }
            },
            None => String::new(),
        }
    }

    /// An anchor for the complex value at `index`, when it has the wanted
    /// kind.
    fn child_anchor(&self, store: &ValueStore, index: usize, want: ValueType) -> (r: Option<
        Anchor,
    >)
        requires
            store.wf(),
            want == ValueType::Binary || want == ValueType::Dictionary || want == ValueType::List,
        ensures
            r is Some <==> (self.spec_valid(*store) && (index as int) < self.spec_items(
                *store,
            ).len() && val_type_of(self.spec_items(*store)[index as int]) == want),
            r matches Some(a) ==> {
                &&& anchor_target(a, *store) == Some(self.spec_items(*store)[index as int])
                &&& anchor_live(a, *store)
                &&& val_stamp(self.spec_items(*store)[index as int]) == Some(a.stamp)
                &&& a.root == self.place.root
                &&& a.path@.len() == self.place.path@.len() + 1
            },
    {
        match self.item_node(store, index) {
            Some(c) => {
                proof {
                    lemma_view_kind(*c);
                }
                let stamp = match c {
                    Node::Binary(bn) => if matches!(want, ValueType::Binary) {
                        Some(bn.stamp)
                    } else {
                        None
                    },
                    Node::Dict(dn) => if matches!(want, ValueType::Dictionary) {
                        Some(dn.stamp)
                    } else {
                        None
                    },
                    Node::List(ln) => if matches!(want, ValueType::List) {
                        Some(ln.stamp)
                    } else {
                        None
                    },
                    _ => None,
                };
                match stamp {
                    Some(st) => {
                        let mut path = clone_path(&self.place.path);
                        let seg = PathSeg::Index(index);
                        let ghost gseg = seg;
                        path.push(seg);
                        proof {
                            let rv = store.root_val(self.place.root as int)->Some_0;
                            lemma_resolve_snoc(rv, self.place.path@, gseg);
                            assert(path@ =~= self.place.path@.push(gseg));
                        }
                        Some(Anchor { root: self.place.root, path, stamp: st })
                    },
                    None => None,
                }
            },
            None => None,
        }
    }

    /// Returns the value at `index` as a binary handle. The handle references
    /// the existing data: it does not copy.
    pub fn try_get_binary(&self, store: &ValueStore, index: usize) -> (r: Option<BinaryValue>)
        requires
            store.wf(),
        ensures
            r is Some <==> (self.spec_valid(*store) && (index as int) < self.spec_items(
                *store,
            ).len() && val_type_of(self.spec_items(*store)[index as int]) == ValueType::Binary),
            r matches Some(h) ==> {
                &&& bin_live(h.place, *store)
                &&& anchor_target(h.place, *store) == Some(self.spec_items(*store)[index as int])
                &&& h.place.root == self.place.root
                &&& h.place.path@.len() == self.place.path@.len() + 1
                &&& h.cursor == 0
            },
    {
        match self.child_anchor(store, index, ValueType::Binary) {
            Some(a) => Some(BinaryValue { place: a, cursor: 0 }),
            None => None,
        }
    }

    /// Returns the value at `index` as a dictionary handle. The handle
    /// references the existing data: modifications through it modify this
    /// object.
    pub fn try_get_dictionary(&self, store: &ValueStore, index: usize) -> (r: Option<
        DictionaryValue,
    >)
        requires
            store.wf(),
        ensures
            r is Some <==> (self.spec_valid(*store) && (index as int) < self.spec_items(
                *store,
            ).len() && val_type_of(self.spec_items(*store)[index as int])
                == ValueType::Dictionary),
            r matches Some(h) ==> {
                &&& dict_live(h.place, *store)
                &&& anchor_target(h.place, *store) == Some(self.spec_items(*store)[index as int])
                &&& h.place.root == self.place.root
                &&& h.place.path@.len() == self.place.path@.len() + 1
            },
    {
        match self.child_anchor(store, index, ValueType::Dictionary) {
            Some(a) => Some(DictionaryValue { place: a }),
            None => None,
        }
    }

    /// Returns the value at `index` as a list handle. The handle references
    /// the existing data: modifications through it modify this object.
    pub fn try_get_list(&self, store: &ValueStore, index: usize) -> (r: Option<ListValue>)
        requires
            store.wf(),
        ensures
            r is Some <==> (self.spec_valid(*store) && (index as int) < self.spec_items(
                *store,
            ).len() && val_type_of(self.spec_items(*store)[index as int]) == ValueType::List),
            r matches Some(h) ==> {
                &&& list_live(h.place, *store)
                &&& anchor_target(h.place, *store) == Some(self.spec_items(*store)[index as int])
                &&& h.place.root == self.place.root
                &&& h.place.path@.len() == self.place.path@.len() + 1
            },
    {
        match self.child_anchor(store, index, ValueType::List) {
            Some(a) => Some(ListValue { place: a }),
            None => None,
        }
    }

    /// Returns the value at `index`. A scalar comes out as a copy; a complex
    /// item comes out as a value referencing the same storage, so mutating
    /// through it mutates this list.
    pub fn try_get_value(&self, store: &ValueStore, index: usize) -> (r: Option<Value>)
        requires
            store.wf(),
        ensures
            r is Some <==> (self.spec_valid(*store) && (index as int) < self.spec_items(
                *store,
            ).len()),
            r matches Some(v) ==> {
                let item = self.spec_items(*store)[index as int];
                match payload_scalar(v.payload) {
                    Some(sv) => sv == item,
                    None => {
                        &&& payload_anchor(v.payload) matches Some(a)
                        &&& anchor_target(payload_anchor(v.payload)->Some_0, *store) == Some(item)
                        &&& anchor_live(payload_anchor(v.payload)->Some_0, *store)
                        &&& val_type_of(item) == ValueType::Binary <==> v.payload is Binary
                        &&& val_type_of(item) == ValueType::Dictionary <==> v.payload is Dict
                        &&& val_type_of(item) == ValueType::List <==> v.payload is List
                    },
                }
            },
    {
        match self.item_node(store, index) {
            Some(c) => {
                proof {
                    lemma_view_kind(*c);
                }
                match c {
                    Node::Null => Some(Value { payload: ValuePayload::Null }),
                    Node::Bool(b) => Some(Value { payload: ValuePayload::Bool(*b) }),
                    Node::Int(x) => Some(Value { payload: ValuePayload::Int(*x) }),
                    Node::Double(d) => Some(Value { payload: ValuePayload::Double(*d) }),
                    Node::Str(sv) => Some(Value { payload: ValuePayload::Str(sv.clone()) }),
                    _ => {
                        let kind = node_type(c);
                        let want = kind;
                        match self.child_anchor(store, index, want) {
                            Some(a) => {
                                let payload = match kind {
                                    ValueType::Binary => ValuePayload::Binary(a),
                                    ValueType::Dictionary => ValuePayload::Dict(a),
                                    _ => ValuePayload::List(a),
                                };
                                Some(Value { payload })
                            },
                            None => {
                                proof {
                                    assert(false);
                                }
                                None
                            },
                        }
                    },
                }
            },
            None => None,
        }
    }
}

impl ListValue {
    /// Applies one op at this handle's place, after checking the handle.
    fn list_apply(&self, store: &mut ValueStore, op: TreeOp) -> (r: bool)
        requires
            old(store).wf(),
            crate::tree::op_wf(op),
        ensures
            final(store).wf(),
            final(store).roots@.len() == old(store).roots@.len(),
            final(store).next_stamp == old(store).next_stamp,
            forall|t: int|
                t != self.place.root as int ==> final(store).root_val(t) == old(store).root_val(t),
            !r ==> forall|t: int| final(store).root_val(t) == old(store).root_val(t),
            r == (self.spec_valid(*old(store)) && match old(store).root_val(
                self.place.root as int,
            ) {
                Some(rv) => apply_at(rv, self.place.path@, op) is Some,
                None => false,
            }),
            r ==> anchor_target(self.place, *final(store)) == Some(
                apply_op(anchor_target(self.place, *old(store))->Some_0, op)->Some_0,
            ),
            r && !(op is MarkReadOnly) ==> anchor_mutable(self.place, *final(store)),
    {
        let valid = self.is_valid(store);
        if !valid {
            return false;
        }
        let ghost gop = op;
        let r = apply_in_store(store, &self.place, op);
        proof {
            let ri = self.place.root as int;
            assert(old(store).root_val(ri) is Some);
            if r {
                let rv = old(store).root_val(ri)->Some_0;
                assert(val_wf(rv)) by {
                    assert(old(store).roots@[ri] is Some);
                }
                lemma_resolve_after_apply(rv, self.place.path@, gop);
                if !(gop is MarkReadOnly) {
                    lemma_apply_keeps_mutable(rv, self.place.path@, gop);
                }
            }
            assert forall|t: int| t != ri implies final(store).root_val(t) == old(
                store,
            ).root_val(t) by {
                if 0 <= t < old(store).roots@.len() {
                    assert(final(store).roots@[t] == old(store).roots@[t]);
                }
            }
        }
        r
    }

    /// Not read-only is exactly valid-and-mutable: on a valid list that is
    /// not read-only, every mutation's handle-side condition holds.
    pub proof fn lemma_writable_iff(self, s: ValueStore)
        ensures
            !self.spec_read_only(s) <==> (self.spec_valid(s) && self.spec_mutable(s)),
    {
    }

    /// What a successful or failed set-at-index means at this handle, given
    /// what `list_apply` reports.
    proof fn lemma_set(&self, pre: ValueStore, op: TreeOp, index: usize, x: Val, r: bool)
        requires
            pre.wf(),
            op matches TreeOp::ListSet(i, n) && i == index && n@ == x,
            r == (self.spec_valid(pre) && match pre.root_val(self.place.root as int) {
                Some(rv) => apply_at(rv, self.place.path@, op) is Some,
                None => false,
            }),
        ensures
            r == (self.spec_valid(pre) && self.spec_mutable(pre) && (index as int)
                < self.spec_items(pre).len()),
            r ==> (apply_op(anchor_target(self.place, pre)->Some_0, op) matches Some(v2) && v2
                is List && v2->List_stamp == self.place.stamp && v2->List_items
                == self.spec_items(pre).update(index as int, x)),
    {
        if self.spec_valid(pre) {
            let rv = pre.root_val(self.place.root as int)->Some_0;
            assert(val_wf(rv)) by {
                assert(pre.roots@[self.place.root as int] is Some);
            }
            lemma_apply_at_success(rv, self.place.path@, op);
        }
    }

    /// Sets the number of items. Growing fills every new slot with a
    /// null-typed value; shrinking discards the items past the new length,
    /// for good. Returns true on success.
    pub fn set_len(&self, store: &mut ValueStore, size: usize) -> (r: bool)
        requires
            old(store).wf(),
        ensures
            final(store).wf(),
            final(store).roots@.len() == old(store).roots@.len(),
            forall|t: int|
                t != self.place.root as int ==> final(store).root_val(t) == old(store).root_val(t),
            !r ==> forall|t: int| final(store).root_val(t) == old(store).root_val(t),
            r == (self.spec_valid(*old(store)) && self.spec_mutable(*old(store))),
            r ==> self.spec_valid(*final(store)),
            r ==> self.spec_mutable(*final(store)),
            r ==> self.spec_items(*final(store)) == resize_items(
                self.spec_items(*old(store)),
                size as int,
            ),
            r && size <= self.spec_items(*old(store)).len() ==> self.spec_items(*final(store))
                == self.spec_items(*old(store)).take(size as int),
            r && size > self.spec_items(*old(store)).len() ==> {
                &&& self.spec_items(*final(store)).len() == size
                &&& forall|i: int|
                    0 <= i < self.spec_items(*old(store)).len() ==> self.spec_items(
                        *final(store),
                    )[i] == self.spec_items(*old(store))[i]
                &&& forall|i: int|
                    self.spec_items(*old(store)).len() <= i < size ==> self.spec_items(
                        *final(store),
                    )[i] == Val::Null
            },
    {
        let op = TreeOp::ListResize(size);
        let ghost gop = op;
        let r = self.list_apply(store, op);
        proof {
            if self.spec_valid(*old(store)) {
                let rv = old(store).root_val(self.place.root as int)->Some_0;
                assert(val_wf(rv)) by {
                    assert(old(store).roots@[self.place.root as int] is Some);
                }
                lemma_apply_at_success(rv, self.place.path@, gop);
            }
        }
        r
    }

    /// Removes all items. Returns true on success.
    pub fn clear(&self, store: &mut ValueStore) -> (r: bool)
        requires
            old(store).wf(),
        ensures
            final(store).wf(),
            final(store).roots@.len() == old(store).roots@.len(),
            forall|t: int|
                t != self.place.root as int ==> final(store).root_val(t) == old(store).root_val(t),
            !r ==> forall|t: int| final(store).root_val(t) == old(store).root_val(t),
            r == (self.spec_valid(*old(store)) && self.spec_mutable(*old(store))),
            r ==> self.spec_valid(*final(store)) && self.spec_items(*final(store)) == Seq::<
                Val,
            >::empty(),
            r ==> self.spec_mutable(*final(store)),
    {
        let op = TreeOp::ListClear;
        let ghost gop = op;
        let r = self.list_apply(store, op);
        proof {
            if self.spec_valid(*old(store)) {
                let rv = old(store).root_val(self.place.root as int)->Some_0;
                assert(val_wf(rv)) by {
                    assert(old(store).roots@[self.place.root as int] is Some);
                }
                lemma_apply_at_success(rv, self.place.path@, gop);
            }
        }
        r
    }

    /// Removes the item at `index`, shifting the items after it down.
    /// Returns true if the item was removed successfully.
    pub fn remove(&self, store: &mut ValueStore, index: usize) -> (r: bool)
        requires
            old(store).wf(),
        ensures
            final(store).wf(),
            final(store).roots@.len() == old(store).roots@.len(),
            forall|t: int|
                t != self.place.root as int ==> final(store).root_val(t) == old(store).root_val(t),
            !r ==> forall|t: int| final(store).root_val(t) == old(store).root_val(t),
            r == (self.spec_valid(*old(store)) && self.spec_mutable(*old(store)) && (index as int)
                < self.spec_items(*old(store)).len()),
            r ==> self.spec_valid(*final(store)) && self.spec_items(*final(store))
                == self.spec_items(*old(store)).remove(index as int),
            r ==> self.spec_mutable(*final(store)),
    {
        let op = TreeOp::ListRemove(index);
        let ghost gop = op;
        let r = self.list_apply(store, op);
        proof {
            if self.spec_valid(*old(store)) {
                let rv = old(store).root_val(self.place.root as int)->Some_0;
                assert(val_wf(rv)) by {
                    assert(old(store).roots@[self.place.root as int] is Some);
                }
                lemma_apply_at_success(rv, self.place.path@, gop);
            }
        }
        r
    }

    /// Sets the item at `index` to null. Returns true if the value was set
    /// successfully.
    pub fn set_null(&self, store: &mut ValueStore, index: usize) -> (r: bool)
        requires
            old(store).wf(),
        ensures
            final(store).wf(),
            final(store).roots@.len() == old(store).roots@.len(),
            forall|t: int|
                t != self.place.root as int ==> final(store).root_val(t) == old(store).root_val(t),
            !r ==> forall|t: int| final(store).root_val(t) == old(store).root_val(t),
            r == (self.spec_valid(*old(store)) && self.spec_mutable(*old(store)) && (index as int)
                < self.spec_items(*old(store)).len()),
            r ==> self.spec_valid(*final(store)) && self.spec_items(*final(store))
                == self.spec_items(*old(store)).update(index as int, Val::Null),
            r ==> self.spec_mutable(*final(store)),
    {
        let op = TreeOp::ListSet(index, Node::Null);
        let ghost gop = op;
        let r = self.list_apply(store, op);
        proof {
            self.lemma_set(*old(store), gop, index, Val::Null, r);
        }
        r
    }

    /// Sets the item at `index` to a bool. Returns true if the value was set
    /// successfully.
    pub fn set_bool(&self, store: &mut ValueStore, index: usize, value: bool) -> (r: bool)
        requires
            old(store).wf(),
        ensures
            final(store).wf(),
            final(store).roots@.len() == old(store).roots@.len(),
            forall|t: int|
                t != self.place.root as int ==> final(store).root_val(t) == old(store).root_val(t),
            !r ==> forall|t: int| final(store).root_val(t) == old(store).root_val(t),
            r == (self.spec_valid(*old(store)) && self.spec_mutable(*old(store)) && (index as int)
                < self.spec_items(*old(store)).len()),
            r ==> self.spec_valid(*final(store)) && self.spec_items(*final(store))
                == self.spec_items(*old(store)).update(index as int, Val::Bool(value)),
            r ==> self.spec_mutable(*final(store)),
    {
        let op = TreeOp::ListSet(index, Node::Bool(value));
        let ghost gop = op;
        let r = self.list_apply(store, op);
        proof {
            self.lemma_set(*old(store), gop, index, Val::Bool(value), r);
        }
        r
    }

    /// Sets the item at `index` to an int. Returns true if the value was set
    /// successfully.
    pub fn set_int(&self, store: &mut ValueStore, index: usize, value: i32) -> (r: bool)
        requires
            old(store).wf(),
        ensures
            final(store).wf(),
            final(store).roots@.len() == old(store).roots@.len(),
            forall|t: int|
                t != self.place.root as int ==> final(store).root_val(t) == old(store).root_val(t),
            !r ==> forall|t: int| final(store).root_val(t) == old(store).root_val(t),
            r == (self.spec_valid(*old(store)) && self.spec_mutable(*old(store)) && (index as int)
                < self.spec_items(*old(store)).len()),
            r ==> self.spec_valid(*final(store)) && self.spec_items(*final(store))
                == self.spec_items(*old(store)).update(index as int, Val::Int(value)),
            r ==> self.spec_mutable(*final(store)),
    {
        let op = TreeOp::ListSet(index, Node::Int(value));
        let ghost gop = op;
        let r = self.list_apply(store, op);
        proof {
            self.lemma_set(*old(store), gop, index, Val::Int(value), r);
        }
        r
    }

    /// Sets the item at `index` to a double, given as its bit pattern.
    /// Returns true if the value was set successfully.
    pub fn set_double(&self, store: &mut ValueStore, index: usize, bits: u64) -> (r: bool)
        requires
            old(store).wf(),
        ensures
            final(store).wf(),
            final(store).roots@.len() == old(store).roots@.len(),
            forall|t: int|
                t != self.place.root as int ==> final(store).root_val(t) == old(store).root_val(t),
            !r ==> forall|t: int| final(store).root_val(t) == old(store).root_val(t),
            r == (self.spec_valid(*old(store)) && self.spec_mutable(*old(store)) && (index as int)
                < self.spec_items(*old(store)).len()),
            r ==> self.spec_valid(*final(store)) && self.spec_items(*final(store))
                == self.spec_items(*old(store)).update(index as int, Val::Double(bits)),
            r ==> self.spec_mutable(*final(store)),
    {
        let op = TreeOp::ListSet(index, Node::Double(bits));
        let ghost gop = op;
        let r = self.list_apply(store, op);
        proof {
            self.lemma_set(*old(store), gop, index, Val::Double(bits), r);
        }
        r
    }

    /// Sets the item at `index` to a string. Returns true if the value was
    /// set successfully.
    pub fn set_string(&self, store: &mut ValueStore, index: usize, value: &str) -> (r: bool)
        requires
            old(store).wf(),
        ensures
            final(store).wf(),
            final(store).roots@.len() == old(store).roots@.len(),
            forall|t: int|
                t != self.place.root as int ==> final(store).root_val(t) == old(store).root_val(t),
            !r ==> forall|t: int| final(store).root_val(t) == old(store).root_val(t),
            r == (self.spec_valid(*old(store)) && self.spec_mutable(*old(store)) && (index as int)
                < self.spec_items(*old(store)).len()),
            r ==> self.spec_valid(*final(store)) && self.spec_items(*final(store))
                == self.spec_items(*old(store)).update(index as int, Val::Str(value@)),
            r ==> self.spec_mutable(*final(store)),
    {
        let op = TreeOp::ListSet(index, Node::Str(value.to_owned()));
        let ghost gop = op;
        let r = self.list_apply(store, op);
        proof {
            self.lemma_set(*old(store), gop, index, Val::Str(value@), r);
        }
        r
    }
}

impl ListValue {
    /// Places the complex value behind `src` at `index`: an unowned source
    /// moves in, an owned one is deep-copied.
    fn set_complex(&self, store: &mut ValueStore, index: usize, src: &Anchor) -> (r: bool)
        requires
            old(store).wf(),
        ensures
            final(store).wf(),
            final(store).roots@.len() == old(store).roots@.len(),
            forall|t: int|
                t != self.place.root as int && t != src.root as int
                    ==> final(store).root_val(t) == old(store).root_val(t),
            r == (self.spec_valid(*old(store)) && self.spec_mutable(*old(store)) && (index as int)
                < self.spec_items(*old(store)).len() && anchor_live(*src, *old(store)) && (
            src.path@.len() > 0 || src.root != self.place.root)),
            !r ==> forall|t: int| final(store).root_val(t) == old(store).root_val(t),
            r ==> self.spec_valid(*final(store)),
            r ==> self.spec_mutable(*final(store)),
            r && src.path@.len() > 0 ==> {
                &&& forall|t: int|
                    t != self.place.root as int
                        ==> final(store).root_val(t) == old(store).root_val(t)
                &&& exists|cv: Val|
                    #[trigger] copy_of(anchor_target(*src, *old(store))->Some_0, cv)
                        && self.spec_items(*final(store)) == self.spec_items(*old(store)).update(
                        index as int,
                        cv,
                    )
            },
            r && src.path@.len() == 0 ==> {
                &&& final(store).root_val(src.root as int) is None
                &&& self.spec_items(*final(store)) == self.spec_items(*old(store)).update(
                    index as int,
                    anchor_target(*src, *old(store))->Some_0,
                )
            },
    {
        let valid = self.is_valid(store);
        if !valid {
            return false;
        }
        let in_range = index < self.len(store);
        if !in_range {
            return false;
        }
        let mutable = match &store.roots[self.place.root] {
            Some(n) => {
                proof {
                    assert(val_wf(n@));
                    assert(self.place.path@.skip(0) =~= self.place.path@);
                }
                crate::tree::path_mutable_exec(n, &self.place.path, 0)
            },
            None => false,
        };
        if !mutable {
            return false;
        }
        if !anchor_live_exec(store, src) {
            return false;
        }
        if src.path.len() == 0 && src.root == self.place.root {
            return false;
        }
        let node = match detach_or_copy(store, src, self.place.root) {
            Some(n) => n,
            None => {
                proof {
                    assert(false);
                }
                return false;
            },
        };
        let ghost mid = *store;
        let ghost nodeval = node@;
        let op = TreeOp::ListSet(index, node);
        let ghost gop = op;
        let ok = apply_in_store(store, &self.place, op);
        proof {
            let ri = self.place.root as int;
            let rv = old(store).root_val(ri)->Some_0;
            assert(mid.root_val(ri) == old(store).root_val(ri));
            assert(val_wf(rv)) by {
                assert(old(store).roots@[ri] is Some);
            }
            lemma_apply_at_success(rv, self.place.path@, gop);
            assert(ok);
            lemma_resolve_after_apply(rv, self.place.path@, gop);
            lemma_apply_keeps_mutable(rv, self.place.path@, gop);
            assert(anchor_target(self.place, *final(store)) == Some(
                apply_op(anchor_target(self.place, *old(store))->Some_0, gop)->Some_0,
            ));
            assert forall|t: int|
                t != ri && t != src.root as int implies final(store).root_val(t) == old(
                store,
            ).root_val(t) by {
                if 0 <= t < mid.roots@.len() {
                    assert(final(store).roots@[t] == mid.roots@[t]);
                }
            }
            if src.path@.len() > 0 {
                assert(copy_of(anchor_target(*src, *old(store))->Some_0, nodeval));
                assert(self.spec_items(*final(store)) == self.spec_items(*old(store)).update(
                    index as int,
                    nodeval,
                ));
            } else {
                assert(final(store).root_val(src.root as int) == mid.root_val(src.root as int));
            }
        }
        ok
    }

    /// Sets the item at `index` to the given binary data. Returns true if the
    /// value was set successfully. If `value` is currently owned by another
    /// object its data is copied and other handles to it stay good; otherwise
    /// ownership transfers to this list and every other handle to `value`'s
    /// storage goes stale.
    pub fn set_binary(&self, store: &mut ValueStore, index: usize, value: BinaryValue) -> (r: bool)
        requires
            old(store).wf(),
        ensures
            final(store).wf(),
            final(store).roots@.len() == old(store).roots@.len(),
            forall|t: int|
                t != self.place.root as int && t != value.place.root as int
                    ==> final(store).root_val(t) == old(store).root_val(t),
            r == (self.spec_valid(*old(store)) && self.spec_mutable(*old(store)) && (index as int)
                < self.spec_items(*old(store)).len() && anchor_live(value.place, *old(store)) && (
            value.place.path@.len() > 0 || value.place.root != self.place.root)),
            !r ==> forall|t: int| final(store).root_val(t) == old(store).root_val(t),
            r ==> self.spec_valid(*final(store)),
            r ==> self.spec_mutable(*final(store)),
            r && value.place.path@.len() > 0 ==> {
                &&& forall|t: int|
                    t != self.place.root as int
                        ==> final(store).root_val(t) == old(store).root_val(t)
                &&& exists|cv: Val|
                    #[trigger] copy_of(anchor_target(value.place, *old(store))->Some_0, cv)
                        && self.spec_items(*final(store)) == self.spec_items(*old(store)).update(
                        index as int,
                        cv,
                    )
            },
            r && value.place.path@.len() == 0 ==> {
                &&& final(store).root_val(value.place.root as int) is None
                &&& self.spec_items(*final(store)) == self.spec_items(*old(store)).update(
                    index as int,
                    anchor_target(value.place, *old(store))->Some_0,
                )
            },
    {
        self.set_complex(store, index, &value.place)
    }

    /// Sets the item at `index` to the given dictionary. Returns true if the
    /// value was set successfully. If `value` is currently owned by another
    /// object its data is copied and other handles to it stay good; otherwise
    /// ownership transfers to this list and every other handle to `value`'s
    /// storage goes stale.
    pub fn set_dictionary(
        &self,
        store: &mut ValueStore,
        index: usize,
        value: DictionaryValue,
    ) -> (r: bool)
        requires
            old(store).wf(),
        ensures
            final(store).wf(),
            final(store).roots@.len() == old(store).roots@.len(),
            forall|t: int|
                t != self.place.root as int && t != value.place.root as int
                    ==> final(store).root_val(t) == old(store).root_val(t),
            r == (self.spec_valid(*old(store)) && self.spec_mutable(*old(store)) && (index as int)
                < self.spec_items(*old(store)).len() && anchor_live(value.place, *old(store)) && (
            value.place.path@.len() > 0 || value.place.root != self.place.root)),
            !r ==> forall|t: int| final(store).root_val(t) == old(store).root_val(t),
            r ==> self.spec_valid(*final(store)),
            r ==> self.spec_mutable(*final(store)),
            r && value.place.path@.len() > 0 ==> {
                &&& forall|t: int|
                    t != self.place.root as int
                        ==> final(store).root_val(t) == old(store).root_val(t)
                &&& exists|cv: Val|
                    #[trigger] copy_of(anchor_target(value.place, *old(store))->Some_0, cv)
                        && self.spec_items(*final(store)) == self.spec_items(*old(store)).update(
                        index as int,
                        cv,
                    )
            },
            r && value.place.path@.len() == 0 ==> {
                &&& final(store).root_val(value.place.root as int) is None
                &&& self.spec_items(*final(store)) == self.spec_items(*old(store)).update(
                    index as int,
                    anchor_target(value.place, *old(store))->Some_0,
                )
            },
    {
        self.set_complex(store, index, &value.place)
    }

    /// Sets the item at `index` to the given list. Returns true if the value
    /// was set successfully. If `value` is currently owned by another object
    /// its data is copied and other handles to it stay good; otherwise
    /// ownership transfers to this list and every other handle to `value`'s
    /// storage goes stale.
    pub fn set_list(&self, store: &mut ValueStore, index: usize, value: ListValue) -> (r: bool)
        requires
            old(store).wf(),
        ensures
            final(store).wf(),
            final(store).roots@.len() == old(store).roots@.len(),
            forall|t: int|
                t != self.place.root as int && t != value.place.root as int
                    ==> final(store).root_val(t) == old(store).root_val(t),
            r == (self.spec_valid(*old(store)) && self.spec_mutable(*old(store)) && (index as int)
                < self.spec_items(*old(store)).len() && anchor_live(value.place, *old(store)) && (
            value.place.path@.len() > 0 || value.place.root != self.place.root)),
            !r ==> forall|t: int| final(store).root_val(t) == old(store).root_val(t),
            r ==> self.spec_valid(*final(store)),
            r ==> self.spec_mutable(*final(store)),
            r && value.place.path@.len() > 0 ==> {
                &&& forall|t: int|
                    t != self.place.root as int
                        ==> final(store).root_val(t) == old(store).root_val(t)
                &&& exists|cv: Val|
                    #[trigger] copy_of(anchor_target(value.place, *old(store))->Some_0, cv)
                        && self.spec_items(*final(store)) == self.spec_items(*old(store)).update(
                        index as int,
                        cv,
                    )
            },
            r && value.place.path@.len() == 0 ==> {
                &&& final(store).root_val(value.place.root as int) is None
                &&& self.spec_items(*final(store)) == self.spec_items(*old(store)).update(
                    index as int,
                    anchor_target(value.place, *old(store))->Some_0,
                )
            },
    {
        self.set_complex(store, index, &value.place)
    }

    /// Sets the item at `index`. Scalar data is copied in; complex data is
    /// referenced, moving in when unowned and copying when already owned, as
    /// for the typed setters.
    pub fn set_value(&self, store: &mut ValueStore, index: usize, value: Value) -> (r: bool)
        requires
            old(store).wf(),
        ensures
            final(store).wf(),
            final(store).roots@.len() == old(store).roots@.len(),
            payload_scalar(value.payload) matches Some(sv) ==> {
                &&& forall|t: int|
                    t != self.place.root as int
                        ==> final(store).root_val(t) == old(store).root_val(t)
                &&& r == (self.spec_valid(*old(store)) && self.spec_mutable(*old(store)) && (
                index as int) < self.spec_items(*old(store)).len())
                &&& r ==> self.spec_valid(*final(store)) && self.spec_mutable(*final(store))
                    && self.spec_items(*final(store)) == self.spec_items(*old(store)).update(
                    index as int,
                    sv,
                )
            },
            payload_anchor(value.payload) matches Some(a) ==> {
                &&& forall|t: int|
                    t != self.place.root as int && t != a.root as int
                        ==> final(store).root_val(t) == old(store).root_val(t)
                &&& r == (self.spec_valid(*old(store)) && self.spec_mutable(*old(store)) && (
                index as int) < self.spec_items(*old(store)).len() && anchor_live(a, *old(store))
                    && (a.path@.len() > 0 || a.root != self.place.root))
                &&& r ==> self.spec_valid(*final(store)) && self.spec_mutable(*final(store))
                &&& r && a.path@.len() == 0 ==> final(store).root_val(a.root as int) is None
                    && self.spec_items(*final(store)) == self.spec_items(*old(store)).update(
                    index as int,
                    anchor_target(a, *old(store))->Some_0,
                )
                &&& r && a.path@.len() > 0 ==> exists|cv: Val|
                    #[trigger] copy_of(anchor_target(a, *old(store))->Some_0, cv)
                        && self.spec_items(*final(store)) == self.spec_items(*old(store)).update(
                        index as int,
                        cv,
                    )
            },
            !r ==> forall|t: int| final(store).root_val(t) == old(store).root_val(t),
    {
        match value.payload {
            ValuePayload::Null => {
                let op = TreeOp::ListSet(index, Node::Null);
                let ghost gop = op;
                let r = self.list_apply(store, op);
                proof {
                    self.lemma_set(*old(store), gop, index, Val::Null, r);
                }
                r
            },
            ValuePayload::Bool(b) => {
                let op = TreeOp::ListSet(index, Node::Bool(b));
                let ghost gop = op;
                let r = self.list_apply(store, op);
                proof {
                    self.lemma_set(*old(store), gop, index, Val::Bool(b), r);
                }
                r
            },
            ValuePayload::Int(x) => {
                let op = TreeOp::ListSet(index, Node::Int(x));
                let ghost gop = op;
                let r = self.list_apply(store, op);
                proof {
                    self.lemma_set(*old(store), gop, index, Val::Int(x), r);
                }
                r
            },
            ValuePayload::Double(d) => {
                let op = TreeOp::ListSet(index, Node::Double(d));
                let ghost gop = op;
                let r = self.list_apply(store, op);
                proof {
                    self.lemma_set(*old(store), gop, index, Val::Double(d), r);
                }
                r
            },
            ValuePayload::Str(sv) => {
                let ghost svv = sv@;
                let op = TreeOp::ListSet(index, Node::Str(sv));
                let ghost gop = op;
                let r = self.list_apply(store, op);
                proof {
                    self.lemma_set(*old(store), gop, index, Val::Str(svv), r);
                }
                r
            },
            ValuePayload::Binary(a) => self.set_complex(store, index, &a),
            ValuePayload::Dict(a) => self.set_complex(store, index, &a),
            ValuePayload::List(a) => self.set_complex(store, index, &a),
        }
    }
}

/// Where a seek starts from: the data's start, the current cursor, or the
/// data's end.
pub enum SeekFrom {
    Start(u64),
    Current(i64),
    End(i64),
}

impl BinaryValue {
    /// The handle still addresses its binary data.
    pub open spec fn spec_valid(self, s: ValueStore) -> bool {
        bin_live(self.place, s)
    }

    /// The bytes, meaningful while the handle is valid.
    pub open spec fn spec_data(self, s: ValueStore) -> Seq<u8> {
        anchor_target(self.place, s)->Some_0->Binary_data
    }

    /// The data's storage is owned by an enclosing container.
    pub open spec fn spec_owned(self, s: ValueStore) -> bool {
        self.spec_valid(s) && self.place.path@.len() > 0
    }

    /// Creates a new object that is not owned by any other object; the given
    /// bytes are copied in.
    pub fn new(store: &mut ValueStore, data: &[u8]) -> (b: BinaryValue)
        requires
            old(store).wf(),
        ensures
            final(store).wf(),
            final(store).roots@.len() == old(store).roots@.len() + 1,
            forall|t: int|
                0 <= t < old(store).roots@.len() ==> final(store).roots@[t] == old(
                    store,
                ).roots@[t],
            b.place.root == old(store).roots@.len(),
            b.place.path@.len() == 0,
            b.cursor == 0,
            b.spec_valid(*final(store)),
            b.spec_data(*final(store)) == data@,
            !b.spec_owned(*final(store)),
    {
        let stamp = next_stamp(&mut store.next_stamp);
        let root = store.roots.len();
        let owned = vstd::slice::slice_to_vec(data);
        let node = Node::Binary(BinaryNode { stamp, read_only: false, data: owned });
        let ghost nv = node@;
        proof {
            assert(val_wf(nv));
        }
        store.roots.push(Some(node));
        let b = BinaryValue { place: Anchor { root, path: Vec::new(), stamp }, cursor: 0 };
        proof {
            assert(final(store).root_val(root as int) == Some(nv));
            assert(resolve_path(nv, b.place.path@) == Some(nv));
        }
        b
    }

    /// The binary node this handle addresses, while it is live.
    fn node<'a>(&self, store: &'a ValueStore) -> (r: Option<&'a BinaryNode>)
        requires
            store.wf(),
        ensures
            r is Some <==> self.spec_valid(*store),
            r matches Some(bn) ==> {
                &&& anchor_target(self.place, *store) == Some(node_view(Node::Binary(*bn)))
                &&& bn.stamp == self.place.stamp
                &&& bn.data@ == self.spec_data(*store)
            },
    {
        if self.place.root >= store.roots.len() {
            return None;
        }
        match &store.roots[self.place.root] {
            Some(n) => {
                proof {
                    assert(val_wf(n@));
                }
                match resolve_at(n, &self.place.path, 0) {
                    Some(m) => {
                        proof {
                            assert(self.place.path@.skip(0) =~= self.place.path@);
                            lemma_view_kind(*m);
                        }
                        match m {
                            Node::Binary(bn) => if bn.stamp == self.place.stamp {
                                Some(bn)
                            } else {
                                None
                            },
                            _ => None,
                        }
                    },
                    None => None,
                }
            },
            None => None,
        }
    }

    /// Returns true if this object is valid. The handle goes stale when the
    /// storage it addresses is moved, displaced or destroyed; do not expect
    /// other operations to succeed once this returns false.
    pub fn is_valid(&self, store: &ValueStore) -> (r: bool)
        requires
            store.wf(),
        ensures
            r == self.spec_valid(*store),
    {
        self.node(store).is_some()
    }

    /// Returns true if the underlying data is owned by another object.
    pub fn is_owned(&self, store: &ValueStore) -> (r: bool)
        requires
            store.wf(),
        ensures
            r == self.spec_owned(*store),
    {
        self.is_valid(store) && self.place.path.len() > 0
    }

    /// Returns true if this object and `that` object have the same underlying
    /// data: they address the same storage.
    pub fn is_same(&self, that: &BinaryValue) -> (r: bool)
        ensures
            r == same_place(self.place, that.place),
    {
        anchors_same(&self.place, &that.place)
    }

    /// Returns the data size; zero when the handle is stale.
    pub fn len(&self, store: &ValueStore) -> (r: usize)
        requires
            store.wf(),
        ensures
            r == if self.spec_valid(*store) {
                self.spec_data(*store).len()
            } else {
                0
            },
    {
        match self.node(store) {
            Some(bn) => bn.data.len(),
            None => 0,
        }
    }

    /// Reads up to `buf.len()` bytes at the cursor into the front of `buf`,
    /// advancing the cursor by the count read. `None` when the handle is
    /// stale.
    pub fn read(&mut self, store: &ValueStore, buf: &mut Vec<u8>) -> (r: Option<usize>)
        requires
            store.wf(),
        ensures
            final(self).place == old(self).place,
            final(buf)@.len() == old(buf)@.len(),
            r is Some <==> old(self).spec_valid(*store),
            r is None ==> final(self).cursor == old(self).cursor && final(buf)@ == old(buf)@,
            r matches Some(k) ==> {
                let data = old(self).spec_data(*store);
                let start = if old(self).cursor <= data.len() {
                    old(self).cursor as int
                } else {
                    data.len() as int
                };
                &&& k == vstd::math::min(old(buf)@.len() as int, data.len() - start)
                &&& final(self).cursor == old(self).cursor + k
                &&& forall|i: int| 0 <= i < k ==> final(buf)@[i] == data[start + i]
                &&& forall|i: int| k <= i < old(buf)@.len() ==> final(buf)@[i] == old(buf)@[i]
            },
    {
        let bn = match self.node(store) {
            Some(bn) => bn,
            None => {
                return None;
            },
        };
        let start = if self.cursor <= bn.data.len() {
            self.cursor
        } else {
            bn.data.len()
        };
        let remaining = bn.data.len() - start;
        let k = if buf.len() <= remaining {
            buf.len()
        } else {
            remaining
        };
        let mut i: usize = 0;
        while i < k
            invariant
                i <= k,
                k <= buf@.len(),
                start + k <= bn.data@.len(),
                bn.data@.len() <= usize::MAX,
                buf@.len() == old(buf)@.len(),
                forall|t: int| 0 <= t < i ==> buf@[t] == bn.data@[start + t],
                forall|t: int| i <= t < old(buf)@.len() ==> buf@[t] == old(buf)@[t],
            decreases k - i,
        {
            buf[i] = bn.data[start + i];
            i = i + 1;
        }
        proof {
            if old(self).cursor <= bn.data@.len() {
                assert(self.cursor + k <= bn.data@.len());
            } else {
                assert(k == 0);
            }
        }
        self.cursor = self.cursor + k;
        Some(k)
    }

    /// Moves the read cursor. An end-relative seek that would land before the
    /// start clamps to zero; a cursor that cannot be represented is an error
    /// and leaves the cursor unchanged. Returns the new cursor.
    pub fn seek(&mut self, store: &ValueStore, pos: SeekFrom) -> (r: Result<u64, ()>)
        requires
            store.wf(),
        ensures
            final(self).place == old(self).place,
            r is Err ==> final(self).cursor == old(self).cursor,
            r matches Ok(c) ==> c == final(self).cursor,
            match pos {
                SeekFrom::Start(o) => if o <= usize::MAX as u64 {
                    r is Ok && final(self).cursor == o
                } else {
                    r is Err
                },
                SeekFrom::Current(d) => {
                    let n = old(self).cursor + d;
                    if 0 <= n <= usize::MAX as int {
                        r is Ok && final(self).cursor == n
                    } else {
                        r is Err
                    }
                },
                SeekFrom::End(d) => {
                    let ln = if old(self).spec_valid(*store) {
                        old(self).spec_data(*store).len() as int
                    } else {
                        0
                    };
                    let n = if ln + d < 0 {
                        0
                    } else {
                        ln + d
                    };
                    if n <= usize::MAX as int {
                        r is Ok && final(self).cursor == n
                    } else {
                        r is Err
                    }
                },
            },
    {
        match pos {
            SeekFrom::Start(o) => {
                if o <= usize::MAX as u64 {
                    self.cursor = o as usize;
                    Ok(o)
                } else {
                    Err(())
                }
            },
            SeekFrom::Current(d) => {
                let n: i128 = self.cursor as i128 + d as i128;
                if 0 <= n && n <= usize::MAX as i128 {
                    self.cursor = n as usize;
                    Ok(n as u64)
                } else {
                    Err(())
                }
            },
            SeekFrom::End(d) => {
                let ln = self.len(store);
                let n0: i128 = ln as i128 + d as i128;
                let n: i128 = if n0 < 0 {
                    0
                } else {
                    n0
                };
                if n <= usize::MAX as i128 {
                    self.cursor = n as usize;
                    Ok(n as u64)
                } else {
                    Err(())
                }
            },
        }
    }
}

impl Value {
    /// A value's payload is valid: scalars always are; a complex payload is
    /// valid while its handle still addresses storage of its own kind.
    pub open spec fn spec_valid(self, s: ValueStore) -> bool {
        match self.payload {
            ValuePayload::Binary(a) => bin_live(a, s),
            ValuePayload::Dict(a) => dict_live(a, s),
            ValuePayload::List(a) => list_live(a, s),
            _ => true,
        }
    }

    /// The value's type; a complex payload whose storage is gone reads as
    /// invalid.
    pub open spec fn spec_type(self, s: ValueStore) -> ValueType {
        match self.payload {
            ValuePayload::Null => ValueType::Null,
            ValuePayload::Bool(_) => ValueType::Bool,
            ValuePayload::Int(_) => ValueType::Int,
            ValuePayload::Double(_) => ValueType::Double,
            ValuePayload::Str(_) => ValueType::String,
            ValuePayload::Binary(a) => if bin_live(a, s) {
                ValueType::Binary
            } else {
                ValueType::Invalid
            },
            ValuePayload::Dict(a) => if dict_live(a, s) {
                ValueType::Dictionary
            } else {
                ValueType::Invalid
            },
            ValuePayload::List(a) => if list_live(a, s) {
                ValueType::List
            } else {
                ValueType::Invalid
            },
        }
    }

    /// Creates a new value of type null.
    pub fn new() -> (v: Value)
        ensures
            v.payload is Null,
    {
        Value { payload: ValuePayload::Null }
    }

    /// Returns true if the underlying data is valid. This is always true for
    /// simple types. A complex payload may go stale when the storage it
    /// references is owned by a container that is then mutated or destroyed;
    /// the value can still be re-used by `set_`-ing it.
    pub fn is_valid(&self, store: &ValueStore) -> (r: bool)
        requires
            store.wf(),
        ensures
            r == self.spec_valid(*store),
    {
        match &self.payload {
            ValuePayload::Binary(a) => {
                proof {
                    lemma_view_kind_of_target(*a, *store);
                }
                anchor_live_exec(store, a) && self.kind_checked(store, a, ValueType::Binary)
            },
            ValuePayload::Dict(a) => {
                proof {
                    lemma_view_kind_of_target(*a, *store);
                }
                anchor_live_exec(store, a) && self.kind_checked(store, a, ValueType::Dictionary)
            },
            ValuePayload::List(a) => {
                proof {
                    lemma_view_kind_of_target(*a, *store);
                }
                anchor_live_exec(store, a) && self.kind_checked(store, a, ValueType::List)
            },
            _ => true,
        }
    }

    /// Whether a live anchor's node has the wanted kind.
    fn kind_checked(&self, store: &ValueStore, a: &Anchor, want: ValueType) -> (r: bool)
        requires
            store.wf(),
        ensures
            r == match anchor_target(*a, *store) {
                Some(v) => val_type_of(v) == want,
                None => false,
            },
    {
        if a.root >= store.roots.len() {
            return false;
        }
        match &store.roots[a.root] {
            Some(n) => {
                proof {
                    assert(val_wf(n@));
                }
                match resolve_at(n, &a.path, 0) {
                    Some(m) => {
                        proof {
                            assert(a.path@.skip(0) =~= a.path@);
                        }
                        let t = node_type(m);
                        t == want
                    },
                    None => false,
                }
            },
            None => false,
        }
    }

    /// Returns the underlying value type; invalid when a complex payload's
    /// storage is gone.
    pub fn get_type(&self, store: &ValueStore) -> (r: ValueType)
        requires
            store.wf(),
        ensures
            r == self.spec_type(*store),
    {
        match &self.payload {
            ValuePayload::Null => ValueType::Null,
            ValuePayload::Bool(_) => ValueType::Bool,
            ValuePayload::Int(_) => ValueType::Int,
            ValuePayload::Double(_) => ValueType::Double,
            ValuePayload::Str(_) => ValueType::String,
            ValuePayload::Binary(_) => if self.is_valid(store) {
                ValueType::Binary
            } else {
                ValueType::Invalid
            },
            ValuePayload::Dict(_) => if self.is_valid(store) {
                ValueType::Dictionary
            } else {
                ValueType::Invalid
            },
            ValuePayload::List(_) => if self.is_valid(store) {
                ValueType::List
            } else {
                ValueType::Invalid
            },
        }
    }

    /// Returns true if the underlying data is owned by another object.
    pub fn is_owned(&self, store: &ValueStore) -> (r: bool)
        requires
            store.wf(),
        ensures
            r == (self.spec_valid(*store) && (payload_anchor(self.payload) matches Some(a)
                && a.path@.len() > 0)),
    {
        let valid = self.is_valid(store);
        match &self.payload {
            ValuePayload::Binary(a) => valid && a.path.len() > 0,
            ValuePayload::Dict(a) => valid && a.path.len() > 0,
            ValuePayload::List(a) => valid && a.path.len() > 0,
            _ => false,
        }
    }

    /// The value holds live data that refuses mutation: a complex payload
    /// whose storage, or a container enclosing that storage, is marked
    /// read-only. Scalars are never read-only, and neither is a stale
    /// payload — a stale value has nothing behind it and can be re-bound.
    pub open spec fn spec_read_only(self, s: ValueStore) -> bool {
        match payload_anchor(self.payload) {
            Some(a) => self.spec_valid(s) && !anchor_mutable(a, s),
            None => false,
        }
    }

    /// Returns true if the underlying data is read-only, because it or a
    /// container enclosing it is so marked. Scalars and stale payloads are
    /// not: a `set_` call rebinds those, while it refuses a read-only value.
    pub fn is_read_only(&self, store: &ValueStore) -> (r: bool)
        requires
            store.wf(),
        ensures
            r == self.spec_read_only(*store),
    {
        let valid = self.is_valid(store);
        match &self.payload {
            ValuePayload::Binary(a) => valid && !anchor_mutable_exec(store, a),
            ValuePayload::Dict(a) => valid && !anchor_mutable_exec(store, a),
            ValuePayload::List(a) => valid && !anchor_mutable_exec(store, a),
            _ => false,
        }
    }

    /// Returns true if this object and `that` object reference the same
    /// underlying data: both hold complex payloads addressing the same
    /// storage, so modifications through one are seen through the other.
    /// Scalar payloads are each value's own copy and are never shared.
    pub fn is_same(&self, that: &Value) -> (r: bool)
        ensures
            r == match (payload_anchor(self.payload), payload_anchor(that.payload)) {
                (Some(a), Some(b)) => same_place(a, b),
                _ => false,
            },
    {
        match (&self.payload, &that.payload) {
            (ValuePayload::Binary(a), ValuePayload::Binary(b)) => anchors_same(a, b),
            (ValuePayload::Binary(a), ValuePayload::Dict(b)) => anchors_same(a, b),
            (ValuePayload::Binary(a), ValuePayload::List(b)) => anchors_same(a, b),
            (ValuePayload::Dict(a), ValuePayload::Binary(b)) => anchors_same(a, b),
            (ValuePayload::Dict(a), ValuePayload::Dict(b)) => anchors_same(a, b),
            (ValuePayload::Dict(a), ValuePayload::List(b)) => anchors_same(a, b),
            (ValuePayload::List(a), ValuePayload::Binary(b)) => anchors_same(a, b),
            (ValuePayload::List(a), ValuePayload::Dict(b)) => anchors_same(a, b),
            (ValuePayload::List(a), ValuePayload::List(b)) => anchors_same(a, b),
            _ => false,
        }
    }

    /// Returns the underlying value as a bool; false for any other type.
    /// Reading never fails: a wrong-typed or invalid value reads as the
    /// type's zero.
    pub fn to_bool(&self) -> (r: bool)
        ensures
            r == (self.payload matches ValuePayload::Bool(true)),
    {
        match &self.payload {
            ValuePayload::Bool(b) => *b,
            _ => false,
        }
    }

    /// Returns the underlying value as an int; zero for any other type.
    /// Reading never fails: a wrong-typed or invalid value reads as the
    /// type's zero.
    pub fn to_int(&self) -> (r: i32)
        ensures
            r == match self.payload {
                ValuePayload::Int(x) => x,
                _ => 0,
            },
    {
        match &self.payload {
            ValuePayload::Int(x) => *x,
            _ => 0,
        }
    }

    /// Returns the underlying value as a double's bit pattern; zero for any
    /// other type. The boundary converts the bits to the host's floating
    /// point type. Reading never fails: a wrong-typed or invalid value reads
    /// as the type's zero.
    pub fn to_double(&self) -> (r: u64)
        ensures
            r == match self.payload {
                ValuePayload::Double(x) => x,
                _ => 0u64,
            },
    {
        match &self.payload {
            ValuePayload::Double(x) => *x,
            _ => 0,
        }
    }

    /// Returns the underlying value as a string; empty for any other type.
    /// Reading never fails: a wrong-typed or invalid value reads as the
    /// type's zero.
    pub fn to_string(&self) -> (r: String)
        ensures
            r@ == match self.payload {
                ValuePayload::Str(sv) => sv@,
                _ => Seq::<char>::empty(),
            },
    {
        match &self.payload {
            ValuePayload::Str(sv) => sv.clone(),
            _ => String::new(),
        }
    }

    /// Returns the underlying value as a binary handle, when it holds one
    /// whose storage is still there. The handle references the existing data.
    pub fn try_to_binary(&self, store: &ValueStore) -> (r: Option<BinaryValue>)
        requires
            store.wf(),
        ensures
            r is Some <==> (self.payload is Binary && self.spec_valid(*store)),
            r matches Some(h) ==> {
                &&& h.place.root == payload_anchor(self.payload)->Some_0.root
                &&& h.place.path@ == payload_anchor(self.payload)->Some_0.path@
                &&& h.place.stamp == payload_anchor(self.payload)->Some_0.stamp
                &&& h.cursor == 0
                &&& bin_live(h.place, *store)
            },
    {
        match &self.payload {
            ValuePayload::Binary(a) => if self.is_valid(store) {
                let h = BinaryValue { place: anchor_dup(a), cursor: 0 };
                proof {
                    assert(anchor_target(h.place, *store) == anchor_target(*a, *store));
                }
                Some(h)
            } else {
                None
            },
            _ => None,
        }
    }

    /// Returns the underlying value as a dictionary handle, when it holds one
    /// whose storage is still there. The handle references the existing data:
    /// modifications through it modify the shared storage.
    pub fn try_to_dictionary(&self, store: &ValueStore) -> (r: Option<DictionaryValue>)
        requires
            store.wf(),
        ensures
            r is Some <==> (self.payload is Dict && self.spec_valid(*store)),
            r matches Some(h) ==> {
                &&& h.place.root == payload_anchor(self.payload)->Some_0.root
                &&& h.place.path@ == payload_anchor(self.payload)->Some_0.path@
                &&& h.place.stamp == payload_anchor(self.payload)->Some_0.stamp
                &&& dict_live(h.place, *store)
            },
    {
        match &self.payload {
            ValuePayload::Dict(a) => if self.is_valid(store) {
                let h = DictionaryValue { place: anchor_dup(a) };
                proof {
                    assert(anchor_target(h.place, *store) == anchor_target(*a, *store));
                }
                Some(h)
            } else {
                None
            },
            _ => None,
        }
    }

    /// Returns the underlying value as a list handle, when it holds one whose
    /// storage is still there. The handle references the existing data:
    /// modifications through it modify the shared storage.
    pub fn try_to_list(&self, store: &ValueStore) -> (r: Option<ListValue>)
        requires
            store.wf(),
        ensures
            r is Some <==> (self.payload is List && self.spec_valid(*store)),
            r matches Some(h) ==> {
                &&& h.place.root == payload_anchor(self.payload)->Some_0.root
                &&& h.place.path@ == payload_anchor(self.payload)->Some_0.path@
                &&& h.place.stamp == payload_anchor(self.payload)->Some_0.stamp
                &&& list_live(h.place, *store)
            },
    {
        match &self.payload {
            ValuePayload::List(a) => if self.is_valid(store) {
                let h = ListValue { place: anchor_dup(a) };
                proof {
                    assert(anchor_target(h.place, *store) == anchor_target(*a, *store));
                }
                Some(h)
            } else {
                None
            },
            _ => None,
        }
    }

    /// Returns a copy of this object; the underlying data is copied too. A
    /// scalar payload becomes the copy's own data; a complex payload's
    /// storage is deep-copied into fresh, unowned, writable storage. A value
    /// whose complex payload went stale has nothing to copy.
    pub fn copy(&self, store: &mut ValueStore) -> (r: Option<Value>)
        requires
            old(store).wf(),
        ensures
            final(store).wf(),
            r is Some <==> self.spec_valid(*old(store)),
            r is None ==> final(store).roots@ == old(store).roots@,
            payload_scalar(self.payload) matches Some(sv) ==> {
                &&& final(store).roots@ == old(store).roots@
                &&& (r matches Some(v) && payload_scalar(v.payload) == Some(sv))
            },
            self.spec_valid(*old(store)) && payload_anchor(self.payload) is Some ==> (r matches
                Some(v) && {
                &&& final(store).roots@.len() == old(store).roots@.len() + 1
                &&& forall|t: int|
                    0 <= t < old(store).roots@.len() ==> final(store).roots@[t] == old(
                        store,
                    ).roots@[t]
                &&& payload_anchor(v.payload) matches Some(a)
                &&& payload_anchor(v.payload)->Some_0.root == old(store).roots@.len()
                &&& payload_anchor(v.payload)->Some_0.path@.len() == 0
                &&& v.spec_valid(*final(store))
                &&& copy_of(
                    anchor_target(payload_anchor(self.payload)->Some_0, *old(store))->Some_0,
                    anchor_target(payload_anchor(v.payload)->Some_0, *final(store))->Some_0,
                )
                &&& (v.payload is Binary <==> self.payload is Binary)
                &&& (v.payload is Dict <==> self.payload is Dict)
                &&& (v.payload is List <==> self.payload is List)
            }),
    {
        match &self.payload {
            ValuePayload::Null => Some(Value { payload: ValuePayload::Null }),
            ValuePayload::Bool(b) => Some(Value { payload: ValuePayload::Bool(*b) }),
            ValuePayload::Int(x) => Some(Value { payload: ValuePayload::Int(*x) }),
            ValuePayload::Double(d) => Some(Value { payload: ValuePayload::Double(*d) }),
            ValuePayload::Str(sv) => Some(Value { payload: ValuePayload::Str(sv.clone()) }),
            _ => {
                if !self.is_valid(store) {
                    return None;
                }
                let place = match &self.payload {
                    ValuePayload::Binary(a) => a,
                    ValuePayload::Dict(a) => a,
                    ValuePayload::List(a) => a,
                    _ => {
                        proof {
                            assert(false);
                        }
                        return None;
                    },
                };
                let mut counter = store.next_stamp;
                let copied = match anchor_node(store, place) {
                    Some(n) => copy_node(n, &mut counter),
                    None => {
                        proof {
                            assert(false);
                        }
                        return None;
                    },
                };
                store.next_stamp = counter;
                let ghost cv = copied@;
                proof {
                    lemma_copy_wf(anchor_target(*place, *old(store))->Some_0, cv);
                    lemma_view_kind(copied);
                }
                let stamp = match &copied {
                    Node::Binary(bn) => bn.stamp,
                    Node::Dict(dn) => dn.stamp,
                    Node::List(ln) => ln.stamp,
                    _ => {
                        proof {
                            assert(false);
                        }
                        0
                    },
                };
                let root = store.roots.len();
                store.roots.push(Some(copied));
                let anchor = Anchor { root, path: Vec::new(), stamp };
                let payload = match &self.payload {
                    ValuePayload::Binary(_) => ValuePayload::Binary(anchor),
                    ValuePayload::Dict(_) => ValuePayload::Dict(anchor),
                    _ => ValuePayload::List(anchor),
                };
                let v = Value { payload };
                proof {
                    assert(final(store).root_val(root as int) == Some(cv));
                    assert(resolve_path(cv, Seq::<PathSeg>::empty()) == Some(cv));
                    assert(payload_anchor(v.payload)->Some_0.path@ =~= Seq::<PathSeg>::empty());
                }
                Some(v)
            },
        }
    }

    /// Rebinds the value to type null. Returns true if the value was set
    /// successfully: a mutation of a value holding read-only data fails and
    /// alters nothing, while a value whose payload went stale can be re-used
    /// this way.
    pub fn set_null(&mut self, store: &ValueStore) -> (r: bool)
        requires
            store.wf(),
        ensures
            r == !old(self).spec_read_only(*store),
            r ==> final(self).payload is Null,
            !r ==> *final(self) == *old(self),
    {
        if self.is_read_only(store) {
            return false;
        }
        self.payload = ValuePayload::Null;
        true
    }

    /// Rebinds the value to a bool. Returns true if the value was set
    /// successfully: a mutation of a value holding read-only data fails and
    /// alters nothing, while a value whose payload went stale can be re-used
    /// this way.
    pub fn set_bool(&mut self, store: &ValueStore, value: bool) -> (r: bool)
        requires
            store.wf(),
        ensures
            r == !old(self).spec_read_only(*store),
            r ==> final(self).payload == ValuePayload::Bool(value),
            !r ==> *final(self) == *old(self),
    {
        if self.is_read_only(store) {
            return false;
        }
        self.payload = ValuePayload::Bool(value);
        true
    }

    /// Rebinds the value to an int. Returns true if the value was set
    /// successfully: a mutation of a value holding read-only data fails and
    /// alters nothing, while a value whose payload went stale can be re-used
    /// this way.
    pub fn set_int(&mut self, store: &ValueStore, value: i32) -> (r: bool)
        requires
            store.wf(),
        ensures
            r == !old(self).spec_read_only(*store),
            r ==> final(self).payload == ValuePayload::Int(value),
            !r ==> *final(self) == *old(self),
    {
        if self.is_read_only(store) {
            return false;
        }
        self.payload = ValuePayload::Int(value);
        true
    }

    /// Rebinds the value to a double, given as its bit pattern. Returns true
    /// if the value was set successfully: a mutation of a value holding
    /// read-only data fails and alters nothing, while a value whose payload
    /// went stale can be re-used this way.
    pub fn set_double(&mut self, store: &ValueStore, bits: u64) -> (r: bool)
        requires
            store.wf(),
        ensures
            r == !old(self).spec_read_only(*store),
            r ==> final(self).payload == ValuePayload::Double(bits),
            !r ==> *final(self) == *old(self),
    {
        if self.is_read_only(store) {
            return false;
        }
        self.payload = ValuePayload::Double(bits);
        true
    }

    /// Rebinds the value to a string, copied in. Returns true if the value
    /// was set successfully: a mutation of a value holding read-only data
    /// fails and alters nothing, while a value whose payload went stale can
    /// be re-used this way.
    pub fn set_string(&mut self, store: &ValueStore, value: &str) -> (r: bool)
        requires
            store.wf(),
        ensures
            r == !old(self).spec_read_only(*store),
            r ==> (final(self).payload matches ValuePayload::Str(sv) && sv@ == value@),
            !r ==> *final(self) == *old(self),
    {
        if self.is_read_only(store) {
            return false;
        }
        self.payload = ValuePayload::Str(value.to_owned());
        true
    }

    /// Binds the value to the given binary data. The data is referenced, not
    /// copied, and ownership of it is unchanged. Returns true if the value
    /// was set successfully; a stale handle is refused, as is mutating a
    /// value that currently holds read-only data.
    pub fn set_binary(&mut self, store: &ValueStore, value: &BinaryValue) -> (r: bool)
        requires
            store.wf(),
        ensures
            r == (!old(self).spec_read_only(*store) && value.spec_valid(*store)),
            !r ==> *final(self) == *old(self),
            r ==> (final(self).payload matches ValuePayload::Binary(a) && a.root
                == value.place.root && a.path@ == value.place.path@ && a.stamp
                == value.place.stamp),
    {
        if self.is_read_only(store) {
            return false;
        }
        if value.is_valid(store) {
            self.payload = ValuePayload::Binary(anchor_dup(&value.place));
            true
        } else {
            false
        }
    }

    /// Binds the value to the given dictionary. The data is referenced, not
    /// copied, and ownership of it is unchanged. Returns true if the value
    /// was set successfully; a stale handle is refused, as is mutating a
    /// value that currently holds read-only data.
    pub fn set_dictionary(&mut self, store: &ValueStore, value: &DictionaryValue) -> (r: bool)
        requires
            store.wf(),
        ensures
            r == (!old(self).spec_read_only(*store) && value.spec_valid(*store)),
            !r ==> *final(self) == *old(self),
            r ==> (final(self).payload matches ValuePayload::Dict(a) && a.root
                == value.place.root && a.path@ == value.place.path@ && a.stamp
                == value.place.stamp),
    {
        if self.is_read_only(store) {
            return false;
        }
        if value.is_valid(store) {
            self.payload = ValuePayload::Dict(anchor_dup(&value.place));
            true
        } else {
            false
        }
    }

    /// Binds the value to the given list. The data is referenced, not copied,
    /// and ownership of it is unchanged. Returns true if the value was set
    /// successfully; a stale handle is refused, as is mutating a value that
    /// currently holds read-only data.
    pub fn set_list(&mut self, store: &ValueStore, value: &ListValue) -> (r: bool)
        requires
            store.wf(),
        ensures
            r == (!old(self).spec_read_only(*store) && value.spec_valid(*store)),
            !r ==> *final(self) == *old(self),
            r ==> (final(self).payload matches ValuePayload::List(a) && a.root
                == value.place.root && a.path@ == value.place.path@ && a.stamp
                == value.place.stamp),
    {
        if self.is_read_only(store) {
            return false;
        }
        if value.is_valid(store) {
            self.payload = ValuePayload::List(anchor_dup(&value.place));
            true
        } else {
            false
        }
    }
}

/// The node a live anchor addresses.
fn anchor_node<'a>(store: &'a ValueStore, a: &Anchor) -> (r: Option<&'a Node>)
    requires
        store.wf(),
    ensures
        r is Some <==> anchor_live(*a, *store),
        r matches Some(n) ==> {
            &&& anchor_target(*a, *store) == Some(n@)
            &&& val_wf(n@)
            &&& val_stamp(n@) == Some(a.stamp)
        },
{
    if a.root >= store.roots.len() {
        return None;
    }
    match &store.roots[a.root] {
        Some(n) => {
            proof {
                assert(val_wf(n@));
            }
            match resolve_at(n, &a.path, 0) {
                Some(m) => {
                    proof {
                        assert(a.path@.skip(0) =~= a.path@);
                        lemma_view_kind(*m);
                    }
                    let ok = match m {
                        Node::Binary(bn) => bn.stamp == a.stamp,
                        Node::Dict(dn) => dn.stamp == a.stamp,
                        Node::List(ln) => ln.stamp == a.stamp,
                        _ => false,
                    };
                    if ok {
                        Some(m)
                    } else {
                        None
                    }
                },
                None => None,
            }
        },
        None => None,
    }
}

/// The data a value reads as: a scalar payload's own copy, or the storage a
/// complex payload references while it is live.
pub open spec fn value_data(v: Value, s: ValueStore) -> Option<Val> {
    match payload_scalar(v.payload) {
        Some(sv) => Some(sv),
        None => if v.spec_valid(s) {
            anchor_target(payload_anchor(v.payload)->Some_0, s)
        } else {
            None
        },
    }
}

/// Anchors addressing the same storage resolve to the same node, in every
/// store: what `is_same` reports is aliasing of the underlying storage.
pub proof fn lemma_same_place_same_target(a: Anchor, b: Anchor, s: ValueStore)
    requires
        same_place(a, b),
    ensures
        anchor_target(a, s) == anchor_target(b, s),
{
    match s.root_val(a.root as int) {
        Some(v) => {
            lemma_resolve_seg_paths(v, a.path@, b.path@);
        },
        None => {},
    }
}

/// Resolution only reads the steps a path takes, not the path values
/// themselves.
proof fn lemma_resolve_seg_paths(v: Val, p1: Seq<PathSeg>, p2: Seq<PathSeg>)
    requires
        p1.len() == p2.len(),
        forall|i: int| 0 <= i < p1.len() ==> seg_eq(#[trigger] p1[i], p2[i]),
    ensures
        resolve_path(v, p1) == resolve_path(v, p2),
    decreases p1.len(),
{
    if p1.len() > 0 {
        assert(seg_eq(p1[0], p2[0]));
        assert(step(v, p1[0]) == step(v, p2[0])) by {
            match (p1[0], p2[0]) {
                (PathSeg::Key(k1), PathSeg::Key(k2)) => {
                    assert(k1@ == k2@);
                },
                _ => {},
            }
        }
        match step(v, p1[0]) {
            Some(c) => {
                assert forall|i: int| 0 <= i < p1.drop_first().len() implies seg_eq(
                    #[trigger] p1.drop_first()[i],
                    p2.drop_first()[i],
                ) by {
                    assert(seg_eq(p1[i + 1], p2[i + 1]));
                }
                lemma_resolve_seg_paths(c, p1.drop_first(), p2.drop_first());
            },
            None => {},
        }
    }
}

/// Once a root slot has been emptied — its tree moved into a container —
/// every handle anchored in that slot is stale.
pub proof fn lemma_cleared_root_stale(a: Anchor, s: ValueStore)
    requires
        s.root_val(a.root as int) is None,
    ensures
        !anchor_live(a, s),
        !bin_live(a, s),
        !dict_live(a, s),
        !list_live(a, s),
{
}

impl DictionaryValue {
    /// Marks the dictionary read-only, as the engine does for data it exposes
    /// without handing out mutation rights. Returns true on success; marking
    /// through a stale handle or inside already read-only data fails.
    pub fn make_read_only(&self, store: &mut ValueStore) -> (r: bool)
        requires
            old(store).wf(),
        ensures
            final(store).wf(),
            final(store).roots@.len() == old(store).roots@.len(),
            forall|t: int|
                t != self.place.root as int ==> final(store).root_val(t) == old(store).root_val(t),
            !r ==> forall|t: int| final(store).root_val(t) == old(store).root_val(t),
            r == (self.spec_valid(*old(store)) && self.spec_mutable(*old(store))),
            r ==> self.spec_valid(*final(store)) && self.spec_read_only(*final(store))
                && self.spec_entries(*final(store)) == self.spec_entries(*old(store)),
    {
        let op = TreeOp::MarkReadOnly;
        let ghost gop = op;
        let r = self.dict_apply(store, op);
        proof {
            if self.spec_valid(*old(store)) {
                let rv = old(store).root_val(self.place.root as int)->Some_0;
                assert(val_wf(rv)) by {
                    assert(old(store).roots@[self.place.root as int] is Some);
                }
                lemma_apply_at_success(rv, self.place.path@, gop);
            }
            if r {
                let frv = final(store).root_val(self.place.root as int)->Some_0;
                crate::tree::lemma_ro_target_not_mutable(frv, self.place.path@);
            }
        }
        r
    }

    /// Returns true if this object and `that` object have equivalent
    /// contents, whether or not they are the same object. Stale handles
    /// compare equal to nothing.
    pub fn eq(&self, store: &ValueStore, that: &DictionaryValue) -> (r: bool)
        requires
            store.wf(),
        ensures
            r == (self.spec_valid(*store) && that.spec_valid(*store) && crate::tree::data_eq(
                anchor_target(self.place, *store)->Some_0,
                anchor_target(that.place, *store)->Some_0,
            )),
    {
        if !self.is_valid(store) || !that.is_valid(store) {
            return false;
        }
        let n1 = match anchor_node(store, &self.place) {
            Some(n) => n,
            None => {
                proof {
                    assert(false);
                }
                return false;
            },
        };
        let n2 = match anchor_node(store, &that.place) {
            Some(n) => n,
            None => {
                proof {
                    assert(false);
                }
                return false;
            },
        };
        nodes_equal(n1, n2)
    }

    /// Returns a copy of this object; the underlying data is deep-copied into
    /// fresh, unowned, writable storage. A stale handle has nothing to copy.
    pub fn copy(&self, store: &mut ValueStore) -> (r: Option<DictionaryValue>)
        requires
            old(store).wf(),
        ensures
            final(store).wf(),
            r is Some <==> self.spec_valid(*old(store)),
            r is None ==> final(store).roots@ == old(store).roots@,
            r matches Some(h) ==> {
                &&& final(store).roots@.len() == old(store).roots@.len() + 1
                &&& forall|t: int|
                    0 <= t < old(store).roots@.len() ==> final(store).roots@[t] == old(
                        store,
                    ).roots@[t]
                &&& h.place.root == old(store).roots@.len()
                &&& h.place.path@.len() == 0
                &&& h.spec_valid(*final(store))
                &&& !h.spec_owned(*final(store))
                &&& copy_of(
                    anchor_target(self.place, *old(store))->Some_0,
                    anchor_target(h.place, *final(store))->Some_0,
                )
            },
    {
        if !self.is_valid(store) {
            return None;
        }
        let mut counter = store.next_stamp;
        let copied = match anchor_node(store, &self.place) {
            Some(n) => copy_node(n, &mut counter),
            None => {
                proof {
                    assert(false);
                }
                return None;
            },
        };
        store.next_stamp = counter;
        let ghost cv = copied@;
        proof {
            lemma_copy_wf(anchor_target(self.place, *old(store))->Some_0, cv);
            lemma_view_kind(copied);
        }
        let stamp = match &copied {
            Node::Dict(dn) => dn.stamp,
            _ => {
                proof {
                    assert(false);
                }
                0
            },
        };
        let root = store.roots.len();
        store.roots.push(Some(copied));
        let h = DictionaryValue { place: Anchor { root, path: Vec::new(), stamp } };
        proof {
            assert(final(store).root_val(root as int) == Some(cv));
            assert(resolve_path(cv, h.place.path@) == Some(cv));
        }
        Some(h)
    }
}

impl ListValue {
    /// Marks the list read-only, as the engine does for data it exposes
    /// without handing out mutation rights. Returns true on success; marking
    /// through a stale handle or inside already read-only data fails.
    pub fn make_read_only(&self, store: &mut ValueStore) -> (r: bool)
        requires
            old(store).wf(),
        ensures
            final(store).wf(),
            final(store).roots@.len() == old(store).roots@.len(),
            forall|t: int|
                t != self.place.root as int ==> final(store).root_val(t) == old(store).root_val(t),
            !r ==> forall|t: int| final(store).root_val(t) == old(store).root_val(t),
            r == (self.spec_valid(*old(store)) && self.spec_mutable(*old(store))),
            r ==> self.spec_valid(*final(store)) && self.spec_read_only(*final(store))
                && self.spec_items(*final(store)) == self.spec_items(*old(store)),
    {
        let op = TreeOp::MarkReadOnly;
        let ghost gop = op;
        let r = self.list_apply(store, op);
        proof {
            if self.spec_valid(*old(store)) {
                let rv = old(store).root_val(self.place.root as int)->Some_0;
                assert(val_wf(rv)) by {
                    assert(old(store).roots@[self.place.root as int] is Some);
                }
                lemma_apply_at_success(rv, self.place.path@, gop);
            }
            if r {
                let frv = final(store).root_val(self.place.root as int)->Some_0;
                crate::tree::lemma_ro_target_not_mutable(frv, self.place.path@);
            }
        }
        r
    }

    /// Returns true if this object and `that` object have equivalent
    /// contents, whether or not they are the same object. Stale handles
    /// compare equal to nothing.
    pub fn eq(&self, store: &ValueStore, that: &ListValue) -> (r: bool)
        requires
            store.wf(),
        ensures
            r == (self.spec_valid(*store) && that.spec_valid(*store) && crate::tree::data_eq(
                anchor_target(self.place, *store)->Some_0,
                anchor_target(that.place, *store)->Some_0,
            )),
    {
        if !self.is_valid(store) || !that.is_valid(store) {
            return false;
        }
        let n1 = match anchor_node(store, &self.place) {
            Some(n) => n,
            None => {
                proof {
                    assert(false);
                }
                return false;
            },
        };
        let n2 = match anchor_node(store, &that.place) {
            Some(n) => n,
            None => {
                proof {
                    assert(false);
                }
                return false;
            },
        };
        nodes_equal(n1, n2)
    }

    /// Returns a copy of this object; the underlying data is deep-copied into
    /// fresh, unowned, writable storage. A stale handle has nothing to copy.
    pub fn copy(&self, store: &mut ValueStore) -> (r: Option<ListValue>)
        requires
            old(store).wf(),
        ensures
            final(store).wf(),
            r is Some <==> self.spec_valid(*old(store)),
            r is None ==> final(store).roots@ == old(store).roots@,
            r matches Some(h) ==> {
                &&& final(store).roots@.len() == old(store).roots@.len() + 1
                &&& forall|t: int|
                    0 <= t < old(store).roots@.len() ==> final(store).roots@[t] == old(
                        store,
                    ).roots@[t]
                &&& h.place.root == old(store).roots@.len()
                &&& h.place.path@.len() == 0
                &&& h.spec_valid(*final(store))
                &&& !h.spec_owned(*final(store))
                &&& copy_of(
                    anchor_target(self.place, *old(store))->Some_0,
                    anchor_target(h.place, *final(store))->Some_0,
                )
            },
    {
        if !self.is_valid(store) {
            return None;
        }
        let mut counter = store.next_stamp;
        let copied = match anchor_node(store, &self.place) {
            Some(n) => copy_node(n, &mut counter),
            None => {
                proof {
                    assert(false);
                }
                return None;
            },
        };
        store.next_stamp = counter;
        let ghost cv = copied@;
        proof {
            lemma_copy_wf(anchor_target(self.place, *old(store))->Some_0, cv);
            lemma_view_kind(copied);
        }
        let stamp = match &copied {
            Node::List(ln) => ln.stamp,
            _ => {
                proof {
                    assert(false);
                }
                0
            },
        };
        let root = store.roots.len();
        store.roots.push(Some(copied));
        let h = ListValue { place: Anchor { root, path: Vec::new(), stamp } };
        proof {
            assert(final(store).root_val(root as int) == Some(cv));
            assert(resolve_path(cv, h.place.path@) == Some(cv));
        }
        Some(h)
    }
}

impl BinaryValue {
    /// Returns true if this object and `that` object have equivalent
    /// contents, whether or not they are the same object. Stale handles
    /// compare equal to nothing.
    pub fn eq(&self, store: &ValueStore, that: &BinaryValue) -> (r: bool)
        requires
            store.wf(),
        ensures
            r == (self.spec_valid(*store) && that.spec_valid(*store) && self.spec_data(*store)
                == that.spec_data(*store)),
    {
        if !self.is_valid(store) || !that.is_valid(store) {
            return false;
        }
        let n1 = match anchor_node(store, &self.place) {
            Some(n) => n,
            None => {
                proof {
                    assert(false);
                }
                return false;
            },
        };
        let n2 = match anchor_node(store, &that.place) {
            Some(n) => n,
            None => {
                proof {
                    assert(false);
                }
                return false;
            },
        };
        nodes_equal(n1, n2)
    }

    /// Returns a copy of this object; the underlying data is deep-copied into
    /// fresh, unowned, writable storage. A stale handle has nothing to copy.
    pub fn copy(&self, store: &mut ValueStore) -> (r: Option<BinaryValue>)
        requires
            old(store).wf(),
        ensures
            final(store).wf(),
            r is Some <==> self.spec_valid(*old(store)),
            r is None ==> final(store).roots@ == old(store).roots@,
            r matches Some(h) ==> {
                &&& final(store).roots@.len() == old(store).roots@.len() + 1
                &&& forall|t: int|
                    0 <= t < old(store).roots@.len() ==> final(store).roots@[t] == old(
                        store,
                    ).roots@[t]
                &&& h.place.root == old(store).roots@.len()
                &&& h.place.path@.len() == 0
                &&& h.cursor == 0
                &&& h.spec_valid(*final(store))
                &&& !h.spec_owned(*final(store))
                &&& h.spec_data(*final(store)) == self.spec_data(*old(store))
            },
    {
        if !self.is_valid(store) {
            return None;
        }
        let mut counter = store.next_stamp;
        let copied = match anchor_node(store, &self.place) {
            Some(n) => copy_node(n, &mut counter),
            None => {
                proof {
                    assert(false);
                }
                return None;
            },
        };
        store.next_stamp = counter;
        let ghost cv = copied@;
        proof {
            lemma_copy_wf(anchor_target(self.place, *old(store))->Some_0, cv);
            lemma_view_kind(copied);
        }
        let stamp = match &copied {
            Node::Binary(bn) => bn.stamp,
            _ => {
                proof {
                    assert(false);
                }
                0
            },
        };
        let root = store.roots.len();
        store.roots.push(Some(copied));
        let h = BinaryValue { place: Anchor { root, path: Vec::new(), stamp }, cursor: 0 };
        proof {
            assert(final(store).root_val(root as int) == Some(cv));
            assert(resolve_path(cv, h.place.path@) == Some(cv));
        }
        Some(h)
    }
}

impl Value {
    /// Returns true if this object and `that` object hold equivalent data,
    /// whether or not they reference the same storage. A complex payload
    /// whose storage is gone compares equal to nothing.
    pub fn eq(&self, store: &ValueStore, that: &Value) -> (r: bool)
        requires
            store.wf(),
        ensures
            r == match (value_data(*self, *store), value_data(*that, *store)) {
                (Some(a), Some(b)) => crate::tree::data_eq(a, b),
                _ => false,
            },
    {
        if !self.is_valid(store) || !that.is_valid(store) {
            return false;
        }
        match (&self.payload, &that.payload) {
            (ValuePayload::Null, ValuePayload::Null) => true,
            (ValuePayload::Bool(a), ValuePayload::Bool(b)) => *a == *b,
            (ValuePayload::Int(a), ValuePayload::Int(b)) => *a == *b,
            (ValuePayload::Double(a), ValuePayload::Double(b)) => *a == *b,
            (ValuePayload::Str(a), ValuePayload::Str(b)) => *a == *b,
            _ => {
                let a1 = match &self.payload {
                    ValuePayload::Binary(a) => Some(a),
                    ValuePayload::Dict(a) => Some(a),
                    ValuePayload::List(a) => Some(a),
                    _ => None,
                };
                let a2 = match &that.payload {
                    ValuePayload::Binary(a) => Some(a),
                    ValuePayload::Dict(a) => Some(a),
                    ValuePayload::List(a) => Some(a),
                    _ => None,
                };
                match (a1, a2) {
                    (Some(p1), Some(p2)) => {
                        let n1 = match anchor_node(store, p1) {
                            Some(n) => n,
                            None => {
                                proof {
                                    assert(false);
                                }
                                return false;
                            },
                        };
                        let n2 = match anchor_node(store, p2) {
                            Some(n) => n,
                            None => {
                                proof {
                                    assert(false);
                                }
                                return false;
                            },
                        };
                        nodes_equal(n1, n2)
                    },
                    _ => false,
                }
            },
        }
    }
}

} // verus!
