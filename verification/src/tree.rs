//! The engine's value storage, modeled as trees of nodes.
//!
//! A complex value (binary, dictionary or list) lives as a node inside a
//! storage tree; handles address a node by the tree it is in and the path down
//! to it, and carry the stamp the node was created with. A node keeps its
//! stamp when ownership moves it, so a handle stays good across a move it
//! survives, while a node that was displaced takes its stamp with it and every
//! handle to it goes stale. This module holds the node type, its mathematical
//! view [`Val`], the specification of path resolution and mutation, and the
//! executable walkers the value types are built on.

use vstd::prelude::*;

verus! {

/// One step of a storage path: a dictionary key or a list index.
pub enum PathSeg {
    Key(String),
    Index(usize),
}

/// A node of a storage tree. Scalars are held inline; the complex kinds
/// carry their stamp and read-only flag next to their contents. A double
/// travels as its bit pattern: the boundary converts, this layer only stores.
pub enum Node {
    Null,
    Bool(bool),
    Int(i32),
    Double(u64),
    Str(String),
    Binary(BinaryNode),
    Dict(DictNode),
    List(ListNode),
}

pub struct BinaryNode {
    pub stamp: u64,
    pub read_only: bool,
    pub data: Vec<u8>,
}

pub struct DictNode {
    pub stamp: u64,
    pub read_only: bool,
    pub entries: Vec<(String, Node)>,
}

pub struct ListNode {
    pub stamp: u64,
    pub read_only: bool,
    pub items: Vec<Node>,
}

/// The mathematical view of a node: the same tree over sequences.
pub enum Val {
    Null,
    Bool(bool),
    Int(i32),
    Double(u64),
    Str(Seq<char>),
    Binary { stamp: u64, read_only: bool, data: Seq<u8> },
    Dict { stamp: u64, read_only: bool, entries: Seq<(Seq<char>, Val)> },
    List { stamp: u64, read_only: bool, items: Seq<Val> },
}

pub open spec fn node_view(n: Node) -> Val
    decreases n,
{
    match n {
        Node::Null => Val::Null,
        Node::Bool(b) => Val::Bool(b),
        Node::Int(i) => Val::Int(i),
        Node::Double(d) => Val::Double(d),
        Node::Str(s) => Val::Str(s@),
        Node::Binary(bn) => Val::Binary { stamp: bn.stamp, read_only: bn.read_only, data: bn.data@ },
        Node::Dict(dn) => Val::Dict {
            stamp: dn.stamp,
            read_only: dn.read_only,
            entries: entries_view(dn.entries@),
        },
        Node::List(ln) => Val::List {
            stamp: ln.stamp,
            read_only: ln.read_only,
            items: items_view(ln.items@),
        },
    }
}

pub open spec fn entries_view(es: Seq<(String, Node)>) -> Seq<(Seq<char>, Val)>
    decreases es,
{
    if es.len() == 0 {
        Seq::empty()
    } else {
        entries_view(es.drop_last()).push((es[es.len() - 1].0@, node_view(es[es.len() - 1].1)))
    }
}

pub open spec fn items_view(ns: Seq<Node>) -> Seq<Val>
    decreases ns,
{
    if ns.len() == 0 {
        Seq::empty()
    } else {
        items_view(ns.drop_last()).push(node_view(ns[ns.len() - 1]))
    }
}

impl View for Node {
    type V = Val;

    open spec fn view(&self) -> Val {
        node_view(*self)
    }
}

pub proof fn lemma_entries_view(es: Seq<(String, Node)>)
    ensures
        entries_view(es).len() == es.len(),
        forall|i: int|
            0 <= i < es.len() ==> #[trigger] entries_view(es)[i] == (es[i].0@, node_view(es[i].1)),
    decreases es,
{
    if es.len() > 0 {
        lemma_entries_view(es.drop_last());
    }
}

pub proof fn lemma_items_view(ns: Seq<Node>)
    ensures
        items_view(ns).len() == ns.len(),
        forall|i: int| 0 <= i < ns.len() ==> #[trigger] items_view(ns)[i] == node_view(ns[i]),
    decreases ns,
{
    if ns.len() > 0 {
        lemma_items_view(ns.drop_last());
    }
}

/// Some entry of `es` has the key `key`.
pub open spec fn has_key(es: Seq<(Seq<char>, Val)>, key: Seq<char>) -> bool {
    exists|j: int| 0 <= j < es.len() && es[j].0 == key
}

/// The index of the entry with key `key`; meaningful only where `has_key`
/// holds and the keys are unique.
pub open spec fn key_index(es: Seq<(Seq<char>, Val)>, key: Seq<char>) -> int {
    choose|j: int| 0 <= j < es.len() && es[j].0 == key
}

/// The value stored under `key`, if any.
pub open spec fn lookup(es: Seq<(Seq<char>, Val)>, key: Seq<char>) -> Option<Val> {
    if has_key(es, key) {
        Some(es[key_index(es, key)].1)
    } else {
        None
    }
}

/// No two entries share a key.
pub open spec fn keys_unique(es: Seq<(Seq<char>, Val)>) -> bool {
    forall|i: int, j: int| 0 <= i < j < es.len() ==> (#[trigger] es[i]).0 != (#[trigger] es[j]).0
}

/// Every dictionary anywhere in the tree has unique keys.
pub open spec fn val_wf(v: Val) -> bool
    decreases v,
{
    match v {
        Val::Dict { entries, .. } => {
            &&& keys_unique(entries)
            &&& forall|i: int| 0 <= i < entries.len() ==> val_wf((#[trigger] entries[i]).1)
        },
        Val::List { items, .. } => forall|i: int| 0 <= i < items.len() ==> val_wf(#[trigger] items[i]),
        _ => true,
    }
}

/// The stamp of a complex value; scalars carry none.
pub open spec fn val_stamp(v: Val) -> Option<u64> {
    match v {
        Val::Binary { stamp, .. } => Some(stamp),
        Val::Dict { stamp, .. } => Some(stamp),
        Val::List { stamp, .. } => Some(stamp),
        _ => None,
    }
}

/// Whether a value is itself marked read-only.
pub open spec fn val_ro(v: Val) -> bool {
    match v {
        Val::Binary { read_only, .. } => read_only,
        Val::Dict { read_only, .. } => read_only,
        Val::List { read_only, .. } => read_only,
        _ => false,
    }
}

/// One resolution step: the child of `v` under `seg`.
pub open spec fn step(v: Val, seg: PathSeg) -> Option<Val> {
    match seg {
        PathSeg::Key(k) => match v {
            Val::Dict { entries, .. } => lookup(entries, k@),
            _ => None,
        },
        PathSeg::Index(i) => match v {
            Val::List { items, .. } => if (i as int) < items.len() {
                Some(items[i as int])
            } else {
                None
            },
            _ => None,
        },
    }
}

/// The value `path` leads to from `v`, if the path resolves.
pub open spec fn resolve_path(v: Val, path: Seq<PathSeg>) -> Option<Val>
    decreases path.len(),
{
    if path.len() == 0 {
        Some(v)
    } else {
        match step(v, path[0]) {
            Some(c) => resolve_path(c, path.drop_first()),
            None => None,
        }
    }
}

/// Resolution lands only on well-formed values inside a well-formed tree.
pub proof fn lemma_resolve_wf(v: Val, path: Seq<PathSeg>)
    requires
        val_wf(v),
        resolve_path(v, path) is Some,
    ensures
        val_wf(resolve_path(v, path)->Some_0),
    decreases path.len(),
{
    if path.len() > 0 {
        let c = step(v, path[0])->Some_0;
        assert(val_wf(c)) by {
            match v {
                Val::Dict { entries, .. } => {
                    assert(entries[key_index(entries, path[0]->Key_0@)].1 == c);
                },
                _ => {},
            }
        }
        lemma_resolve_wf(c, path.drop_first());
    }
}

/// Finds the entry of `es` holding `key`, scanning in order.
pub fn find_entry(es: &Vec<(String, Node)>, key: &String) -> (r: Option<usize>)
    ensures
        match r {
            Some(j) => {
                &&& (j as int) < es@.len()
                &&& es@[j as int].0@ == key@
                &&& forall|t: int| 0 <= t < j ==> (#[trigger] es@[t]).0@ != key@
            },
            None => !has_key(entries_view(es@), key@),
        },
{
    let mut j: usize = 0;
    while j < es.len()
        invariant
            j <= es@.len(),
            forall|t: int| 0 <= t < j ==> (#[trigger] es@[t]).0@ != key@,
        decreases es@.len() - j,
    {
        if es[j].0 == *key {
            return Some(j);
        }
        j = j + 1;
    }
    proof {
        lemma_entries_view(es@);
    }
    None
}

/// With unique keys, an entry found by scanning is the entry `key_index`
/// denotes.
pub proof fn lemma_key_index_unique(es: Seq<(Seq<char>, Val)>, key: Seq<char>, j: int)
    requires
        keys_unique(es),
        0 <= j < es.len(),
        es[j].0 == key,
    ensures
        has_key(es, key),
        key_index(es, key) == j,
{
    assert(has_key(es, key));
    let k = key_index(es, key);
    if k != j {
        if k < j {
            assert(es[k].0 != es[j].0);
        } else {
            assert(es[j].0 != es[k].0);
        }
    }
}

/// Walks `path` from its `i`th segment down from `n` and hands the node it
/// leads to back, exactly where the specification-level resolution succeeds.
pub fn resolve_at<'a>(n: &'a Node, path: &Vec<PathSeg>, i: usize) -> (r: Option<&'a Node>)
    requires
        i <= path@.len(),
        val_wf(n@),
    ensures
        match r {
            Some(m) => resolve_path(n@, path@.skip(i as int)) == Some(m@) && val_wf(m@),
            None => resolve_path(n@, path@.skip(i as int)) is None,
        },
    decreases path@.len() - i,
{
    if i == path.len() {
        proof {
            assert(path@.skip(i as int) =~= Seq::<PathSeg>::empty());
        }
        Some(n)
    } else {
        let ghost rest = path@.skip(i as int);
        proof {
            assert(rest[0] == path@[i as int]);
            assert(rest.drop_first() =~= path@.skip(i as int + 1));
        }
        match &path[i] {
            PathSeg::Key(k) => match n {
                Node::Dict(dn) => {
                    let ghost ev = entries_view(dn.entries@);
                    proof {
                        lemma_entries_view(dn.entries@);
                    }
                    match find_entry(&dn.entries, k) {
                        Some(j) => {
                            proof {
                                assert(ev[j as int].0 == k@);
                                lemma_key_index_unique(ev, k@, j as int);
                                assert(step(n@, path@[i as int]) == Some(ev[j as int].1));
                                assert(ev[j as int].1 == node_view(dn.entries@[j as int].1));
                            }
                            resolve_at(&dn.entries[j].1, path, i + 1)
                        },
                        None => None,
                    }
                },
                _ => None,
            },
            PathSeg::Index(ix) => match n {
                Node::List(ln) => {
                    proof {
                        lemma_items_view(ln.items@);
                    }
                    if *ix < ln.items.len() {
                        resolve_at(&ln.items[*ix], path, i + 1)
                    } else {
                        None
                    }
                },
                _ => None,
            },
        }
    }
}

/// One mutation of a tree, to be applied at the end of a path.
pub enum TreeOp {
    /// Insert or replace the entry under a key.
    DictPut(String, Node),
    /// Remove the entry under a key.
    DictRemove(String),
    /// Remove every entry.
    DictClear,
    /// Replace the item at an index that is already in range.
    ListSet(usize, Node),
    /// Remove the item at an index, shifting the items after it down.
    ListRemove(usize),
    /// Remove every item.
    ListClear,
    /// Resize: keep a prefix when shrinking, pad with nulls when growing.
    ListResize(usize),
    /// Mark the complex value itself read-only, as the engine does for data
    /// it exposes without handing out mutation rights.
    MarkReadOnly,
}

/// The node payload an op carries is itself well-formed.
pub open spec fn op_wf(op: TreeOp) -> bool {
    match op {
        TreeOp::DictPut(_, nv) => val_wf(nv@),
        TreeOp::ListSet(_, nv) => val_wf(nv@),
        _ => true,
    }
}

/// Entries with the entry under `key` set to `x`: replaced in place when the
/// key is present, appended when it is not.
pub open spec fn entries_put(es: Seq<(Seq<char>, Val)>, key: Seq<char>, x: Val) -> Seq<
    (Seq<char>, Val),
> {
    if has_key(es, key) {
        es.update(key_index(es, key), (key, x))
    } else {
        es.push((key, x))
    }
}

/// Items resized to `m`: a prefix when shrinking, null-padded when growing.
pub open spec fn resize_items(items: Seq<Val>, m: int) -> Seq<Val> {
    if m <= items.len() {
        items.take(m)
    } else {
        items + Seq::new((m - items.len()) as nat, |i: int| Val::Null)
    }
}

/// What one op does to the value it is applied to. `None` is failure: the
/// value has the wrong kind for the op, or the op's target is missing.
pub open spec fn apply_op(v: Val, op: TreeOp) -> Option<Val> {
    match op {
        TreeOp::DictPut(k, nv) => match v {
            Val::Dict { stamp, read_only, entries } => Some(
                Val::Dict { stamp, read_only, entries: entries_put(entries, k@, nv@) },
            ),
            _ => None,
        },
        TreeOp::DictRemove(k) => match v {
            Val::Dict { stamp, read_only, entries } => if has_key(entries, k@) {
                Some(
                    Val::Dict {
                        stamp,
                        read_only,
                        entries: entries.remove(key_index(entries, k@)),
                    },
                )
            } else {
                None
            },
            _ => None,
        },
        TreeOp::DictClear => match v {
            Val::Dict { stamp, read_only, .. } => Some(
                Val::Dict { stamp, read_only, entries: Seq::empty() },
            ),
            _ => None,
        },
        TreeOp::ListSet(i, nv) => match v {
            Val::List { stamp, read_only, items } => if (i as int) < items.len() {
                Some(Val::List { stamp, read_only, items: items.update(i as int, nv@) })
            } else {
                None
            },
            _ => None,
        },
        TreeOp::ListRemove(i) => match v {
            Val::List { stamp, read_only, items } => if (i as int) < items.len() {
                Some(Val::List { stamp, read_only, items: items.remove(i as int) })
            } else {
                None
            },
            _ => None,
        },
        TreeOp::ListClear => match v {
            Val::List { stamp, read_only, .. } => Some(
                Val::List { stamp, read_only, items: Seq::empty() },
            ),
            _ => None,
        },
        TreeOp::ListResize(m) => match v {
            Val::List { stamp, read_only, items } => Some(
                Val::List { stamp, read_only, items: resize_items(items, m as int) },
            ),
            _ => None,
        },
        TreeOp::MarkReadOnly => match v {
            Val::Binary { stamp, data, .. } => Some(
                Val::Binary { stamp, read_only: true, data },
            ),
            Val::Dict { stamp, entries, .. } => Some(
                Val::Dict { stamp, read_only: true, entries },
            ),
            Val::List { stamp, items, .. } => Some(Val::List { stamp, read_only: true, items }),
            _ => None,
        },
    }
}

/// `v` with its child under `seg` replaced by `c2`; meaningful only where the
/// step resolves.
pub open spec fn replace_child(v: Val, seg: PathSeg, c2: Val) -> Val {
    match seg {
        PathSeg::Key(k) => match v {
            Val::Dict { stamp, read_only, entries } => Val::Dict {
                stamp,
                read_only,
                entries: entries.update(key_index(entries, k@), (k@, c2)),
            },
            _ => v,
        },
        PathSeg::Index(i) => match v {
            Val::List { stamp, read_only, items } => Val::List {
                stamp,
                read_only,
                items: items.update(i as int, c2),
            },
            _ => v,
        },
    }
}

/// The tree after applying `op` at the end of `path`. `None` is failure:
/// the path does not resolve, a value along it (the target included) is
/// read-only, or the op itself fails at the target.
pub open spec fn apply_at(v: Val, path: Seq<PathSeg>, op: TreeOp) -> Option<Val>
    decreases path.len(),
{
    if val_ro(v) {
        None
    } else if path.len() == 0 {
        apply_op(v, op)
    } else {
        match step(v, path[0]) {
            Some(c) => match apply_at(c, path.drop_first(), op) {
                Some(c2) => Some(replace_child(v, path[0], c2)),
                None => None,
            },
            None => None,
        }
    }
}

/// Applying an op with a well-formed payload keeps the tree well-formed.
pub proof fn lemma_apply_wf(v: Val, path: Seq<PathSeg>, op: TreeOp)
    requires
        val_wf(v),
        op_wf(op),
        apply_at(v, path, op) is Some,
    ensures
        val_wf(apply_at(v, path, op)->Some_0),
    decreases path.len(),
{
    if path.len() == 0 {
        lemma_apply_op_wf(v, op);
    } else {
        let c = step(v, path[0])->Some_0;
        assert(val_wf(c)) by {
            match v {
                Val::Dict { entries, .. } => {
                    assert(entries[key_index(entries, path[0]->Key_0@)].1 == c);
                },
                _ => {},
            }
        }
        lemma_apply_wf(c, path.drop_first(), op);
        let c2 = apply_at(c, path.drop_first(), op)->Some_0;
        let v2 = replace_child(v, path[0], c2);
        match v {
            Val::Dict { entries, .. } => {
                let ki = key_index(entries, path[0]->Key_0@);
                let es2 = v2->Dict_entries;
                assert(es2 == entries.update(ki, (path[0]->Key_0@, c2)));
                assert(entries[ki].0 == path[0]->Key_0@);
                assert(keys_unique(es2)) by {
                    assert forall|i: int, j: int| 0 <= i < j < es2.len() implies (
                    #[trigger] es2[i]).0 != (#[trigger] es2[j]).0 by {
                        assert(entries[i].0 != entries[j].0);
                    }
                }
                assert forall|i: int| 0 <= i < es2.len() implies val_wf(
                    (#[trigger] es2[i]).1,
                ) by {
                    if i != ki {
                        assert(es2[i].1 == entries[i].1);
                    }
                }
            },
            Val::List { items, .. } => {
                let i0 = path[0]->Index_0 as int;
                let is2 = v2->List_items;
                assert forall|i: int| 0 <= i < is2.len() implies val_wf(
                    #[trigger] is2[i],
                ) by {
                    if i != i0 {
                        assert(is2[i] == items[i]);
                    }
                }
            },
            _ => {},
        }
    }
}

/// Every op keeps the value it succeeds on well-formed.
pub proof fn lemma_apply_op_wf(v: Val, op: TreeOp)
    requires
        val_wf(v),
        op_wf(op),
        apply_op(v, op) is Some,
    ensures
        val_wf(apply_op(v, op)->Some_0),
{
    let v2 = apply_op(v, op)->Some_0;
    match op {
        TreeOp::DictPut(k, nv) => {
            let entries = v->Dict_entries;
            let es2 = v2->Dict_entries;
            if has_key(entries, k@) {
                let ki = key_index(entries, k@);
                assert(entries[ki].0 == k@);
                assert(keys_unique(es2)) by {
                    assert forall|i: int, j: int| 0 <= i < j < es2.len() implies (
                    #[trigger] es2[i]).0 != (#[trigger] es2[j]).0 by {
                        assert(entries[i].0 != entries[j].0);
                    }
                }
                assert forall|i: int| 0 <= i < es2.len() implies val_wf(
                    (#[trigger] es2[i]).1,
                ) by {
                    if i != ki {
                        assert(es2[i].1 == entries[i].1);
                    }
                }
            } else {
                assert(keys_unique(es2)) by {
                    assert forall|i: int, j: int| 0 <= i < j < es2.len() implies (
                    #[trigger] es2[i]).0 != (#[trigger] es2[j]).0 by {
                        if j < entries.len() {
                            assert(entries[i].0 != entries[j].0);
                        } else {
                            assert(!(entries[i].0 == k@));
                        }
                    }
                }
                assert forall|i: int| 0 <= i < es2.len() implies val_wf(
                    (#[trigger] es2[i]).1,
                ) by {
                    if i < entries.len() {
                        assert(es2[i].1 == entries[i].1);
                    }
                }
            }
        },
        TreeOp::DictRemove(k) => {
            let entries = v->Dict_entries;
            let es2 = v2->Dict_entries;
            let ki = key_index(entries, k@);
            assert(keys_unique(es2)) by {
                assert forall|i: int, j: int| 0 <= i < j < es2.len() implies (
                #[trigger] es2[i]).0 != (#[trigger] es2[j]).0 by {
                    let i0 = if i < ki { i } else { i + 1 };
                    let j0 = if j < ki { j } else { j + 1 };
                    assert(es2[i] == entries[i0]);
                    assert(es2[j] == entries[j0]);
                    assert(entries[i0].0 != entries[j0].0);
                }
            }
            assert forall|i: int| 0 <= i < es2.len() implies val_wf((#[trigger] es2[i]).1) by {
                let i0 = if i < ki { i } else { i + 1 };
                assert(es2[i] == entries[i0]);
                assert(val_wf(entries[i0].1));
            }
        },
        TreeOp::DictClear => {},
        TreeOp::ListSet(i, nv) => {
            let items = v->List_items;
            let is2 = v2->List_items;
            assert forall|t: int| 0 <= t < is2.len() implies val_wf(#[trigger] is2[t]) by {
                if t != i as int {
                    assert(is2[t] == items[t]);
                }
            }
        },
        TreeOp::ListRemove(i) => {
            let items = v->List_items;
            let is2 = v2->List_items;
            assert forall|t: int| 0 <= t < is2.len() implies val_wf(#[trigger] is2[t]) by {
                let t0 = if t < i as int { t } else { t + 1 };
                assert(is2[t] == items[t0]);
                assert(val_wf(items[t0]));
            }
        },
        TreeOp::ListClear => {},
        TreeOp::ListResize(m) => {
            let items = v->List_items;
            let is2 = v2->List_items;
            assert forall|t: int| 0 <= t < is2.len() implies val_wf(#[trigger] is2[t]) by {
                if t < items.len() && t < m as int {
                    assert(is2[t] == items[t]);
                } else {
                    assert(is2[t] == Val::Null);
                }
            }
        },
        TreeOp::MarkReadOnly => {
            match v {
                Val::Dict { entries, .. } => {
                    let es2 = v2->Dict_entries;
                    assert(es2 == entries);
                },
                Val::List { items, .. } => {
                    let is2 = v2->List_items;
                    assert(is2 == items);
                },
                _ => {},
            }
        },
    }
}

/// After a successful apply, the path still resolves, and it leads to the
/// op's own result on the old target. Every value along the path keeps its
/// stamp, kind and read-only flag, because only children are replaced.
pub proof fn lemma_resolve_after_apply(v: Val, path: Seq<PathSeg>, op: TreeOp)
    requires
        val_wf(v),
        apply_at(v, path, op) is Some,
    ensures
        resolve_path(v, path) is Some,
        apply_op(resolve_path(v, path)->Some_0, op) is Some,
        resolve_path(apply_at(v, path, op)->Some_0, path) == Some(
            apply_op(resolve_path(v, path)->Some_0, op)->Some_0,
        ),
    decreases path.len(),
{
    if path.len() == 0 {
    } else {
        let c = step(v, path[0])->Some_0;
        assert(val_wf(c)) by {
            match v {
                Val::Dict { entries, .. } => {
                    assert(entries[key_index(entries, path[0]->Key_0@)].1 == c);
                },
                _ => {},
            }
        }
        lemma_resolve_after_apply(c, path.drop_first(), op);
        let c2 = apply_at(c, path.drop_first(), op)->Some_0;
        let v2 = replace_child(v, path[0], c2);
        assert(step(v2, path[0]) == Some(c2)) by {
            match path[0] {
                PathSeg::Key(k) => {
                    let entries = v->Dict_entries;
                    let ki = key_index(entries, k@);
                    let es2 = v2->Dict_entries;
                    assert(es2[ki].0 == k@);
                    lemma_key_index_unique(es2, k@, ki);
                },
                PathSeg::Index(i) => {},
            }
        }
    }
}

/// The path resolves and no value along it, the target included, is
/// read-only: mutation through the path is allowed.
pub open spec fn path_mutable(v: Val, path: Seq<PathSeg>) -> bool
    decreases path.len(),
{
    if val_ro(v) {
        false
    } else if path.len() == 0 {
        true
    } else {
        match step(v, path[0]) {
            Some(c) => path_mutable(c, path.drop_first()),
            None => false,
        }
    }
}

/// An apply succeeds exactly where the path is mutable and the op itself
/// succeeds on the target.
pub proof fn lemma_apply_at_success(v: Val, path: Seq<PathSeg>, op: TreeOp)
    ensures
        (apply_at(v, path, op) is Some) <==> (path_mutable(v, path) && resolve_path(v, path)
            is Some && apply_op(resolve_path(v, path)->Some_0, op) is Some),
    decreases path.len(),
{
    if path.len() > 0 {
        match step(v, path[0]) {
            Some(c) => lemma_apply_at_success(c, path.drop_first(), op),
            None => {},
        }
    }
}

/// Resolving one step further is stepping from the resolved value.
pub proof fn lemma_resolve_snoc(v: Val, path: Seq<PathSeg>, seg: PathSeg)
    ensures
        resolve_path(v, path.push(seg)) == (match resolve_path(v, path) {
            Some(t) => step(t, seg),
            None => None::<Val>,
        }),
    decreases path.len(),
{
    if path.len() == 0 {
        assert(path.push(seg)[0] == seg);
        assert(path.push(seg).drop_first() =~= Seq::<PathSeg>::empty());
        if step(v, seg) is Some {
            let c = step(v, seg)->Some_0;
            assert(resolve_path(c, Seq::<PathSeg>::empty()) == Some(c));
        }
    } else {
        assert(path.push(seg)[0] == path[0]);
        assert(path.push(seg).drop_first() =~= path.drop_first().push(seg));
        match step(v, path[0]) {
            Some(c) => lemma_resolve_snoc(c, path.drop_first(), seg),
            None => {},
        }
    }
}

/// Applying any op short of a read-only marking keeps the path mutable.
pub proof fn lemma_apply_keeps_mutable(v: Val, path: Seq<PathSeg>, op: TreeOp)
    requires
        val_wf(v),
        !(op is MarkReadOnly),
        apply_at(v, path, op) is Some,
    ensures
        path_mutable(apply_at(v, path, op)->Some_0, path),
    decreases path.len(),
{
    let v2 = apply_at(v, path, op)->Some_0;
    if path.len() == 0 {
        assert(!val_ro(v2)) by {
            match op {
                TreeOp::DictPut(_, _) => {},
                TreeOp::DictRemove(_) => {},
                TreeOp::DictClear => {},
                TreeOp::ListSet(_, _) => {},
                TreeOp::ListRemove(_) => {},
                TreeOp::ListClear => {},
                TreeOp::ListResize(_) => {},
                TreeOp::MarkReadOnly => {},
            }
        }
    } else {
        let c = step(v, path[0])->Some_0;
        assert(val_wf(c)) by {
            match v {
                Val::Dict { entries, .. } => {
                    assert(entries[key_index(entries, path[0]->Key_0@)].1 == c);
                },
                _ => {},
            }
        }
        let c2 = apply_at(c, path.drop_first(), op)->Some_0;
        assert(step(v2, path[0]) == Some(c2)) by {
            match path[0] {
                PathSeg::Key(k) => {
                    let entries = v->Dict_entries;
                    let ki = key_index(entries, k@);
                    let es2 = v2->Dict_entries;
                    assert(es2[ki].0 == k@);
                    lemma_key_index_unique(es2, k@, ki);
                },
                PathSeg::Index(i) => {},
            }
        }
        lemma_apply_keeps_mutable(c, path.drop_first(), op);
    }
}

/// What a put leaves to look up: the new value under its key, everything
/// else untouched.
pub proof fn lemma_lookup_put(es: Seq<(Seq<char>, Val)>, key: Seq<char>, x: Val)
    requires
        keys_unique(es),
    ensures
        lookup(entries_put(es, key, x), key) == Some(x),
        forall|k2: Seq<char>|
            k2 != key ==> #[trigger] lookup(entries_put(es, key, x), k2) == lookup(es, k2),
        forall|k2: Seq<char>|
            #[trigger] has_key(entries_put(es, key, x), k2) == (k2 == key || has_key(es, k2)),
{
    let es2 = entries_put(es, key, x);
    let ki: int = if has_key(es, key) {
        key_index(es, key)
    } else {
        es.len() as int
    };
    if has_key(es, key) {
        assert(es[ki].0 == key);
    }
    assert(es2[ki] == (key, x));
    assert(keys_unique(es2)) by {
        assert forall|i: int, j: int| 0 <= i < j < es2.len() implies (#[trigger] es2[i]).0 != (
        #[trigger] es2[j]).0 by {
            if i != ki && j != ki {
                assert(es[i].0 != es[j].0);
            } else if j == ki && !has_key(es, key) {
                assert(es2[i] == es[i]);
                assert(!(es[i].0 == key));
            }
        }
    }
    lemma_key_index_unique(es2, key, ki);
    assert forall|k2: Seq<char>| k2 != key implies #[trigger] lookup(es2, k2) == lookup(
        es,
        k2,
    ) by {
        if has_key(es, k2) {
            let j2 = key_index(es, k2);
            assert(es[j2].0 == k2);
            assert(j2 != ki);
            assert(es2[j2] == es[j2]);
            lemma_key_index_unique(es2, k2, j2);
            lemma_key_index_unique(es, k2, j2);
        } else {
            assert(!has_key(es2, k2)) by {
                assert forall|j: int| 0 <= j < es2.len() implies (#[trigger] es2[j]).0 != k2 by {
                    if j != ki {
                        assert(es2[j] == es[j]);
                        assert(!(es[j].0 == k2));
                    }
                }
            }
        }
    }
    assert forall|k2: Seq<char>| #[trigger] has_key(es2, k2) == (k2 == key || has_key(
        es,
        k2,
    )) by {
        if k2 == key {
        } else if has_key(es, k2) {
            let j2 = key_index(es, k2);
            assert(es[j2].0 == k2);
            assert(j2 != ki);
            assert(es2[j2].0 == k2);
        } else {
            if has_key(es2, k2) {
                let j2 = key_index(es2, k2);
                assert(es2[j2].0 == k2);
                assert(j2 != ki);
                assert(es2[j2] == es[j2]);
            }
        }
    }
}

/// A path that ends on a read-only value is not mutable.
pub proof fn lemma_ro_target_not_mutable(v: Val, path: Seq<PathSeg>)
    requires
        resolve_path(v, path) is Some,
        val_ro(resolve_path(v, path)->Some_0),
    ensures
        !path_mutable(v, path),
    decreases path.len(),
{
    if !val_ro(v) && path.len() > 0 {
        match step(v, path[0]) {
            Some(c) => lemma_ro_target_not_mutable(c, path.drop_first()),
            None => {},
        }
    }
}

/// Decides [`path_mutable`] without touching the tree.
pub fn path_mutable_exec(n: &Node, path: &Vec<PathSeg>, i: usize) -> (r: bool)
    requires
        i <= path@.len(),
        val_wf(n@),
    ensures
        r == path_mutable(n@, path@.skip(i as int)),
    decreases path@.len() - i,
{
    let ro = match n {
        Node::Binary(bn) => bn.read_only,
        Node::Dict(dn) => dn.read_only,
        Node::List(ln) => ln.read_only,
        _ => false,
    };
    if ro {
        return false;
    }
    if i == path.len() {
        proof {
            assert(path@.skip(i as int) =~= Seq::<PathSeg>::empty());
        }
        return true;
    }
    let ghost rest = path@.skip(i as int);
    proof {
        assert(rest[0] == path@[i as int]);
        assert(rest.drop_first() =~= path@.skip(i as int + 1));
    }
    match &path[i] {
        PathSeg::Key(k) => match n {
            Node::Dict(dn) => {
                let ghost ev = entries_view(dn.entries@);
                proof {
                    lemma_entries_view(dn.entries@);
                }
                match find_entry(&dn.entries, k) {
                    Some(j) => {
                        proof {
                            assert(ev[j as int].0 == k@);
                            lemma_key_index_unique(ev, k@, j as int);
                            assert(step(n@, rest[0]) == Some(ev[j as int].1));
                        }
                        path_mutable_exec(&dn.entries[j].1, path, i + 1)
                    },
                    None => false,
                }
            },
            _ => false,
        },
        PathSeg::Index(ix) => match n {
            Node::List(ln) => {
                proof {
                    lemma_items_view(ln.items@);
                }
                if *ix < ln.items.len() {
                    path_mutable_exec(&ln.items[*ix], path, i + 1)
                } else {
                    false
                }
            },
            _ => false,
        },
    }
}

/// Applies one op to the node itself, exactly where the specification-level
/// op succeeds. Failure leaves the node untouched.
pub fn apply_op_exec(n: &mut Node, op: TreeOp) -> (r: bool)
    requires
        val_wf(old(n)@),
    ensures
        r == (apply_op(old(n)@, op) is Some),
        r ==> apply_op(old(n)@, op) == Some(final(n)@),
        !r ==> final(n)@ == old(n)@,
{
    match op {
        TreeOp::DictPut(k, nv) => match n {
            Node::Dict(dn) => {
                let ghost ev = entries_view(dn.entries@);
                let ghost kv = k@;
                let ghost nvv = nv@;
                proof {
                    lemma_entries_view(dn.entries@);
                }
                match find_entry(&dn.entries, &k) {
                    Some(j) => {
                        proof {
                            lemma_key_index_unique(ev, kv, j as int);
                        }
                        dn.entries[j] = (k, nv);
                        proof {
                            lemma_entries_view(dn.entries@);
                            assert(entries_view(dn.entries@) =~= entries_put(ev, kv, nvv));
                        }
                        true
                    },
                    None => {
                        dn.entries.push((k, nv));
                        proof {
                            lemma_entries_view(dn.entries@);
                            assert(entries_view(dn.entries@) =~= entries_put(ev, kv, nvv));
                        }
                        true
                    },
                }
            },
            _ => false,
        },
        TreeOp::DictRemove(k) => match n {
            Node::Dict(dn) => {
                let ghost ev = entries_view(dn.entries@);
                let ghost kv = k@;
                proof {
                    lemma_entries_view(dn.entries@);
                }
                match find_entry(&dn.entries, &k) {
                    Some(j) => {
                        proof {
                            lemma_key_index_unique(ev, kv, j as int);
                        }
                        dn.entries.remove(j);
                        proof {
                            lemma_entries_view(dn.entries@);
                            assert(entries_view(dn.entries@) =~= ev.remove(j as int));
                        }
                        true
                    },
                    None => false,
                }
            },
            _ => false,
        },
        TreeOp::DictClear => match n {
            Node::Dict(dn) => {
                dn.entries.clear();
                proof {
                    lemma_entries_view(dn.entries@);
                    assert(entries_view(dn.entries@) =~= Seq::<(Seq<char>, Val)>::empty());
                }
                true
            },
            _ => false,
        },
        TreeOp::ListSet(i, nv) => match n {
            Node::List(ln) => {
                let ghost iv = items_view(ln.items@);
                let ghost nvv = nv@;
                proof {
                    lemma_items_view(ln.items@);
                }
                if i < ln.items.len() {
                    ln.items[i] = nv;
                    proof {
                        lemma_items_view(ln.items@);
                        assert(items_view(ln.items@) =~= iv.update(i as int, nvv));
                    }
                    true
                } else {
                    false
                }
            },
            _ => false,
        },
        TreeOp::ListRemove(i) => match n {
            Node::List(ln) => {
                let ghost iv = items_view(ln.items@);
                proof {
                    lemma_items_view(ln.items@);
                }
                if i < ln.items.len() {
                    ln.items.remove(i);
                    proof {
                        lemma_items_view(ln.items@);
                        assert(items_view(ln.items@) =~= iv.remove(i as int));
                    }
                    true
                } else {
                    false
                }
            },
            _ => false,
        },
        TreeOp::ListClear => match n {
            Node::List(ln) => {
                ln.items.clear();
                proof {
                    lemma_items_view(ln.items@);
                    assert(items_view(ln.items@) =~= Seq::<Val>::empty());
                }
                true
            },
            _ => false,
        },
        TreeOp::MarkReadOnly => match n {
            Node::Binary(bn) => {
                bn.read_only = true;
                true
            },
            Node::Dict(dn) => {
                dn.read_only = true;
                true
            },
            Node::List(ln) => {
                ln.read_only = true;
                true
            },
            _ => false,
        },
        TreeOp::ListResize(m) => match n {
            Node::List(ln) => {
                let ghost iv = items_view(ln.items@);
                let ghost orig = ln.items@;
                let ghost st = ln.stamp;
                let ghost rof = ln.read_only;
                proof {
                    lemma_items_view(ln.items@);
                }
                if m <= ln.items.len() {
                    ln.items.truncate(m);
                    proof {
                        lemma_items_view(ln.items@);
                        assert(items_view(ln.items@) =~= resize_items(iv, m as int));
                    }
                } else {
                    while ln.items.len() < m
                        invariant
                            ln.stamp == st,
                            ln.read_only == rof,
                            orig.len() <= ln.items@.len() <= m,
                            forall|t: int| 0 <= t < orig.len() ==> ln.items@[t] == orig[t],
                            forall|t: int|
                                orig.len() <= t < ln.items@.len() ==> ln.items@[t] == Node::Null,
                        decreases m - ln.items@.len(),
                    {
                        ln.items.push(Node::Null);
                    }
                    proof {
                        lemma_items_view(ln.items@);
                        assert forall|t: int| 0 <= t < m implies items_view(ln.items@)[t]
                            == resize_items(iv, m as int)[t] by {
                            if t < orig.len() {
                                assert(ln.items@[t] == orig[t]);
                            } else {
                                assert(ln.items@[t] == Node::Null);
                            }
                        }
                        assert(items_view(ln.items@) =~= resize_items(iv, m as int));
                    }
                }
                true
            },
            _ => false,
        },
    }
}

/// Walks `path` from its `i`th segment down from `n` and applies `op` at the
/// end, exactly where the specification-level apply succeeds. Failure leaves
/// the tree untouched.
pub fn apply_at_exec(n: &mut Node, path: &Vec<PathSeg>, i: usize, op: TreeOp) -> (r: bool)
    requires
        i <= path@.len(),
        val_wf(old(n)@),
    ensures
        r == (apply_at(old(n)@, path@.skip(i as int), op) is Some),
        r ==> apply_at(old(n)@, path@.skip(i as int), op) == Some(final(n)@),
        !r ==> final(n)@ == old(n)@,
    decreases path@.len() - i,
{
    let ro = match &*n {
        Node::Binary(bn) => bn.read_only,
        Node::Dict(dn) => dn.read_only,
        Node::List(ln) => ln.read_only,
        _ => false,
    };
    if ro {
        return false;
    }
    if i == path.len() {
        proof {
            assert(path@.skip(i as int) =~= Seq::<PathSeg>::empty());
        }
        apply_op_exec(n, op)
    } else {
        let ghost rest = path@.skip(i as int);
        proof {
            assert(rest[0] == path@[i as int]);
            assert(rest.drop_first() =~= path@.skip(i as int + 1));
        }
        match &path[i] {
            PathSeg::Key(k) => match n {
                Node::Dict(dn) => {
                    let ghost ev = entries_view(dn.entries@);
                    proof {
                        lemma_entries_view(dn.entries@);
                    }
                    match find_entry(&dn.entries, k) {
                        Some(j) => {
                            proof {
                                lemma_key_index_unique(ev, k@, j as int);
                                assert(step(old(n)@, rest[0]) == Some(ev[j as int].1));
                            }
                            let e = &mut dn.entries[j];
                            let sub = apply_at_exec(&mut e.1, path, i + 1, op);
                            proof {
                                lemma_entries_view(dn.entries@);
                                if sub {
                                    assert(entries_view(dn.entries@) =~= ev.update(
                                        j as int,
                                        (k@, apply_at(ev[j as int].1, rest.drop_first(), op)->Some_0),
                                    ));
                                } else {
                                    assert(entries_view(dn.entries@) =~= ev);
                                }
                            }
                            sub
                        },
                        None => false,
                    }
                },
                _ => false,
            },
            PathSeg::Index(ix) => match n {
                Node::List(ln) => {
                    let ghost iv = items_view(ln.items@);
                    proof {
                        lemma_items_view(ln.items@);
                    }
                    if *ix < ln.items.len() {
                        let e = &mut ln.items[*ix];
                        let sub = apply_at_exec(e, path, i + 1, op);
                        proof {
                            lemma_items_view(ln.items@);
                            if sub {
                                assert(items_view(ln.items@) =~= iv.update(
                                    *ix as int,
                                    apply_at(iv[*ix as int], rest.drop_first(), op)->Some_0,
                                ));
                            } else {
                                assert(items_view(ln.items@) =~= iv);
                            }
                        }
                        sub
                    } else {
                        false
                    }
                },
                _ => false,
            },
        }
    }
}

/// `b` is a deep copy of `a`: the same structure and contents, entry order
/// included, but every complex value in `b` is writable and its stamps are
/// its own.
pub open spec fn copy_of(a: Val, b: Val) -> bool
    decreases a,
{
    match (a, b) {
        (Val::Null, Val::Null) => true,
        (Val::Bool(x), Val::Bool(y)) => x == y,
        (Val::Int(x), Val::Int(y)) => x == y,
        (Val::Double(x), Val::Double(y)) => x == y,
        (Val::Str(x), Val::Str(y)) => x == y,
        (Val::Binary { data: d1, .. }, Val::Binary { read_only, data: d2, .. }) => {
            &&& !read_only
            &&& d2 == d1
        },
        (Val::Dict { entries: ex, .. }, Val::Dict { read_only, entries: ey, .. }) => {
            &&& !read_only
            &&& ey.len() == ex.len()
            &&& forall|i: int|
                0 <= i < ex.len() ==> (#[trigger] ey[i]).0 == ex[i].0 && copy_of(
                    ex[i].1,
                    ey[i].1,
                )
        },
        (Val::List { items: ix, .. }, Val::List { read_only, items: iy, .. }) => {
            &&& !read_only
            &&& iy.len() == ix.len()
            &&& forall|i: int| 0 <= i < ix.len() ==> copy_of(ix[i], #[trigger] iy[i])
        },
        _ => false,
    }
}

/// A deep copy of a well-formed tree is well-formed.
pub proof fn lemma_copy_wf(a: Val, b: Val)
    requires
        val_wf(a),
        copy_of(a, b),
    ensures
        val_wf(b),
    decreases a,
{
    match (a, b) {
        (Val::Dict { entries: ex, .. }, Val::Dict { entries: ey, .. }) => {
            assert(keys_unique(ey)) by {
                assert forall|i: int, j: int| 0 <= i < j < ey.len() implies (
                #[trigger] ey[i]).0 != (#[trigger] ey[j]).0 by {
                    assert(ex[i].0 != ex[j].0);
                }
            }
            assert forall|i: int| 0 <= i < ey.len() implies val_wf((#[trigger] ey[i]).1) by {
                assert(val_wf(ex[i].1));
                lemma_copy_wf(ex[i].1, ey[i].1);
            }
        },
        (Val::List { items: ix, .. }, Val::List { items: iy, .. }) => {
            assert forall|i: int| 0 <= i < iy.len() implies val_wf(#[trigger] iy[i]) by {
                assert(val_wf(ix[i]));
                lemma_copy_wf(ix[i], iy[i]);
            }
        },
        _ => {},
    }
}

/// A deep copy holds the same data as its source: copies compare equal,
/// though they never alias.
pub proof fn lemma_copy_data_eq(a: Val, b: Val)
    requires
        val_wf(a),
        copy_of(a, b),
    ensures
        data_eq(a, b),
    decreases a,
{
    match (a, b) {
        (Val::Dict { entries: ex, .. }, Val::Dict { entries: ey, .. }) => {
            assert(keys_unique(ey)) by {
                assert forall|i: int, j: int| 0 <= i < j < ey.len() implies (
                #[trigger] ey[i]).0 != (#[trigger] ey[j]).0 by {
                    assert(ex[i].0 != ex[j].0);
                }
            }
            assert forall|i: int| 0 <= i < ex.len() implies has_key(ey, (#[trigger] ex[i]).0)
                && data_eq(ex[i].1, ey[key_index(ey, ex[i].0)].1) by {
                assert(ey[i].0 == ex[i].0);
                lemma_key_index_unique(ey, ex[i].0, i);
                assert(val_wf(ex[i].1));
                assert(copy_of(ex[i].1, ey[i].1));
                lemma_copy_data_eq(ex[i].1, ey[i].1);
            }
            assert forall|j: int| 0 <= j < ey.len() implies has_key(ex, (#[trigger] ey[j]).0) by {
                assert(ex[j].0 == ey[j].0);
            }
        },
        (Val::List { items: ix, .. }, Val::List { items: iy, .. }) => {
            assert forall|i: int| 0 <= i < ix.len() implies data_eq(#[trigger] ix[i], iy[i]) by {
                assert(val_wf(ix[i]));
                assert(copy_of(ix[i], iy[i]));
                lemma_copy_data_eq(ix[i], iy[i]);
            }
        },
        _ => {},
    }
}

/// Hands out the next stamp; the counter saturates, which at a step per
/// allocation is out of reach.
pub fn next_stamp(counter: &mut u64) -> (s: u64)
    ensures
        *final(counter) >= *old(counter),
{
    let s = *counter;
    if *counter < u64::MAX {
        *counter = *counter + 1;
    }
    s
}

/// Builds a deep copy of a node, drawing fresh stamps from the counter.
pub fn copy_node(n: &Node, counter: &mut u64) -> (r: Node)
    ensures
        copy_of(n@, r@),
        *final(counter) >= *old(counter),
    decreases n,
{
    match n {
        Node::Null => Node::Null,
        Node::Bool(b) => Node::Bool(*b),
        Node::Int(i) => Node::Int(*i),
        Node::Double(d) => Node::Double(*d),
        Node::Str(s) => Node::Str(s.clone()),
        Node::Binary(bn) => {
            let s = next_stamp(counter);
            Node::Binary(BinaryNode { stamp: s, read_only: false, data: bn.data.clone() })
        },
        Node::Dict(dn) => {
            let mut es: Vec<(String, Node)> = Vec::new();
            let mut t: usize = 0;
            while t < dn.entries.len()
                invariant
                    *n == Node::Dict(*dn),
                    t <= dn.entries@.len(),
                    es@.len() == t,
                    forall|q: int|
                        0 <= q < t ==> (#[trigger] es@[q]).0@ == dn.entries@[q].0@ && copy_of(
                            node_view(dn.entries@[q].1),
                            node_view(es@[q].1),
                        ),
                    *counter >= *old(counter),
                decreases dn.entries@.len() - t,
            {
                proof {
                    assert(*n == Node::Dict(*dn));
                    assert(decreases_to!(*n => n->Dict_0.entries@[t as int].1));
                }
                let key = dn.entries[t].0.clone();
                let c = copy_node(&dn.entries[t].1, counter);
                es.push((key, c));
                t = t + 1;
            }
            let s = next_stamp(counter);
            let r = Node::Dict(DictNode { stamp: s, read_only: false, entries: es });
            proof {
                lemma_entries_view(dn.entries@);
                lemma_entries_view(r->Dict_0.entries@);
            }
            r
        },
        Node::List(ln) => {
            let mut is: Vec<Node> = Vec::new();
            let mut t: usize = 0;
            while t < ln.items.len()
                invariant
                    *n == Node::List(*ln),
                    t <= ln.items@.len(),
                    is@.len() == t,
                    forall|q: int|
                        0 <= q < t ==> copy_of(node_view(ln.items@[q]), node_view(#[trigger] is@[q])),
                    *counter >= *old(counter),
                decreases ln.items@.len() - t,
            {
                proof {
                    assert(*n == Node::List(*ln));
                    assert(decreases_to!(*n => n->List_0.items@[t as int]));
                }
                let c = copy_node(&ln.items[t], counter);
                is.push(c);
                t = t + 1;
            }
            let s = next_stamp(counter);
            let r = Node::List(ListNode { stamp: s, read_only: false, items: is });
            proof {
                lemma_items_view(ln.items@);
                lemma_items_view(r->List_0.items@);
            }
            r
        },
    }
}

/// Structural equality of the data two values hold, the way the engine
/// compares values: stamps and read-only flags are ignored, dictionaries
/// compare as key-value collections with the entry order irrelevant. The
/// dictionary case reads entries through [`key_index`], so it is meaningful
/// for the well-formed trees this module maintains, whose keys are unique.
pub open spec fn data_eq(a: Val, b: Val) -> bool
    decreases a,
{
    match (a, b) {
        (Val::Null, Val::Null) => true,
        (Val::Bool(x), Val::Bool(y)) => x == y,
        (Val::Int(x), Val::Int(y)) => x == y,
        (Val::Double(x), Val::Double(y)) => x == y,
        (Val::Str(x), Val::Str(y)) => x == y,
        (Val::Binary { data: d1, .. }, Val::Binary { data: d2, .. }) => d1 == d2,
        (Val::Dict { entries: ex, .. }, Val::Dict { entries: ey, .. }) => {
            &&& forall|i: int|
                0 <= i < ex.len() ==> has_key(ey, (#[trigger] ex[i]).0) && data_eq(
                    ex[i].1,
                    ey[key_index(ey, ex[i].0)].1,
                )
            &&& forall|j: int| 0 <= j < ey.len() ==> has_key(ex, (#[trigger] ey[j]).0)
        },
        (Val::List { items: ix, .. }, Val::List { items: iy, .. }) => {
            &&& iy.len() == ix.len()
            &&& forall|i: int| 0 <= i < ix.len() ==> data_eq(#[trigger] ix[i], iy[i])
        },
        _ => false,
    }
}

/// A well-formed value's children are well-formed.
pub proof fn lemma_wf_children(v: Val)
    requires
        val_wf(v),
    ensures
        v is List ==> forall|i: int|
            0 <= i < v->List_items.len() ==> val_wf(#[trigger] v->List_items[i]),
        v is Dict ==> keys_unique(v->Dict_entries),
        v is Dict ==> forall|i: int|
            0 <= i < v->Dict_entries.len() ==> val_wf((#[trigger] v->Dict_entries[i]).1),
{
    match v {
        Val::Dict { entries, .. } => {
            assert(entries == v->Dict_entries);
        },
        Val::List { items, .. } => {
            assert(items == v->List_items);
        },
        _ => {},
    }
}

/// The view of a node has the node's own kind.
pub proof fn lemma_view_kind(n: Node)
    ensures
        (node_view(n) is Null) <==> (n is Null),
        (node_view(n) is Bool) <==> (n is Bool),
        (node_view(n) is Int) <==> (n is Int),
        (node_view(n) is Double) <==> (n is Double),
        (node_view(n) is Str) <==> (n is Str),
        (node_view(n) is Binary) <==> (n is Binary),
        (node_view(n) is Dict) <==> (n is Dict),
        (node_view(n) is List) <==> (n is List),
        n is Bool ==> node_view(n) == Val::Bool(n->Bool_0),
        n is Int ==> node_view(n) == Val::Int(n->Int_0),
        n is Double ==> node_view(n) == Val::Double(n->Double_0),
        n is Str ==> node_view(n) == Val::Str(n->Str_0@),
{
    match n {
        Node::Null => {},
        Node::Bool(_) => {},
        Node::Int(_) => {},
        Node::Double(_) => {},
        Node::Str(_) => {},
        Node::Binary(_) => {},
        Node::Dict(_) => {},
        Node::List(_) => {},
    }
}

/// Decides structural data equality of two well-formed nodes.
pub fn nodes_equal(a: &Node, b: &Node) -> (r: bool)
    requires
        val_wf(a@),
        val_wf(b@),
    ensures
        r == data_eq(a@, b@),
    decreases a,
{
    proof {
        lemma_view_kind(*a);
        lemma_view_kind(*b);
    }
    match a {
        Node::Null => match b {
            Node::Null => {
                proof {
                    assert(data_eq(a@, b@));
                }
                true
            },
            _ => {
                proof {
                    assert(!data_eq(a@, b@));
                }
                false
            },
        },
        Node::Bool(x) => match b {
            Node::Bool(y) => {
                let r = *x == *y;
                proof {
                    assert(r == data_eq(a@, b@));
                }
                r
            },
            _ => {
                proof {
                    assert(!data_eq(a@, b@));
                }
                false
            },
        },
        Node::Int(x) => match b {
            Node::Int(y) => {
                let r = *x == *y;
                proof {
                    assert(r == data_eq(a@, b@));
                }
                r
            },
            _ => {
                proof {
                    assert(!data_eq(a@, b@));
                }
                false
            },
        },
        Node::Double(x) => match b {
            Node::Double(y) => {
                let r = *x == *y;
                proof {
                    assert(r == data_eq(a@, b@));
                }
                r
            },
            _ => {
                proof {
                    assert(!data_eq(a@, b@));
                }
                false
            },
        },
        Node::Str(x) => match b {
            Node::Str(y) => {
                let r = *x == *y;
                proof {
                    assert(r == data_eq(a@, b@));
                }
                r
            },
            _ => {
                proof {
                    assert(!data_eq(a@, b@));
                }
                false
            },
        },
        Node::Binary(bx) => match b {
            Node::Binary(by) => {
                if bx.data.len() != by.data.len() {
                    proof {
                        assert(bx.data@ != by.data@);
                    }
                    return false;
                }
                let mut t: usize = 0;
                while t < bx.data.len()
                    invariant
                        *a == Node::Binary(*bx),
                        *b == Node::Binary(*by),
                        val_wf(a@),
                        val_wf(b@),
                        t <= bx.data@.len(),
                        bx.data@.len() == by.data@.len(),
                        forall|q: int| 0 <= q < t ==> bx.data@[q] == by.data@[q],
                    decreases bx.data@.len() - t,
                {
                    if bx.data[t] != by.data[t] {
                        proof {
                            assert(bx.data@ != by.data@);
                        }
                        return false;
                    }
                    t = t + 1;
                }
                proof {
                    assert(bx.data@ =~= by.data@);
                    assert(data_eq(a@, b@));
                }
                true
            },
            _ => {
                proof {
                    assert(!data_eq(a@, b@));
                }
                false
            },
        },
        Node::Dict(dx) => match b {
            Node::Dict(dy) => {
                let ghost evx = entries_view(dx.entries@);
                let ghost evy = entries_view(dy.entries@);
                proof {
                    lemma_entries_view(dx.entries@);
                    lemma_entries_view(dy.entries@);
                }
                let mut t: usize = 0;
                while t < dx.entries.len()
                    invariant
                        *a == Node::Dict(*dx),
                        *b == Node::Dict(*dy),
                        val_wf(a@),
                        val_wf(b@),
                        evx == entries_view(dx.entries@),
                        evy == entries_view(dy.entries@),
                        t <= dx.entries@.len(),
                        evx.len() == dx.entries@.len(),
                        evy.len() == dy.entries@.len(),
                        forall|q: int|
                            0 <= q < t ==> has_key(evy, (#[trigger] evx[q]).0) && data_eq(
                                evx[q].1,
                                evy[key_index(evy, evx[q].0)].1,
                            ),
                    decreases dx.entries@.len() - t,
                {
                    proof {
                        lemma_entries_view(dx.entries@);
                        lemma_entries_view(dy.entries@);
                        assert(*a == Node::Dict(*dx));
                        assert(decreases_to!(*a => a->Dict_0.entries@[t as int].1));
                        lemma_wf_children(a@);
                        assert(a@->Dict_entries == evx);
                        assert(val_wf(evx[t as int].1));
                    }
                    match find_entry(&dy.entries, &dx.entries[t].0) {
                        Some(j) => {
                            proof {
                                lemma_wf_children(b@);
                                assert(b@->Dict_entries == evy);
                                lemma_key_index_unique(evy, evx[t as int].0, j as int);
                                assert(val_wf(evy[j as int].1));
                            }
                            let same = nodes_equal(&dx.entries[t].1, &dy.entries[j].1);
                            if !same {
                                proof {
                                    assert(key_index(evy, evx[t as int].0) == j as int);
                                    assert(!data_eq(a@, b@));
                                }
                                return false;
                            }
                        },
                        None => {
                            proof {
                                assert(!has_key(evy, evx[t as int].0));
                                assert(!data_eq(a@, b@));
                            }
                            return false;
                        },
                    }
                    t = t + 1;
                }
                let mut u: usize = 0;
                while u < dy.entries.len()
                    invariant
                        *a == Node::Dict(*dx),
                        *b == Node::Dict(*dy),
                        val_wf(a@),
                        val_wf(b@),
                        evx == entries_view(dx.entries@),
                        evy == entries_view(dy.entries@),
                        u <= dy.entries@.len(),
                        evx.len() == dx.entries@.len(),
                        evy.len() == dy.entries@.len(),
                        forall|q: int|
                            0 <= q < evx.len() ==> has_key(evy, (#[trigger] evx[q]).0) && data_eq(
                                evx[q].1,
                                evy[key_index(evy, evx[q].0)].1,
                            ),
                        forall|q: int| 0 <= q < u ==> has_key(evx, (#[trigger] evy[q]).0),
                    decreases dy.entries@.len() - u,
                {
                    proof {
                        lemma_entries_view(dx.entries@);
                        lemma_entries_view(dy.entries@);
                    }
                    match find_entry(&dx.entries, &dy.entries[u].0) {
                        Some(w) => {
                            proof {
                                assert(evx[w as int].0 == evy[u as int].0);
                            }
                        },
                        None => {
                            proof {
                                assert(!has_key(evx, evy[u as int].0));
                                assert(!data_eq(a@, b@));
                            }
                            return false;
                        },
                    }
                    u = u + 1;
                }
                proof {
                    assert(a@ == Val::Dict {
                        stamp: dx.stamp,
                        read_only: dx.read_only,
                        entries: evx,
                    });
                    assert(b@ == Val::Dict {
                        stamp: dy.stamp,
                        read_only: dy.read_only,
                        entries: evy,
                    });
                    assert(data_eq(a@, b@));
                }
                true
            },
            _ => {
                proof {
                    assert(!data_eq(a@, b@));
                }
                false
            },
        },
        Node::List(lx) => match b {
            Node::List(ly) => {
                let ghost ivx = items_view(lx.items@);
                let ghost ivy = items_view(ly.items@);
                proof {
                    lemma_items_view(lx.items@);
                    lemma_items_view(ly.items@);
                }
                if lx.items.len() != ly.items.len() {
                    proof {
                        assert(a@ == Val::List {
                            stamp: lx.stamp,
                            read_only: lx.read_only,
                            items: ivx,
                        });
                        assert(b@ == Val::List {
                            stamp: ly.stamp,
                            read_only: ly.read_only,
                            items: ivy,
                        });
                        assert(!data_eq(a@, b@));
                    }
                    return false;
                }
                let mut t: usize = 0;
                while t < lx.items.len()
                    invariant
                        *a == Node::List(*lx),
                        *b == Node::List(*ly),
                        val_wf(a@),
                        val_wf(b@),
                        ivx == items_view(lx.items@),
                        ivy == items_view(ly.items@),
                        t <= lx.items@.len(),
                        lx.items@.len() == ly.items@.len(),
                        forall|q: int| 0 <= q < t ==> data_eq((#[trigger] ivx[q]), ivy[q]),
                    decreases lx.items@.len() - t,
                {
                    proof {
                        lemma_items_view(lx.items@);
                        lemma_items_view(ly.items@);
                        assert(*a == Node::List(*lx));
                        assert(decreases_to!(*a => a->List_0.items@[t as int]));
                        lemma_wf_children(a@);
                        lemma_wf_children(b@);
                        assert(a@->List_items == ivx);
                        assert(b@->List_items == ivy);
                        assert(val_wf(ivx[t as int]));
                        assert(val_wf(ivy[t as int]));
                    }
                    if !nodes_equal(&lx.items[t], &ly.items[t]) {
                        proof {
                            assert(!data_eq(ivx[t as int], ivy[t as int]));
                            assert(!data_eq(a@, b@));
                        }
                        return false;
                    }
                    t = t + 1;
                }
                proof {
                    lemma_items_view(lx.items@);
                    lemma_items_view(ly.items@);
                    assert(a@ == Val::List {
                        stamp: lx.stamp,
                        read_only: lx.read_only,
                        items: ivx,
                    });
                    assert(b@ == Val::List {
                        stamp: ly.stamp,
                        read_only: ly.read_only,
                        items: ivy,
                    });
                    assert(data_eq(a@, b@));
                }
                true
            },
            _ => {
                proof {
                    assert(!data_eq(a@, b@));
                }
                false
            },
        },
    }
}

} // verus!
