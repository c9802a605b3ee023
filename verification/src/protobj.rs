//! The shape transition tree ("shypes") and dynamic objects.
//!
//! Shape nodes live in an arena ([`Heap`]) and are addressed by stable
//! indices ([`ShypeRef`]); so are objects ([`ObjectRef`]). Each node is the
//! root or records one incremental structural change, and carries a parent
//! link, a first-child link and a next-sibling link, each set exactly once.
//! The tree is a prefix trie over structural histories: objects built through
//! the same sequence of property additions and prototype assignments share
//! the same node, so shape identity (index equality) classifies layout.

use crate::value::InternedString;
use crate::value::Value;
use vstd::prelude::*;

verus! {

/// Identity of a shape node: an index into the heap's node arena.
#[derive(Clone, Copy, PartialEq, Eq, Structural, Debug)]
pub struct ShypeRef {
    pub idx: usize,
}

/// Identity of an object: an index into the heap's object arena.
#[derive(Clone, Copy, PartialEq, Eq, Structural, Debug)]
pub struct ObjectRef {
    pub idx: usize,
}

/// How a property is stored: in the numbered slot.
#[derive(Clone, Copy, PartialEq, Eq, Structural, Debug)]
pub enum PropDescr {
    Slot(u32),
}

/// What a shape node records. A node's variant is immutable after
/// construction.
pub enum ShypeVariant {
    /// The root of a shape tree.
    Root,
    /// This lineage assigned the given object as prototype.
    SetPrototype(ObjectRef),
    /// Dependency bookkeeping: the given shape configuration references an
    /// object of this lineage as its prototype.
    BecomePrototype(ShypeRef),
    /// This lineage added the named property, stored as described.
    AddProperty(InternedString, PropDescr),
}

/// A shape node: a variant plus linkage. Each linkage field is set at most
/// once (`unlinked -> linked`), never reversed.
#[verifier::ext_equal]
pub struct Shype {
    parent: Option<ShypeRef>,
    first_child: Option<ShypeRef>,
    next_sibling: Option<ShypeRef>,
    variant: ShypeVariant,
}

impl Shype {
    /// The node this node was derived from.
    pub closed spec fn s_parent(&self) -> Option<ShypeRef> {
        self.parent
    }

    /// The most recently linked child.
    pub closed spec fn s_first_child(&self) -> Option<ShypeRef> {
        self.first_child
    }

    /// The child linked just before this node under the same parent.
    pub closed spec fn s_next_sibling(&self) -> Option<ShypeRef> {
        self.next_sibling
    }

    /// What this node records.
    pub closed spec fn s_variant(&self) -> ShypeVariant {
        self.variant
    }

    /// An unlinked root node.
    pub fn new_root() -> (r: Shype)
        ensures
            r.s_parent() is None,
            r.s_first_child() is None,
            r.s_next_sibling() is None,
            r.s_variant() == ShypeVariant::Root,
    {
        Shype { parent: None, first_child: None, next_sibling: None, variant: ShypeVariant::Root }
    }

    /// An unlinked node recording the addition of property `name` at slot
    /// `slotno`.
    pub fn new_add_prop(name: &InternedString, slotno: u32) -> (r: Shype)
        ensures
            r.s_parent() is None,
            r.s_first_child() is None,
            r.s_next_sibling() is None,
            r.s_variant() == ShypeVariant::AddProperty(*name, PropDescr::Slot(slotno)),
    {
        Shype {
            parent: None,
            first_child: None,
            next_sibling: None,
            variant: ShypeVariant::AddProperty(name.clone(), PropDescr::Slot(slotno)),
        }
    }

    /// An unlinked node recording a prototype assignment.
    pub fn new_set_proto(proto: ObjectRef) -> (r: Shype)
        ensures
            r.s_parent() is None,
            r.s_first_child() is None,
            r.s_next_sibling() is None,
            r.s_variant() == ShypeVariant::SetPrototype(proto),
    {
        Shype {
            parent: None,
            first_child: None,
            next_sibling: None,
            variant: ShypeVariant::SetPrototype(proto),
        }
    }

    /// An unlinked node recording that this lineage became the prototype of
    /// the given target shape.
    pub fn new_become_proto(target_shype: ShypeRef) -> (r: Shype)
        ensures
            r.s_parent() is None,
            r.s_first_child() is None,
            r.s_next_sibling() is None,
            r.s_variant() == ShypeVariant::BecomePrototype(target_shype),
    {
        Shype {
            parent: None,
            first_child: None,
            next_sibling: None,
            variant: ShypeVariant::BecomePrototype(target_shype),
        }
    }
}

/// A dynamic object: a shape reference plus the ordered growable slots, one
/// slot per `AddProperty` ancestor on the shape's root path.
pub struct Object {
    shype: ShypeRef,
    prop_slots: Vec<Value>,
}

impl Object {
    /// The object's current shape.
    pub closed spec fn s_shype(&self) -> ShypeRef {
        self.shype
    }

    /// The object's slot contents, in slot order.
    pub closed spec fn s_slots(&self) -> Seq<Value> {
        self.prop_slots@
    }
}

/// The arena that holds shape nodes and objects. It stands in for the
/// hosting runtime's heap session: all structural mutation goes through one
/// exclusive reference to it.
pub struct Heap {
    shypes: Vec<Shype>,
    objects: Vec<Object>,
}

impl Heap {
    /// The shape nodes, by index.
    pub closed spec fn ss(&self) -> Seq<Shype> {
        self.shypes@
    }

    /// The objects, by index.
    pub closed spec fn obs(&self) -> Seq<Object> {
        self.objects@
    }

    /// An empty heap.
    pub fn new() -> (r: Heap)
        ensures
            r.ss().len() == 0,
            r.obs().len() == 0,
            r.inv(),
    {
        Heap { shypes: Vec::new(), objects: Vec::new() }
    }
}

/// The properties a lineage defines: the `(name, slot)` of every
/// `AddProperty` node on the root path of node `i`, leaf to root (most
/// recently added first).
pub open spec fn own_props(ss: Seq<Shype>, i: int) -> Seq<(InternedString, u32)>
    decreases i,
{
    if 0 <= i < ss.len() {
        let rest = match ss[i].s_parent() {
            Some(p) => if p.idx < i {
                own_props(ss, p.idx as int)
            } else {
                Seq::empty()
            },
            None => Seq::empty(),
        };
        match ss[i].s_variant() {
            ShypeVariant::AddProperty(n, PropDescr::Slot(k)) => seq![(n, k)] + rest,
            _ => rest,
        }
    } else {
        Seq::empty()
    }
}

/// How many properties the lineage of node `i` defines.
pub open spec fn num_props(ss: Seq<Shype>, i: int) -> nat {
    own_props(ss, i).len()
}

/// The first `AddProperty` node on the root path of `i` whose name has
/// identity `nid`, with its slot: the defining occurrence of that name.
pub open spec fn lookup_own(ss: Seq<Shype>, i: int, nid: u64) -> Option<(int, u32)>
    decreases i,
{
    if 0 <= i < ss.len() {
        let up = match ss[i].s_parent() {
            Some(p) => if p.idx < i {
                lookup_own(ss, p.idx as int, nid)
            } else {
                None
            },
            None => None,
        };
        match ss[i].s_variant() {
            ShypeVariant::AddProperty(n, PropDescr::Slot(k)) => if n.iid() == nid {
                Some((i, k))
            } else {
                up
            },
            _ => up,
        }
    } else {
        None
    }
}

/// The first `SetPrototype` node on the root path of `i`, with its payload:
/// the lineage's one honored prototype assignment.
pub open spec fn nearest_setproto(ss: Seq<Shype>, i: int) -> Option<(int, ObjectRef)>
    decreases i,
{
    if 0 <= i < ss.len() {
        match ss[i].s_variant() {
            ShypeVariant::SetPrototype(o) => Some((i, o)),
            _ => match ss[i].s_parent() {
                Some(p) => if p.idx < i {
                    nearest_setproto(ss, p.idx as int)
                } else {
                    None
                },
                None => None,
            },
        }
    } else {
        None
    }
}

/// The prototype the lineage of node `i` assigns, if any.
pub open spec fn proto_of(ss: Seq<Shype>, i: int) -> Option<ObjectRef> {
    match nearest_setproto(ss, i) {
        Some((_, o)) => Some(o),
        None => None,
    }
}

/// The first `BecomePrototype` node on the root path of `i`, with its
/// payload.
pub open spec fn nearest_becomeproto(ss: Seq<Shype>, i: int) -> Option<(int, ShypeRef)>
    decreases i,
{
    if 0 <= i < ss.len() {
        match ss[i].s_variant() {
            ShypeVariant::BecomePrototype(t) => Some((i, t)),
            _ => match ss[i].s_parent() {
                Some(p) => if p.idx < i {
                    nearest_becomeproto(ss, p.idx as int)
                } else {
                    None
                },
                None => None,
            },
        }
    } else {
        None
    }
}

/// Whether node `j` lies on the root path of node `i` (including `i`
/// itself).
pub open spec fn on_root_path(ss: Seq<Shype>, i: int, j: int) -> bool
    decreases i,
{
    if 0 <= i < ss.len() {
        i == j || (match ss[i].s_parent() {
            Some(p) => p.idx < i && on_root_path(ss, p.idx as int, j),
            None => false,
        })
    } else {
        false
    }
}

/// Measure for walking a sibling chain.
pub open spec fn chain_measure(c: Option<ShypeRef>) -> int {
    match c {
        Some(r) => r.idx as int + 1,
        None => 0,
    }
}

/// The first `AddProperty` node in the sibling chain starting at `c` whose
/// name has identity `nid`, with its slot.
pub open spec fn find_child_addprop(ss: Seq<Shype>, c: Option<ShypeRef>, nid: u64) -> Option<
    (int, u32),
>
    decreases chain_measure(c),
{
    match c {
        Some(r) => if r.idx < ss.len() {
            let next = match ss[r.idx as int].s_next_sibling() {
                Some(s) => if s.idx < r.idx {
                    find_child_addprop(ss, Some(s), nid)
                } else {
                    None
                },
                None => None,
            };
            match ss[r.idx as int].s_variant() {
                ShypeVariant::AddProperty(n, PropDescr::Slot(k)) => if n.iid() == nid {
                    Some((r.idx as int, k))
                } else {
                    next
                },
                _ => next,
            }
        } else {
            None
        },
        None => None,
    }
}

/// The first `SetPrototype` node in the sibling chain starting at `c` that
/// records exactly this prototype: the reusable child of a prototype
/// assignment. The whole chain is scanned, so identical assignment
/// histories converge on one node.
pub open spec fn find_setproto_child(ss: Seq<Shype>, c: Option<ShypeRef>, proto: ObjectRef) -> Option<int>
    decreases chain_measure(c),
{
    match c {
        Some(r) => if r.idx < ss.len() {
            let next = match ss[r.idx as int].s_next_sibling() {
                Some(s) => if s.idx < r.idx {
                    find_setproto_child(ss, Some(s), proto)
                } else {
                    None
                },
                None => None,
            };
            match ss[r.idx as int].s_variant() {
                ShypeVariant::SetPrototype(o) => if o == proto {
                    Some(r.idx as int)
                } else {
                    next
                },
                _ => next,
            }
        } else {
            None
        },
        None => None,
    }
}

/// The first `BecomePrototype` node in the sibling chain starting at `c`
/// that records exactly this target shape: the reusable bookkeeping child.
/// The whole chain is scanned.
pub open spec fn find_becomeproto_child(ss: Seq<Shype>, c: Option<ShypeRef>, target: ShypeRef) -> Option<int>
    decreases chain_measure(c),
{
    match c {
        Some(r) => if r.idx < ss.len() {
            let next = match ss[r.idx as int].s_next_sibling() {
                Some(s) => if s.idx < r.idx {
                    find_becomeproto_child(ss, Some(s), target)
                } else {
                    None
                },
                None => None,
            };
            match ss[r.idx as int].s_variant() {
                ShypeVariant::BecomePrototype(t) => if t == target {
                    Some(r.idx as int)
                } else {
                    next
                },
                _ => next,
            }
        } else {
            None
        },
        None => None,
    }
}

/// Per-node well-formedness: parent and sibling links point strictly
/// earlier in the arena; siblings share the node's parent; a first child
/// points back to this node as its parent; roots are never linked; a linked
/// `AddProperty` node's slot equals the number of properties above it; and
/// variant payloads are in bounds.
pub open spec fn node_ok(ss: Seq<Shype>, os_len: int, i: int) -> bool {
    let nd = ss[i];
    &&& match nd.s_parent() {
        Some(p) => p.idx < i,
        None => true,
    }
    &&& match nd.s_next_sibling() {
        Some(s) => s.idx < i && nd.s_parent() is Some && ss[s.idx as int].s_parent()
            == nd.s_parent(),
        None => true,
    }
    &&& match nd.s_first_child() {
        Some(c) => c.idx < ss.len() && ss[c.idx as int].s_parent() == Some(
            ShypeRef { idx: i as usize },
        ),
        None => true,
    }
    &&& (nd.s_variant() is Root ==> nd.s_parent() is None)
    &&& match nd.s_variant() {
        ShypeVariant::SetPrototype(o) => o.idx < os_len,
        ShypeVariant::BecomePrototype(t) => t.idx < ss.len(),
        ShypeVariant::AddProperty(_, PropDescr::Slot(k)) => match nd.s_parent() {
            Some(p) => k as nat == num_props(ss, p.idx as int),
            None => true,
        },
        ShypeVariant::Root => true,
    }
}

/// Well-formedness of the whole node arena.
pub open spec fn shypes_wf(ss: Seq<Shype>, os_len: int) -> bool {
    forall|i: int| 0 <= i < ss.len() ==> #[trigger] node_ok(ss, os_len, i)
}

/// Whether the root path of node `i` ends at a root-variant node: the node
/// belongs to a shape tree (it is linked, or is itself a root).
pub open spec fn rooted(ss: Seq<Shype>, i: int) -> bool
    decreases i,
{
    0 <= i < ss.len() && match ss[i].s_parent() {
        Some(p) => p.idx < i && rooted(ss, p.idx as int),
        None => ss[i].s_variant() is Root,
    }
}

/// Per-object well-formedness: the shape belongs to a shape tree and the
/// slot count matches the number of `AddProperty` ancestors of the shape.
pub open spec fn obj_ok(ss: Seq<Shype>, ob: Object) -> bool {
    &&& ob.s_shype().idx < ss.len()
    &&& rooted(ss, ob.s_shype().idx as int)
    &&& ob.s_slots().len() == num_props(ss, ob.s_shype().idx as int)
    &&& ob.s_slots().len() <= u32::MAX
}

impl Heap {
    /// The node arena is well formed.
    pub open spec fn wf(&self) -> bool {
        shypes_wf(self.ss(), self.obs().len() as int)
    }

    /// Every object's slot array agrees with its shape.
    pub open spec fn objs_ok(&self) -> bool {
        forall|j: int| 0 <= j < self.obs().len() ==> obj_ok(self.ss(), #[trigger] self.obs()[j])
    }

    /// The heap invariant.
    pub open spec fn inv(&self) -> bool {
        self.wf() && self.objs_ok()
    }
}

/// Parent and sibling links point strictly earlier in the arena.
pub open spec fn links_dec(ss: Seq<Shype>) -> bool {
    forall|i: int|
        0 <= i < ss.len() ==> (match (#[trigger] ss[i]).s_parent() {
            Some(p) => p.idx < i,
            None => true,
        }) && (match ss[i].s_next_sibling() {
            Some(s) => s.idx < i,
            None => true,
        })
}

/// The first `b` nodes of `s2` carry the same parent, sibling and variant
/// as in `s1` (first-child links may differ, and nodes may have been
/// appended).
pub open spec fn links_preserved(s1: Seq<Shype>, s2: Seq<Shype>, b: int) -> bool {
    &&& b <= s1.len() <= s2.len()
    &&& forall|i: int|
        0 <= i < b ==> (#[trigger] s2[i]).s_parent() == s1[i].s_parent() && s2[i].s_next_sibling()
            == s1[i].s_next_sibling() && s2[i].s_variant() == s1[i].s_variant()
}

/// A well-formed arena has decreasing links.
pub proof fn lemma_wf_links_dec(ss: Seq<Shype>, os_len: int)
    requires
        shypes_wf(ss, os_len),
    ensures
        links_dec(ss),
{
    assert forall|i: int| 0 <= i < ss.len() implies (match (#[trigger] ss[i]).s_parent() {
        Some(p) => p.idx < i,
        None => true,
    }) && (match ss[i].s_next_sibling() {
        Some(s) => s.idx < i,
        None => true,
    }) by {
        assert(node_ok(ss, os_len, i));
    }
}

/// Everything derived from a node's root path is stable under arena growth
/// and first-child updates: the extension cannot reach back into old paths.
pub proof fn lemma_path_stable(s1: Seq<Shype>, s2: Seq<Shype>, b: int, i: int)
    requires
        links_dec(s1),
        links_preserved(s1, s2, b),
        0 <= i < b,
    ensures
        own_props(s2, i) == own_props(s1, i),
        forall|nid: u64| lookup_own(s2, i, nid) == lookup_own(s1, i, nid),
        nearest_setproto(s2, i) == nearest_setproto(s1, i),
        nearest_becomeproto(s2, i) == nearest_becomeproto(s1, i),
        rooted(s2, i) == rooted(s1, i),
        forall|j: int| on_root_path(s2, i, j) == on_root_path(s1, i, j),
    decreases i,
{
    assert(s2[i].s_parent() == s1[i].s_parent());
    assert(s2[i].s_variant() == s1[i].s_variant());
    match s1[i].s_parent() {
        Some(p) => {
            if p.idx < i {
                lemma_path_stable(s1, s2, b, p.idx as int);
            }
        },
        None => {},
    }
    assert(own_props(s2, i) == own_props(s1, i));
    assert forall|nid: u64| lookup_own(s2, i, nid) == lookup_own(s1, i, nid) by {
        match s1[i].s_parent() {
            Some(p) => {
                if p.idx < i {
                    assert(lookup_own(s2, p.idx as int, nid) == lookup_own(s1, p.idx as int, nid));
                }
            },
            None => {},
        }
    }
    assert forall|j: int| on_root_path(s2, i, j) == on_root_path(s1, i, j) by {
        match s1[i].s_parent() {
            Some(p) => {
                if p.idx < i {
                    assert(on_root_path(s2, p.idx as int, j) == on_root_path(s1, p.idx as int, j));
                }
            },
            None => {},
        }
    }
}

/// Quantified form of the stability lemmas, for whole-arena arguments.
pub proof fn lemma_paths_stable_all(s1: Seq<Shype>, s2: Seq<Shype>, b: int)
    requires
        links_dec(s1),
        links_preserved(s1, s2, b),
    ensures
        forall|i: int| 0 <= i < b ==> #[trigger] own_props(s2, i) == own_props(s1, i),
        forall|i: int, nid: u64|
            0 <= i < b ==> #[trigger] lookup_own(s2, i, nid) == lookup_own(s1, i, nid),
        forall|i: int| 0 <= i < b ==> #[trigger] nearest_setproto(s2, i) == nearest_setproto(s1, i),
        forall|i: int|
            0 <= i < b ==> #[trigger] nearest_becomeproto(s2, i) == nearest_becomeproto(s1, i),
        forall|i: int| 0 <= i < b ==> #[trigger] rooted(s2, i) == rooted(s1, i),
        forall|i: int, j: int|
            0 <= i < b ==> #[trigger] on_root_path(s2, i, j) == on_root_path(s1, i, j),
{
    assert forall|i: int| 0 <= i < b implies #[trigger] own_props(s2, i) == own_props(s1, i) by {
        lemma_path_stable(s1, s2, b, i);
    }
    assert forall|i: int, nid: u64|
        0 <= i < b implies #[trigger] lookup_own(s2, i, nid) == lookup_own(s1, i, nid) by {
        lemma_path_stable(s1, s2, b, i);
    }
    assert forall|i: int|
        0 <= i < b implies #[trigger] nearest_setproto(s2, i) == nearest_setproto(s1, i) by {
        lemma_path_stable(s1, s2, b, i);
    }
    assert forall|i: int|
        0 <= i < b implies #[trigger] nearest_becomeproto(s2, i) == nearest_becomeproto(s1, i) by {
        lemma_path_stable(s1, s2, b, i);
    }
    assert forall|i: int| 0 <= i < b implies #[trigger] rooted(s2, i) == rooted(s1, i) by {
        lemma_path_stable(s1, s2, b, i);
    }
    assert forall|i: int, j: int|
        0 <= i < b implies #[trigger] on_root_path(s2, i, j) == on_root_path(s1, i, j) by {
        lemma_path_stable(s1, s2, b, i);
    }
}

impl Heap {
    /// Places an unlinked node in the arena and returns its identity.
    pub fn alloc_shype(&mut self, s: Shype) -> (r: ShypeRef)
        requires
            old(self).wf(),
            s.s_parent() is None,
            s.s_first_child() is None,
            s.s_next_sibling() is None,
            match s.s_variant() {
                ShypeVariant::SetPrototype(o) => o.idx < old(self).obs().len(),
                ShypeVariant::BecomePrototype(t) => t.idx < old(self).ss().len(),
                _ => true,
            },
        ensures
            final(self).wf(),
            r.idx == old(self).ss().len(),
            final(self).ss() == old(self).ss().push(s),
            final(self).obs() == old(self).obs(),
            old(self).objs_ok() ==> final(self).objs_ok(),
    {
        let r = ShypeRef { idx: self.shypes.len() };
        let ghost s1 = self.ss();
        let ghost os_len = self.obs().len() as int;
        self.shypes.push(s);
        proof {
            let s2 = self.ss();
            lemma_wf_links_dec(s1, os_len);
            assert(links_preserved(s1, s2, s1.len() as int));
            lemma_paths_stable_all(s1, s2, s1.len() as int);
            assert forall|i: int| 0 <= i < s2.len() implies #[trigger] node_ok(s2, os_len, i) by {
                if i < s1.len() {
                    assert(node_ok(s1, os_len, i));
                    assert(s2[i] == s1[i]);
                } else {
                    assert(s2[i] == s);
                }
            }
            if old(self).objs_ok() {
                assert forall|j: int|
                    0 <= j < self.obs().len() implies obj_ok(s2, #[trigger] self.obs()[j]) by {
                    assert(obj_ok(s1, self.obs()[j]));
                }
            }
        }
        r
    }
}

impl ShypeRef {
    /// Whether this node is the root variant.
    pub fn is_root(&self, h: &Heap) -> (r: bool)
        requires
            self.idx < h.ss().len(),
        ensures
            r == (h.ss()[self.idx as int].s_variant() is Root),
    {
        match &h.shypes[self.idx].variant {
            ShypeVariant::Root => true,
            _ => false,
        }
    }

    /// The node this node was derived from, if it has been linked.
    pub fn get_parent(&self, h: &Heap) -> (r: Option<ShypeRef>)
        requires
            self.idx < h.ss().len(),
        ensures
            r == h.ss()[self.idx as int].s_parent(),
    {
        h.shypes[self.idx].parent
    }
}

/// A lazy, restartable walk from a node to the root, following parent links.
pub struct ShypeParentIter {
    mb_shype: Option<ShypeRef>,
}

impl ShypeParentIter {
    /// The node the walk stands on.
    pub closed spec fn current(&self) -> Option<ShypeRef> {
        self.mb_shype
    }

    /// Yields the current node and steps to its parent.
    pub fn next(&mut self, h: &Heap) -> (r: Option<ShypeRef>)
        requires
            match old(self).current() {
                Some(s) => s.idx < h.ss().len(),
                None => true,
            },
        ensures
            r == old(self).current(),
            final(self).current() == (match r {
                Some(s) => h.ss()[s.idx as int].s_parent(),
                None => None::<ShypeRef>,
            }),
    {
        let ret = self.mb_shype;
        if let Some(sr) = ret {
            self.mb_shype = h.shypes[sr.idx].parent;
        }
        ret
    }
}

/// A lazy walk along a sibling chain, following next-sibling links.
pub struct ShypeNextSiblingIter {
    mb_shype: Option<ShypeRef>,
}

impl ShypeNextSiblingIter {
    /// The node the walk stands on.
    pub closed spec fn current(&self) -> Option<ShypeRef> {
        self.mb_shype
    }

    /// Yields the current node and steps to its next sibling.
    pub fn next(&mut self, h: &Heap) -> (r: Option<ShypeRef>)
        requires
            match old(self).current() {
                Some(s) => s.idx < h.ss().len(),
                None => true,
            },
        ensures
            r == old(self).current(),
            final(self).current() == (match r {
                Some(s) => h.ss()[s.idx as int].s_next_sibling(),
                None => None::<ShypeRef>,
            }),
    {
        let ret = self.mb_shype;
        if let Some(sr) = ret {
            self.mb_shype = h.shypes[sr.idx].next_sibling;
        }
        ret
    }
}

impl Object {
    /// A fresh object record at a root shape with no slots.
    pub fn new(h: &Heap, shype: ShypeRef, prop_slots: Vec<Value>) -> (r: Object)
        requires
            shype.idx < h.ss().len(),
            h.ss()[shype.idx as int].s_variant() is Root,
            prop_slots@.len() == 0,
        ensures
            r.s_shype() == shype,
            r.s_slots().len() == 0,
    {
        Object { shype, prop_slots }
    }
}

impl ObjectRef {
    /// Allocates a fresh object at the given root shape, with no slots.
    pub fn allocate(h: &mut Heap, shype: ShypeRef) -> (r: ObjectRef)
        requires
            old(h).inv(),
            shype.idx < old(h).ss().len(),
            old(h).ss()[shype.idx as int].s_variant() is Root,
        ensures
            final(h).inv(),
            r.idx == old(h).obs().len(),
            final(h).ss() == old(h).ss(),
            final(h).obs().len() == old(h).obs().len() + 1,
            forall|j: int| 0 <= j < old(h).obs().len() ==> final(h).obs()[j] == old(h).obs()[j],
            final(h).obs()[r.idx as int].s_shype() == shype,
            final(h).obs()[r.idx as int].s_slots().len() == 0,
            num_props(final(h).ss(), shype.idx as int) == 0,
    {
        let vec: Vec<Value> = Vec::new();
        let obj = Object::new(h, shype, vec);
        let r = ObjectRef { idx: h.objects.len() };
        let ghost s1 = h.ss();
        let ghost os1 = h.obs().len() as int;
        h.objects.push(obj);
        proof {
            assert(node_ok(s1, os1, shype.idx as int));
            assert(num_props(s1, shype.idx as int) == 0);
            assert forall|i: int| 0 <= i < h.ss().len() implies #[trigger] node_ok(
                h.ss(),
                h.obs().len() as int,
                i,
            ) by {
                assert(node_ok(s1, os1, i));
            }
            assert forall|j: int|
                0 <= j < h.obs().len() implies obj_ok(h.ss(), #[trigger] h.obs()[j]) by {
                if j < os1 {
                    assert(obj_ok(s1, old(h).obs()[j]));
                }
            }
        }
        r
    }

    /// The object's current shape.
    pub fn shype(&self, h: &Heap) -> (r: ShypeRef)
        requires
            self.idx < h.obs().len(),
        ensures
            r == h.obs()[self.idx as int].s_shype(),
    {
        h.objects[self.idx].shype
    }

    /// The value in the numbered slot.
    pub fn get_slot(&self, h: &Heap, slotno: u32) -> (r: Value)
        requires
            self.idx < h.obs().len(),
            slotno < h.obs()[self.idx as int].s_slots().len(),
        ensures
            r == h.obs()[self.idx as int].s_slots()[slotno as int],
    {
        h.objects[self.idx].prop_slots[slotno as usize].clone()
    }

    /// Overwrites the numbered slot.
    pub fn set_slot(&self, h: &mut Heap, slotno: u32, val: Value)
        requires
            self.idx < old(h).obs().len(),
            slotno < old(h).obs()[self.idx as int].s_slots().len(),
        ensures
            final(h).ss() == old(h).ss(),
            final(h).obs().len() == old(h).obs().len(),
            forall|j: int|
                0 <= j < old(h).obs().len() && j != self.idx ==> final(h).obs()[j] == old(h).obs()[j],
            final(h).obs()[self.idx as int].s_shype() == old(h).obs()[self.idx as int].s_shype(),
            final(h).obs()[self.idx as int].s_slots() == old(h).obs()[self.idx as int].s_slots()
                .update(slotno as int, val),
            old(h).inv() ==> final(h).inv(),
    {
        let ghost h1 = *old(h);
        h.objects[self.idx].prop_slots[slotno as usize] = val;
        proof {
            if h1.inv() {
                assert forall|i: int| 0 <= i < h.ss().len() implies #[trigger] node_ok(
                    h.ss(),
                    h.obs().len() as int,
                    i,
                ) by {
                    assert(node_ok(h1.ss(), h1.obs().len() as int, i));
                }
                assert forall|j: int|
                    0 <= j < h.obs().len() implies obj_ok(h.ss(), #[trigger] h.obs()[j]) by {
                    assert(obj_ok(h1.ss(), h1.obs()[j]));
                }
            }
        }
    }

    /// How many slots the object has.
    pub fn num_slots(&self, h: &Heap) -> (r: u32)
        requires
            self.idx < h.obs().len(),
            h.obs()[self.idx as int].s_slots().len() <= u32::MAX,
        ensures
            r == h.obs()[self.idx as int].s_slots().len(),
    {
        h.objects[self.idx].prop_slots.len() as u32
    }

    /// The slot the next added property will use.
    pub fn next_slotno(&self, h: &Heap) -> (r: u32)
        requires
            self.idx < h.obs().len(),
            h.obs()[self.idx as int].s_slots().len() <= u32::MAX,
        ensures
            r == h.obs()[self.idx as int].s_slots().len(),
    {
        self.num_slots(h)
    }

    /// Appends a slot and returns its index. The caller must adopt the
    /// matching `AddProperty` shape in the same step to restore the object's
    /// slot-count agreement.
    pub fn add_slot(&self, h: &mut Heap, val: Value) -> (r: u32)
        requires
            self.idx < old(h).obs().len(),
            old(h).obs()[self.idx as int].s_slots().len() < u32::MAX,
        ensures
            final(h).ss() == old(h).ss(),
            final(h).obs().len() == old(h).obs().len(),
            forall|j: int|
                0 <= j < old(h).obs().len() && j != self.idx ==> final(h).obs()[j] == old(h).obs()[j],
            final(h).obs()[self.idx as int].s_shype() == old(h).obs()[self.idx as int].s_shype(),
            final(h).obs()[self.idx as int].s_slots() == old(h).obs()[self.idx as int].s_slots()
                .push(val),
            r == old(h).obs()[self.idx as int].s_slots().len(),
    {
        let n = self.num_slots(h);
        h.objects[self.idx].prop_slots.push(val);
        n
    }
}

/// The result a property lookup reports: the defining node and its
/// descriptor.
pub open spec fn lookup_own_descr(ss: Seq<Shype>, i: int, nid: u64) -> Option<
    (ShypeRef, PropDescr),
> {
    match lookup_own(ss, i, nid) {
        Some((a, k)) => Some((ShypeRef { idx: a as usize }, PropDescr::Slot(k))),
        None => None,
    }
}

/// The property names a lineage defines, most recently added first, as
/// string values.
pub open spec fn own_names_vals(ss: Seq<Shype>, i: int) -> Seq<Value> {
    own_props(ss, i).map_values(|p: (InternedString, u32)| Value::ImmString(p.0))
}

/// A stateless view of one shape node, for structural queries and
/// transitions against a heap.
pub struct SpecificShypeView {
    shype: ShypeRef,
}

impl SpecificShypeView {
    /// The node the view stands on.
    pub closed spec fn s_shype(&self) -> ShypeRef {
        self.shype
    }

    /// A view of the given node.
    pub fn new(shype: ShypeRef) -> (r: SpecificShypeView)
        ensures
            r.s_shype() == shype,
    {
        SpecificShypeView { shype }
    }

    /// The node the view stands on.
    pub fn shype(&self) -> (r: ShypeRef)
        ensures
            r == self.s_shype(),
    {
        self.shype
    }

    /// A walk from this node to the root.
    pub fn root_path_iter(&self) -> (r: ShypeParentIter)
        ensures
            r.current() == Some(self.s_shype()),
    {
        ShypeParentIter { mb_shype: Some(self.shype) }
    }

    /// A walk over this node's direct children, most recently linked first.
    pub fn children_iter(&self, h: &Heap) -> (r: ShypeNextSiblingIter)
        requires
            self.s_shype().idx < h.ss().len(),
        ensures
            r.current() == h.ss()[self.s_shype().idx as int].s_first_child(),
    {
        ShypeNextSiblingIter { mb_shype: h.shypes[self.shype.idx].first_child }
    }

    /// Scans the root path for the defining `AddProperty` node of `name`.
    #[verifier::loop_isolation(false)]
    fn lookup_root_path_addprop(&self, h: &Heap, name: &InternedString) -> (r: Option<
        (ShypeRef, PropDescr),
    >)
        requires
            h.wf(),
            self.s_shype().idx < h.ss().len(),
        ensures
            r == lookup_own_descr(h.ss(), self.s_shype().idx as int, name.iid()),
    {
        let ghost start = self.s_shype().idx as int;
        let ghost nid = name.iid();
        let mut cur: Option<ShypeRef> = Some(self.shype);
        loop
            invariant
                match cur {
                    Some(c) => c.idx < h.ss().len(),
                    None => true,
                },
                lookup_own(h.ss(), start, nid) == match cur {
                    Some(c) => lookup_own(h.ss(), c.idx as int, nid),
                    None => None::<(int, u32)>,
                },
            decreases chain_measure(cur),
        {
            match cur {
                None => {
                    return None;
                },
                Some(c) => {
                    proof {
                        assert(node_ok(h.ss(), h.obs().len() as int, c.idx as int));
                    }
                    let parent = h.shypes[c.idx].parent;
                    match &h.shypes[c.idx].variant {
                        ShypeVariant::AddProperty(n, d) => {
                            if n == name {
                                return Some((c, *d));
                            }
                            cur = parent;
                        },
                        _ => {
                            cur = parent;
                        },
                    }
                },
            }
        }
    }

    /// Scans this node's children for an `AddProperty` node of `name`.
    #[verifier::loop_isolation(false)]
    fn lookup_child_addprop(&self, h: &Heap, name: &InternedString) -> (r: Option<
        (ShypeRef, PropDescr),
    >)
        requires
            h.wf(),
            self.s_shype().idx < h.ss().len(),
        ensures
            r == (match find_child_addprop(
                h.ss(),
                h.ss()[self.s_shype().idx as int].s_first_child(),
                name.iid(),
            ) {
                Some((a, k)) => Some((ShypeRef { idx: a as usize }, PropDescr::Slot(k))),
                None => None::<(ShypeRef, PropDescr)>,
            }),
    {
        let ghost head = h.ss()[self.s_shype().idx as int].s_first_child();
        let ghost nid = name.iid();
        proof {
            assert(node_ok(h.ss(), h.obs().len() as int, self.s_shype().idx as int));
        }
        let mut cur: Option<ShypeRef> = h.shypes[self.shype.idx].first_child;
        loop
            invariant
                match cur {
                    Some(c) => c.idx < h.ss().len(),
                    None => true,
                },
                find_child_addprop(h.ss(), head, nid) == find_child_addprop(h.ss(), cur, nid),
            decreases chain_measure(cur),
        {
            match cur {
                None => {
                    return None;
                },
                Some(c) => {
                    proof {
                        assert(node_ok(h.ss(), h.obs().len() as int, c.idx as int));
                    }
                    let next = h.shypes[c.idx].next_sibling;
                    match &h.shypes[c.idx].variant {
                        ShypeVariant::AddProperty(n, d) => {
                            if n == name {
                                return Some((c, *d));
                            }
                            cur = next;
                        },
                        _ => {
                            cur = next;
                        },
                    }
                },
            }
        }
    }

    /// Links an unlinked, freshly allocated node as this node's newest
    /// child.
    fn add_child(&self, h: &mut Heap, child: ShypeRef) -> (r: ShypeRef)
        requires
            old(h).wf(),
            self.s_shype().idx < old(h).ss().len(),
            child.idx + 1 == old(h).ss().len(),
            self.s_shype().idx < child.idx,
            old(h).ss()[child.idx as int].s_parent() is None,
            old(h).ss()[child.idx as int].s_next_sibling() is None,
            old(h).ss()[child.idx as int].s_first_child() is None,
            !(old(h).ss()[child.idx as int].s_variant() is Root),
            (old(h).ss()[child.idx as int].s_variant() matches ShypeVariant::AddProperty(
                _,
                PropDescr::Slot(k),
            ) ==> k as nat == num_props(old(h).ss(), self.s_shype().idx as int)),
            forall|j: int|
                0 <= j < old(h).obs().len() ==> (#[trigger] old(h).obs()[j]).s_shype().idx
                    != child.idx,
        ensures
            final(h).wf(),
            r == child,
            final(h).obs() == old(h).obs(),
            final(h).ss().len() == old(h).ss().len(),
            links_preserved(old(h).ss(), final(h).ss(), child.idx as int),
            forall|i: int|
                0 <= i < old(h).ss().len() && i != child.idx && i != self.s_shype().idx
                    ==> final(h).ss()[i] == old(h).ss()[i],
            final(h).ss()[self.s_shype().idx as int].s_first_child() == Some(child),
            final(h).ss()[self.s_shype().idx as int].s_parent() == old(h).ss()[self.s_shype().idx as int].s_parent(),
            final(h).ss()[self.s_shype().idx as int].s_next_sibling() == old(h).ss()[self.s_shype().idx as int].s_next_sibling(),
            final(h).ss()[self.s_shype().idx as int].s_variant() == old(h).ss()[self.s_shype().idx as int].s_variant(),
            final(h).ss()[child.idx as int].s_parent() == Some(self.s_shype()),
            final(h).ss()[child.idx as int].s_next_sibling() == old(h).ss()[self.s_shype().idx as int].s_first_child(),
            final(h).ss()[child.idx as int].s_first_child() is None,
            final(h).ss()[child.idx as int].s_variant() == old(h).ss()[child.idx as int].s_variant(),
            old(h).objs_ok() ==> final(h).objs_ok(),
    {
        let p = self.shype.idx;
        let c = child.idx;
        let ghost s1 = h.ss();
        let ghost os_len = h.obs().len() as int;
        proof {
            assert(node_ok(s1, os_len, p as int));
            assert(node_ok(s1, os_len, c as int));
            match s1[p as int].s_first_child() {
                Some(fc) => {
                    // the old first child is linked (its parent is set), so it
                    // is not the unlinked node being linked now
                    assert(s1[fc.idx as int].s_parent() == Some(ShypeRef { idx: p }));
                    assert(fc.idx != c);
                },
                None => {},
            }
        }
        let fc = h.shypes[p].first_child;
        h.shypes[c].parent = Some(self.shype);
        h.shypes[c].next_sibling = fc;
        h.shypes[p].first_child = Some(child);
        proof {
            let s2 = h.ss();
            lemma_wf_links_dec(s1, os_len);
            assert(links_preserved(s1, s2, c as int));
            lemma_paths_stable_all(s1, s2, c as int);
            assert forall|i: int| 0 <= i < s2.len() implies #[trigger] node_ok(s2, os_len, i) by {
                assert(node_ok(s1, os_len, i));
                if i != c && i != p {
                    assert(s2[i] == s1[i]);
                    match s1[i].s_next_sibling() {
                        Some(s) => {
                            assert(s.idx != c);
                            assert(s2[s.idx as int].s_parent() == s1[s.idx as int].s_parent());
                        },
                        None => {},
                    }
                    match s1[i].s_first_child() {
                        Some(fci) => {
                            assert(s1[fci.idx as int].s_parent() == Some(
                                ShypeRef { idx: i as usize },
                            ));
                            assert(fci.idx != c);
                            assert(s2[fci.idx as int].s_parent() == s1[fci.idx as int].s_parent());
                        },
                        None => {},
                    }
                    match s1[i].s_variant() {
                        ShypeVariant::AddProperty(_, PropDescr::Slot(k)) => {
                            match s1[i].s_parent() {
                                Some(pp) => {
                                    assert(own_props(s2, pp.idx as int) == own_props(
                                        s1,
                                        pp.idx as int,
                                    ));
                                },
                                None => {},
                            }
                        },
                        _ => {},
                    }
                } else if i == p as int {
                    match s1[p as int].s_variant() {
                        ShypeVariant::AddProperty(_, PropDescr::Slot(k)) => {
                            match s1[p as int].s_parent() {
                                Some(pp) => {
                                    assert(own_props(s2, pp.idx as int) == own_props(
                                        s1,
                                        pp.idx as int,
                                    ));
                                },
                                None => {},
                            }
                        },
                        _ => {},
                    }
                    match s1[p as int].s_next_sibling() {
                        Some(s) => {
                            assert(s.idx != c);
                            assert(s2[s.idx as int] == s1[s.idx as int]);
                        },
                        None => {},
                    }
                } else {
                    assert(i == c as int);
                    assert(own_props(s2, p as int) == own_props(s1, p as int));
                    match s1[p as int].s_first_child() {
                        Some(fcc) => {
                            assert(s1[fcc.idx as int].s_parent() == Some(ShypeRef { idx: p }));
                            assert(fcc.idx != c && fcc.idx != p);
                            assert(s2[fcc.idx as int] == s1[fcc.idx as int]);
                        },
                        None => {},
                    }
                }
            }
            if old(h).objs_ok() {
                assert forall|j: int|
                    0 <= j < h.obs().len() implies obj_ok(s2, #[trigger] h.obs()[j]) by {
                    assert(obj_ok(s1, h.obs()[j]));
                    assert(h.obs()[j].s_shype().idx != c);
                    assert(own_props(s2, h.obs()[j].s_shype().idx as int) == own_props(
                        s1,
                        h.obs()[j].s_shype().idx as int,
                    ));
                }
            }
        }
        child
    }
}

/// What a hit of `nearest_setproto` is: a `SetPrototype` node on the root
/// path that is its own nearest assignment.
pub proof fn lemma_nearest_setproto_facts(ss: Seq<Shype>, i: int)
    ensures
        match nearest_setproto(ss, i) {
            Some((a, o)) => 0 <= a < ss.len() && ss[a].s_variant() == ShypeVariant::SetPrototype(o)
                && on_root_path(ss, i, a) && nearest_setproto(ss, a) == Some((a, o)),
            None => true,
        },
    decreases i,
{
    if 0 <= i < ss.len() {
        match ss[i].s_variant() {
            ShypeVariant::SetPrototype(_) => {},
            _ => {
                match ss[i].s_parent() {
                    Some(p) => {
                        if p.idx < i {
                            lemma_nearest_setproto_facts(ss, p.idx as int);
                        }
                    },
                    None => {},
                }
            },
        }
    }
}

/// What a hit of `nearest_becomeproto` is.
pub proof fn lemma_nearest_becomeproto_facts(ss: Seq<Shype>, i: int)
    ensures
        match nearest_becomeproto(ss, i) {
            Some((a, t)) => 0 <= a < ss.len() && ss[a].s_variant()
                == ShypeVariant::BecomePrototype(t) && on_root_path(ss, i, a)
                && nearest_becomeproto(ss, a) == Some((a, t)),
            None => true,
        },
    decreases i,
{
    if 0 <= i < ss.len() {
        match ss[i].s_variant() {
            ShypeVariant::BecomePrototype(_) => {},
            _ => {
                match ss[i].s_parent() {
                    Some(p) => {
                        if p.idx < i {
                            lemma_nearest_becomeproto_facts(ss, p.idx as int);
                        }
                    },
                    None => {},
                }
            },
        }
    }
}

/// What a hit of `lookup_own` is: an `AddProperty` node on the root path
/// that defines the name itself.
pub proof fn lemma_lookup_own_facts(ss: Seq<Shype>, i: int, nid: u64)
    ensures
        match lookup_own(ss, i, nid) {
            Some((a, k)) => 0 <= a < ss.len() && on_root_path(ss, i, a) && lookup_own(ss, a, nid)
                == Some((a, k)) && (match ss[a].s_variant() {
                ShypeVariant::AddProperty(n, d) => n.iid() == nid && d == PropDescr::Slot(k),
                _ => false,
            }),
            None => true,
        },
    decreases i,
{
    if 0 <= i < ss.len() {
        match ss[i].s_parent() {
            Some(p) => {
                if p.idx < i {
                    lemma_lookup_own_facts(ss, p.idx as int, nid);
                }
            },
            None => {},
        }
    }
}

/// In a well-formed arena, a rooted lineage's property slots lie below its
/// property count: every defined slot is in range.
pub proof fn lemma_lookup_slot_bound(ss: Seq<Shype>, os_len: int, i: int, nid: u64)
    requires
        shypes_wf(ss, os_len),
        rooted(ss, i),
    ensures
        match lookup_own(ss, i, nid) {
            Some((a, k)) => (k as nat) < num_props(ss, i),
            None => true,
        },
    decreases i,
{
    assert(node_ok(ss, os_len, i));
    match ss[i].s_parent() {
        Some(p) => {
            lemma_lookup_slot_bound(ss, os_len, p.idx as int, nid);
            match ss[i].s_variant() {
                ShypeVariant::AddProperty(n, PropDescr::Slot(k)) => {
                    assert(k as nat == num_props(ss, p.idx as int));
                    assert(num_props(ss, i) == num_props(ss, p.idx as int) + 1);
                },
                _ => {
                    assert(num_props(ss, i) == num_props(ss, p.idx as int));
                },
            }
        },
        None => {
            assert(ss[i].s_variant() is Root);
        },
    }
}

/// What searches over one node's child chain report: nodes of that chain
/// are children of the node, a found `AddProperty` child's slot is the
/// parent's property count, and a found `SetPrototype` or `BecomePrototype`
/// child records exactly the payload searched for.
pub proof fn lemma_chain_facts(
    ss: Seq<Shype>,
    os_len: int,
    pref: ShypeRef,
    c: Option<ShypeRef>,
    nid: u64,
    proto: ObjectRef,
    target: ShypeRef,
)
    requires
        shypes_wf(ss, os_len),
        pref.idx < ss.len(),
        match c {
            Some(r) => r.idx < ss.len() && ss[r.idx as int].s_parent() == Some(pref),
            None => true,
        },
    ensures
        match find_child_addprop(ss, c, nid) {
            Some((a, k)) => 0 <= a < ss.len() && ss[a].s_parent() == Some(pref) && (
            match ss[a].s_variant() {
                ShypeVariant::AddProperty(n, d) => n.iid() == nid && d == PropDescr::Slot(k),
                _ => false,
            }) && k as nat == num_props(ss, pref.idx as int),
            None => true,
        },
        match find_setproto_child(ss, c, proto) {
            Some(a) => 0 <= a < ss.len() && ss[a].s_parent() == Some(pref) && ss[a].s_variant()
                == ShypeVariant::SetPrototype(proto),
            None => true,
        },
        match find_becomeproto_child(ss, c, target) {
            Some(a) => 0 <= a < ss.len() && ss[a].s_parent() == Some(pref) && ss[a].s_variant()
                == ShypeVariant::BecomePrototype(target),
            None => true,
        },
    decreases chain_measure(c),
{
    match c {
        Some(r) => {
            assert(node_ok(ss, os_len, r.idx as int));
            match ss[r.idx as int].s_next_sibling() {
                Some(s) => {
                    if s.idx < r.idx {
                        lemma_chain_facts(ss, os_len, pref, Some(s), nid, proto, target);
                    }
                },
                None => {},
            }
        },
        None => {},
    }
}

/// Sibling-chain searches are stable under arena growth and first-child
/// updates, when the chain starts below the preserved bound.
pub proof fn lemma_chain_search_stable(s1: Seq<Shype>, s2: Seq<Shype>, b: int, c: Option<ShypeRef>)
    requires
        links_dec(s1),
        links_preserved(s1, s2, b),
        match c {
            Some(r) => r.idx < b,
            None => true,
        },
    ensures
        forall|nid: u64| find_child_addprop(s2, c, nid) == find_child_addprop(s1, c, nid),
        forall|p: ObjectRef| find_setproto_child(s2, c, p) == find_setproto_child(s1, c, p),
        forall|t: ShypeRef| find_becomeproto_child(s2, c, t) == find_becomeproto_child(s1, c, t),
    decreases chain_measure(c),
{
    match c {
        Some(r) => {
            assert(s2[r.idx as int].s_next_sibling() == s1[r.idx as int].s_next_sibling());
            assert(s2[r.idx as int].s_variant() == s1[r.idx as int].s_variant());
            match s1[r.idx as int].s_next_sibling() {
                Some(s) => {
                    if s.idx < r.idx {
                        lemma_chain_search_stable(s1, s2, b, Some(s));
                    }
                },
                None => {},
            }
            assert forall|nid: u64|
                find_child_addprop(s2, c, nid) == find_child_addprop(s1, c, nid) by {
                match s1[r.idx as int].s_next_sibling() {
                    Some(s) => {
                        if s.idx < r.idx {
                            assert(find_child_addprop(s2, Some(s), nid) == find_child_addprop(
                                s1,
                                Some(s),
                                nid,
                            ));
                        }
                    },
                    None => {},
                }
            }
            assert forall|p: ObjectRef|
                find_setproto_child(s2, c, p) == find_setproto_child(s1, c, p) by {
                match s1[r.idx as int].s_next_sibling() {
                    Some(s) => {
                        if s.idx < r.idx {
                            assert(find_setproto_child(s2, Some(s), p) == find_setproto_child(
                                s1,
                                Some(s),
                                p,
                            ));
                        }
                    },
                    None => {},
                }
            }
            assert forall|t: ShypeRef|
                find_becomeproto_child(s2, c, t) == find_becomeproto_child(s1, c, t) by {
                match s1[r.idx as int].s_next_sibling() {
                    Some(s) => {
                        if s.idx < r.idx {
                            assert(find_becomeproto_child(s2, Some(s), t) == find_becomeproto_child(
                                s1,
                                Some(s),
                                t,
                            ));
                        }
                    },
                    None => {},
                }
            }
        },
        None => {},
    }
}

impl SpecificShypeView {
    /// The first `SetPrototype` node on this node's root path, with its
    /// payload.
    #[verifier::loop_isolation(false)]
    fn find_setproto_anc(&self, h: &Heap) -> (r: Option<(ShypeRef, ObjectRef)>)
        requires
            h.wf(),
            self.s_shype().idx < h.ss().len(),
        ensures
            r == (match nearest_setproto(h.ss(), self.s_shype().idx as int) {
                Some((a, o)) => Some((ShypeRef { idx: a as usize }, o)),
                None => None::<(ShypeRef, ObjectRef)>,
            }),
    {
        let ghost start = self.s_shype().idx as int;
        let mut cur: Option<ShypeRef> = Some(self.shype);
        loop
            invariant
                match cur {
                    Some(c) => c.idx < h.ss().len(),
                    None => true,
                },
                nearest_setproto(h.ss(), start) == match cur {
                    Some(c) => nearest_setproto(h.ss(), c.idx as int),
                    None => None::<(int, ObjectRef)>,
                },
            decreases chain_measure(cur),
        {
            match cur {
                None => {
                    return None;
                },
                Some(c) => {
                    proof {
                        assert(node_ok(h.ss(), h.obs().len() as int, c.idx as int));
                    }
                    let parent = h.shypes[c.idx].parent;
                    match &h.shypes[c.idx].variant {
                        ShypeVariant::SetPrototype(pr) => {
                            return Some((c, *pr));
                        },
                        _ => {
                            cur = parent;
                        },
                    }
                },
            }
        }
    }

    /// The first `BecomePrototype` node on this node's root path, with its
    /// payload.
    #[verifier::loop_isolation(false)]
    fn find_becomeproto_anc(&self, h: &Heap) -> (r: Option<(ShypeRef, ShypeRef)>)
        requires
            h.wf(),
            self.s_shype().idx < h.ss().len(),
        ensures
            r == (match nearest_becomeproto(h.ss(), self.s_shype().idx as int) {
                Some((a, t)) => Some((ShypeRef { idx: a as usize }, t)),
                None => None::<(ShypeRef, ShypeRef)>,
            }),
    {
        let ghost start = self.s_shype().idx as int;
        let mut cur: Option<ShypeRef> = Some(self.shype);
        loop
            invariant
                match cur {
                    Some(c) => c.idx < h.ss().len(),
                    None => true,
                },
                nearest_becomeproto(h.ss(), start) == match cur {
                    Some(c) => nearest_becomeproto(h.ss(), c.idx as int),
                    None => None::<(int, ShypeRef)>,
                },
            decreases chain_measure(cur),
        {
            match cur {
                None => {
                    return None;
                },
                Some(c) => {
                    proof {
                        assert(node_ok(h.ss(), h.obs().len() as int, c.idx as int));
                    }
                    let parent = h.shypes[c.idx].parent;
                    match &h.shypes[c.idx].variant {
                        ShypeVariant::BecomePrototype(t) => {
                            return Some((c, *t));
                        },
                        _ => {
                            cur = parent;
                        },
                    }
                },
            }
        }
    }

    /// Scans this node's children for a `SetPrototype` node recording
    /// exactly this prototype.
    #[verifier::loop_isolation(false)]
    fn find_matching_setproto_child(&self, h: &Heap, proto: ObjectRef) -> (r: Option<ShypeRef>)
        requires
            h.wf(),
            self.s_shype().idx < h.ss().len(),
        ensures
            r == (match find_setproto_child(
                h.ss(),
                h.ss()[self.s_shype().idx as int].s_first_child(),
                proto,
            ) {
                Some(a) => Some(ShypeRef { idx: a as usize }),
                None => None::<ShypeRef>,
            }),
    {
        let ghost head = h.ss()[self.s_shype().idx as int].s_first_child();
        proof {
            assert(node_ok(h.ss(), h.obs().len() as int, self.s_shype().idx as int));
        }
        let mut cur: Option<ShypeRef> = h.shypes[self.shype.idx].first_child;
        loop
            invariant
                match cur {
                    Some(c) => c.idx < h.ss().len(),
                    None => true,
                },
                find_setproto_child(h.ss(), head, proto) == find_setproto_child(
                    h.ss(),
                    cur,
                    proto,
                ),
            decreases chain_measure(cur),
        {
            match cur {
                None => {
                    return None;
                },
                Some(c) => {
                    proof {
                        assert(node_ok(h.ss(), h.obs().len() as int, c.idx as int));
                    }
                    let next = h.shypes[c.idx].next_sibling;
                    match &h.shypes[c.idx].variant {
                        ShypeVariant::SetPrototype(pr) => {
                            if *pr == proto {
                                return Some(c);
                            }
                            cur = next;
                        },
                        _ => {
                            cur = next;
                        },
                    }
                },
            }
        }
    }

    /// Scans this node's children for a `BecomePrototype` node recording
    /// exactly this target shape.
    #[verifier::loop_isolation(false)]
    fn find_matching_becomeproto_child(&self, h: &Heap, target: ShypeRef) -> (r: Option<ShypeRef>)
        requires
            h.wf(),
            self.s_shype().idx < h.ss().len(),
        ensures
            r == (match find_becomeproto_child(
                h.ss(),
                h.ss()[self.s_shype().idx as int].s_first_child(),
                target,
            ) {
                Some(a) => Some(ShypeRef { idx: a as usize }),
                None => None::<ShypeRef>,
            }),
    {
        let ghost head = h.ss()[self.s_shype().idx as int].s_first_child();
        proof {
            assert(node_ok(h.ss(), h.obs().len() as int, self.s_shype().idx as int));
        }
        let mut cur: Option<ShypeRef> = h.shypes[self.shype.idx].first_child;
        loop
            invariant
                match cur {
                    Some(c) => c.idx < h.ss().len(),
                    None => true,
                },
                find_becomeproto_child(h.ss(), head, target) == find_becomeproto_child(
                    h.ss(),
                    cur,
                    target,
                ),
            decreases chain_measure(cur),
        {
            match cur {
                None => {
                    return None;
                },
                Some(c) => {
                    proof {
                        assert(node_ok(h.ss(), h.obs().len() as int, c.idx as int));
                    }
                    let next = h.shypes[c.idx].next_sibling;
                    match &h.shypes[c.idx].variant {
                        ShypeVariant::BecomePrototype(t) => {
                            if *t == target {
                                return Some(c);
                            }
                            cur = next;
                        },
                        _ => {
                            cur = next;
                        },
                    }
                },
            }
        }
    }

    /// The prototype this lineage assigns: the payload of the first
    /// `SetPrototype` ancestor, if any.
    pub fn get_prototype(&self, h: &Heap) -> (r: Option<ObjectRef>)
        requires
            h.wf(),
            self.s_shype().idx < h.ss().len(),
        ensures
            r == proto_of(h.ss(), self.s_shype().idx as int),
    {
        match self.find_setproto_anc(h) {
            Some((_, proto)) => Some(proto),
            None => None,
        }
    }

    /// The defining node and slot for a property of this lineage.
    pub fn get_own_property(&self, h: &Heap, name: &InternedString) -> (r: Option<(ShypeRef, u32)>)
        requires
            h.wf(),
            self.s_shype().idx < h.ss().len(),
        ensures
            r == (match lookup_own(h.ss(), self.s_shype().idx as int, name.iid()) {
                Some((a, k)) => Some((ShypeRef { idx: a as usize }, k)),
                None => None::<(ShypeRef, u32)>,
            }),
    {
        if let Some((shype, descr)) = self.lookup_root_path_addprop(h, name) {
            match descr {
                PropDescr::Slot(slot) => Some((shype, slot)),
            }
        } else {
            None
        }
    }

    /// Whether this lineage defines the property.
    pub fn has_own_property(&self, h: &Heap, name: &InternedString) -> (r: bool)
        requires
            h.wf(),
            self.s_shype().idx < h.ss().len(),
        ensures
            r == (lookup_own(h.ss(), self.s_shype().idx as int, name.iid()) is Some),
    {
        self.lookup_root_path_addprop(h, name).is_some()
    }

    /// Whether the given node lies on this node's root path.
    #[verifier::loop_isolation(false)]
    pub fn has_ancestor_shype(&self, h: &Heap, sh: ShypeRef) -> (r: bool)
        requires
            h.wf(),
            self.s_shype().idx < h.ss().len(),
        ensures
            r == on_root_path(h.ss(), self.s_shype().idx as int, sh.idx as int),
    {
        let ghost start = self.s_shype().idx as int;
        let mut cur: Option<ShypeRef> = Some(self.shype);
        loop
            invariant
                match cur {
                    Some(c) => c.idx < h.ss().len(),
                    None => true,
                },
                on_root_path(h.ss(), start, sh.idx as int) == match cur {
                    Some(c) => on_root_path(h.ss(), c.idx as int, sh.idx as int),
                    None => false,
                },
            decreases chain_measure(cur),
        {
            match cur {
                None => {
                    return false;
                },
                Some(c) => {
                    proof {
                        assert(node_ok(h.ss(), h.obs().len() as int, c.idx as int));
                    }
                    if c == sh {
                        return true;
                    }
                    cur = h.shypes[c.idx].parent;
                },
            }
        }
    }

    /// The names this lineage defines, most recently added first, as string
    /// values.
    #[verifier::loop_isolation(false)]
    pub fn own_property_names(&self, h: &Heap) -> (r: Vec<Value>)
        requires
            h.wf(),
            self.s_shype().idx < h.ss().len(),
        ensures
            r@ == own_names_vals(h.ss(), self.s_shype().idx as int),
    {
        let ghost start = self.s_shype().idx as int;
        let mut result: Vec<Value> = Vec::new();
        let mut cur: Option<ShypeRef> = Some(self.shype);
        loop
            invariant
                match cur {
                    Some(c) => c.idx < h.ss().len(),
                    None => true,
                },
                own_names_vals(h.ss(), start) == result@ + (match cur {
                    Some(c) => own_names_vals(h.ss(), c.idx as int),
                    None => Seq::<Value>::empty(),
                }),
            decreases chain_measure(cur),
        {
            match cur {
                None => {
                    proof {
                        assert(own_names_vals(h.ss(), start) =~= result@);
                    }
                    return result;
                },
                Some(c) => {
                    proof {
                        assert(node_ok(h.ss(), h.obs().len() as int, c.idx as int));
                    }
                    let ghost pre = result@;
                    let parent = h.shypes[c.idx].parent;
                    match &h.shypes[c.idx].variant {
                        ShypeVariant::AddProperty(name, _) => {
                            result.push(Value::ImmString(name.clone()));
                            proof {
                                let ci = c.idx as int;
                                let rest = match h.ss()[ci].s_parent() {
                                    Some(p) => if p.idx < ci {
                                        own_names_vals(h.ss(), p.idx as int)
                                    } else {
                                        Seq::<Value>::empty()
                                    },
                                    None => Seq::<Value>::empty(),
                                };
                                assert(own_names_vals(h.ss(), ci) =~= seq![
                                    Value::ImmString(*name),
                                ] + rest);
                                assert(pre + own_names_vals(h.ss(), ci) =~= result@ + rest);
                            }
                        },
                        _ => {
                            proof {
                                let ci = c.idx as int;
                                let rest = match h.ss()[ci].s_parent() {
                                    Some(p) => if p.idx < ci {
                                        own_names_vals(h.ss(), p.idx as int)
                                    } else {
                                        Seq::<Value>::empty()
                                    },
                                    None => Seq::<Value>::empty(),
                                };
                                assert(own_names_vals(h.ss(), ci) =~= rest);
                            }
                        },
                    }
                    cur = parent;
                },
            }
        }
    }
}

/// The identities of the names a lineage defines, most recently added
/// first.
pub open spec fn own_name_ids(ss: Seq<Shype>, i: int) -> Seq<u64> {
    own_props(ss, i).map_values(|p: (InternedString, u32)| p.0.iid())
}

/// Where a prototype assignment lands when the current lineage does not
/// already assign `proto`: a child already recording `proto` if one exists,
/// else a fresh node.
pub open spec fn set_proto_probe(ss: Seq<Shype>, i: int, proto: ObjectRef) -> (int, bool) {
    match find_setproto_child(ss, ss[i].s_first_child(), proto) {
        Some(c) => (c, true),
        None => (ss.len() as int, true),
    }
}

/// Which node a prototype assignment resolves to, and whether the caller
/// must adopt it: the nearest `SetPrototype` ancestor if it already assigns
/// `proto`, else the probe.
pub open spec fn set_proto_decision(ss: Seq<Shype>, i: int, proto: ObjectRef) -> (int, bool) {
    match nearest_setproto(ss, i) {
        Some((a, o)) => if o == proto {
            (a, false)
        } else {
            set_proto_probe(ss, i, proto)
        },
        None => set_proto_probe(ss, i, proto),
    }
}

/// The probe step of the prototype-dependency bookkeeping.
pub open spec fn become_proto_probe(ss: Seq<Shype>, i: int, target: ShypeRef) -> (int, bool) {
    match find_becomeproto_child(ss, ss[i].s_first_child(), target) {
        Some(c) => (c, true),
        None => (ss.len() as int, true),
    }
}

/// Which node the prototype-dependency bookkeeping resolves to, and whether
/// the caller must adopt it.
pub open spec fn become_proto_decision(ss: Seq<Shype>, i: int, target: ShypeRef) -> (int, bool) {
    match nearest_becomeproto(ss, i) {
        Some((a, t)) => if t == target {
            (a, false)
        } else {
            become_proto_probe(ss, i, target)
        },
        None => become_proto_probe(ss, i, target),
    }
}

/// Which node a property write resolves to: the defining ancestor if the
/// lineage has the property (nothing to add), else a matching `AddProperty`
/// child (branch reuse), else a fresh node at the next slot.
pub open spec fn add_prop_decision(ss: Seq<Shype>, i: int, nid: u64, nslots: u32) -> (
    int,
    u32,
    bool,
) {
    match lookup_own(ss, i, nid) {
        Some((a, k)) => (a, k, false),
        None => match find_child_addprop(ss, ss[i].s_first_child(), nid) {
            Some((c, k)) => (c, k, true),
            None => (ss.len() as int, nslots, true),
        },
    }
}

impl SpecificShypeView {
    /// Resolves a prototype assignment for this lineage: reuses the nearest
    /// matching `SetPrototype` ancestor (no adoption needed), else a child
    /// already recording this prototype, else constructs and links a fresh
    /// node. Returns the node and whether the caller must adopt it.
    pub fn set_prototype(&self, h: &mut Heap, proto: ObjectRef) -> (r: (ShypeRef, bool))
        requires
            old(h).inv(),
            self.s_shype().idx < old(h).ss().len(),
            proto.idx < old(h).obs().len(),
        ensures
            final(h).inv(),
            final(h).obs() == old(h).obs(),
            old(h).ss().len() <= final(h).ss().len(),
            links_preserved(old(h).ss(), final(h).ss(), old(h).ss().len() as int),
            r.0.idx < final(h).ss().len(),
            (r.0.idx as int, r.1) == set_proto_decision(
                old(h).ss(),
                self.s_shype().idx as int,
                proto,
            ),
            nearest_setproto(final(h).ss(), r.0.idx as int) == Some((r.0.idx as int, proto)),
            proto_of(final(h).ss(), r.0.idx as int) == Some(proto),
            !r.1 ==> final(h).ss() == old(h).ss() && on_root_path(
                old(h).ss(),
                self.s_shype().idx as int,
                r.0.idx as int,
            ),
            r.1 ==> final(h).ss()[r.0.idx as int].s_parent() == Some(self.s_shype())
                && own_props(final(h).ss(), r.0.idx as int) == own_props(
                old(h).ss(),
                self.s_shype().idx as int,
            ) && (forall|nid: u64|
                lookup_own(final(h).ss(), r.0.idx as int, nid) == lookup_own(
                    old(h).ss(),
                    self.s_shype().idx as int,
                    nid,
                )) && (rooted(old(h).ss(), self.s_shype().idx as int) ==> rooted(
                final(h).ss(),
                r.0.idx as int,
            )),
            final(h).ss().len() <= old(h).ss().len() + 1,
            final(h).ss().len() == old(h).ss().len() ==> final(h).ss() == old(h).ss(),
            forall|j: int|
                0 <= j < old(h).ss().len() && j != self.s_shype().idx ==> final(h).ss()[j] == old(h).ss()[j],
            r.1 && r.0.idx < old(h).ss().len() ==> final(h).ss() == old(h).ss(),
            r.1 && r.0.idx == old(h).ss().len() ==> final(h).ss().len() == old(h).ss().len() + 1
                && final(h).ss()[self.s_shype().idx as int].s_first_child() == Some(r.0) && final(h).ss()[r.0.idx as int].s_variant() == ShypeVariant::SetPrototype(proto) && final(h).ss()[r.0.idx as int].s_next_sibling() == old(h).ss()[self.s_shype().idx as int].s_first_child() && final(h).ss()[r.0.idx as int].s_first_child() is None,
    {
        let ghost s1 = h.ss();
        let ghost i = self.s_shype().idx as int;
        let ghost os_len = h.obs().len() as int;
        proof {
            assert(h.shypes.len() == s1.len());
        }

        // Reuse the lineage's one honored assignment if it already matches.
        if let Some((anc, o)) = self.find_setproto_anc(h) {
            if o == proto {
                proof {
                    lemma_nearest_setproto_facts(s1, i);
                }
                return (anc, false);
            }
        }
        // Probe the children for a SetPrototype node recording this
        // prototype.
        proof {
            assert(node_ok(s1, os_len, i));
        }
        if let Some(c) = self.find_matching_setproto_child(h, proto) {
            {
                proof {
                    lemma_chain_facts(
                        s1,
                        os_len,
                        self.s_shype(),
                        s1[i].s_first_child(),
                        0,
                        proto,
                        self.s_shype(),
                    );
                    let ci = c.idx as int;
                    assert(node_ok(s1, os_len, ci));
                    assert(s1[ci].s_parent() == Some(self.s_shype()));
                    assert(own_props(s1, ci) == own_props(s1, i));
                    assert forall|nid: u64| lookup_own(s1, ci, nid) == lookup_own(s1, i, nid) by {
                        assert(node_ok(s1, os_len, ci));
                    }
                    if rooted(s1, i) {
                        assert(rooted(s1, ci));
                    }
                }
                return (c, true);
            }
        }
        // Construct and link a fresh SetPrototype node.
        let node = Shype::new_set_proto(proto);
        let child = h.alloc_shype(node);
        proof {
            assert forall|j: int|
                0 <= j < h.obs().len() implies (#[trigger] h.obs()[j]).s_shype().idx
                != child.idx by {
                assert(obj_ok(s1, old(h).obs()[j]));
            }
        }
        self.add_child(h, child);
        proof {
            let s2 = h.ss();
            let ci = child.idx as int;
            assert(links_preserved(s1, s2, s1.len() as int));
            lemma_wf_links_dec(s1, os_len);
            lemma_paths_stable_all(s1, s2, s1.len() as int);
            assert(child.idx == s1.len());
            assert(s2.len() == s1.len() + 1);
            assert(s2[ci].s_variant() == ShypeVariant::SetPrototype(proto));
            assert(s2[ci].s_parent() == Some(self.s_shype()));
            assert(self.s_shype().idx < child.idx);
            assert(own_props(s2, i) == own_props(s1, i));
            assert(own_props(s2, ci) == own_props(s2, i));
            assert(own_props(s2, ci) == own_props(s1, i));
            assert forall|nid: u64| lookup_own(s2, ci, nid) == lookup_own(s1, i, nid) by {
                assert(lookup_own(s2, i, nid) == lookup_own(s1, i, nid));
            }
            if rooted(s1, i) {
                assert(rooted(s2, i));
                assert(rooted(s2, ci));
            }
        }
        (child, true)
    }

    /// Records, on this lineage (a prototype object's shape tree), that the
    /// given dependent shape configuration references it, reusing the
    /// nearest matching `BecomePrototype` ancestor or a child already
    /// recording this target before constructing a fresh node. Returns the
    /// node and whether the caller must adopt it.
    pub fn become_prototype_of(&self, h: &mut Heap, target_shype: ShypeRef) -> (r: (ShypeRef, bool))
        requires
            old(h).inv(),
            self.s_shype().idx < old(h).ss().len(),
            target_shype.idx < old(h).ss().len(),
        ensures
            final(h).inv(),
            final(h).obs() == old(h).obs(),
            old(h).ss().len() <= final(h).ss().len(),
            links_preserved(old(h).ss(), final(h).ss(), old(h).ss().len() as int),
            r.0.idx < final(h).ss().len(),
            (r.0.idx as int, r.1) == become_proto_decision(
                old(h).ss(),
                self.s_shype().idx as int,
                target_shype,
            ),
            nearest_becomeproto(final(h).ss(), r.0.idx as int) == Some(
                (r.0.idx as int, target_shype),
            ),
            !r.1 ==> final(h).ss() == old(h).ss() && on_root_path(
                old(h).ss(),
                self.s_shype().idx as int,
                r.0.idx as int,
            ),
            r.1 ==> final(h).ss()[r.0.idx as int].s_parent() == Some(self.s_shype())
                && own_props(final(h).ss(), r.0.idx as int) == own_props(
                old(h).ss(),
                self.s_shype().idx as int,
            ) && (forall|nid: u64|
                lookup_own(final(h).ss(), r.0.idx as int, nid) == lookup_own(
                    old(h).ss(),
                    self.s_shype().idx as int,
                    nid,
                )) && nearest_setproto(final(h).ss(), r.0.idx as int) == nearest_setproto(
                old(h).ss(),
                self.s_shype().idx as int,
            ) && (rooted(old(h).ss(), self.s_shype().idx as int) ==> rooted(
                final(h).ss(),
                r.0.idx as int,
            )),
            final(h).ss().len() <= old(h).ss().len() + 1,
            final(h).ss().len() == old(h).ss().len() ==> final(h).ss() == old(h).ss(),
            forall|j: int|
                0 <= j < old(h).ss().len() && j != self.s_shype().idx ==> final(h).ss()[j] == old(h).ss()[j],
            r.1 && r.0.idx < old(h).ss().len() ==> final(h).ss() == old(h).ss(),
            r.1 && r.0.idx == old(h).ss().len() ==> final(h).ss().len() == old(h).ss().len() + 1
                && final(h).ss()[self.s_shype().idx as int].s_first_child() == Some(r.0) && final(h).ss()[r.0.idx as int].s_variant() == ShypeVariant::BecomePrototype(target_shype)
                && final(h).ss()[r.0.idx as int].s_next_sibling() == old(h).ss()[self.s_shype().idx as int].s_first_child() && final(h).ss()[r.0.idx as int].s_first_child() is None,
    {
        let ghost s1 = h.ss();
        let ghost i = self.s_shype().idx as int;
        let ghost os_len = h.obs().len() as int;
        proof {
            assert(h.shypes.len() == s1.len());
        }

        // Find any existing BecomePrototype on the root path; only the
        // nearest one is honored.
        if let Some((anc, t)) = self.find_becomeproto_anc(h) {
            if t == target_shype {
                proof {
                    lemma_nearest_becomeproto_facts(s1, i);
                }
                return (anc, false);
            }
        }
        // Probe the children for a BecomePrototype node recording this
        // target shape.
        proof {
            assert(node_ok(s1, os_len, i));
        }
        if let Some(c) = self.find_matching_becomeproto_child(h, target_shype) {
            {
                proof {
                    lemma_chain_facts(
                        s1,
                        os_len,
                        self.s_shype(),
                        s1[i].s_first_child(),
                        0,
                        ObjectRef { idx: 0 },
                        target_shype,
                    );
                    let ci = c.idx as int;
                    assert(node_ok(s1, os_len, ci));
                    assert(s1[ci].s_parent() == Some(self.s_shype()));
                    assert(own_props(s1, ci) == own_props(s1, i));
                    assert(nearest_setproto(s1, ci) == nearest_setproto(s1, i));
                    assert forall|nid: u64| lookup_own(s1, ci, nid) == lookup_own(s1, i, nid) by {
                        assert(node_ok(s1, os_len, ci));
                    }
                    if rooted(s1, i) {
                        assert(rooted(s1, ci));
                    }
                }
                return (c, true);
            }
        }
        // Construct and link a fresh BecomePrototype node.
        let node = Shype::new_become_proto(target_shype);
        let child = h.alloc_shype(node);
        proof {
            assert forall|j: int|
                0 <= j < h.obs().len() implies (#[trigger] h.obs()[j]).s_shype().idx
                != child.idx by {
                assert(obj_ok(s1, old(h).obs()[j]));
            }
        }
        self.add_child(h, child);
        proof {
            let s2 = h.ss();
            let ci = child.idx as int;
            assert(links_preserved(s1, s2, s1.len() as int));
            lemma_wf_links_dec(s1, os_len);
            lemma_paths_stable_all(s1, s2, s1.len() as int);
            assert(child.idx == s1.len());
            assert(s2[ci].s_variant() == ShypeVariant::BecomePrototype(target_shype));
            assert(s2[ci].s_parent() == Some(self.s_shype()));
            assert(self.s_shype().idx < child.idx);
            assert(own_props(s2, i) == own_props(s1, i));
            assert(own_props(s2, ci) == own_props(s1, i));
            assert(nearest_setproto(s2, ci) == nearest_setproto(s2, i));
            assert(nearest_setproto(s2, i) == nearest_setproto(s1, i));
            assert forall|nid: u64| lookup_own(s2, ci, nid) == lookup_own(s1, i, nid) by {
                assert(lookup_own(s2, i, nid) == lookup_own(s1, i, nid));
            }
            if rooted(s1, i) {
                assert(rooted(s2, i));
                assert(rooted(s2, ci));
            }
        }
        (child, true)
    }

    /// Resolves a property write for object `obj` (whose shape this view
    /// stands on): if the lineage already defines `name`, that node and slot
    /// are returned with `add == false`; otherwise a matching `AddProperty`
    /// child is reused or a fresh one is constructed and linked, with `add
    /// == true`. When `add` is true the caller must grow the object by
    /// exactly one slot, at the returned index, while adopting the node.
    pub fn set_property(&self, h: &mut Heap, obj: ObjectRef, name: &InternedString) -> (r: (
        ShypeRef,
        u32,
        bool,
    ))
        requires
            old(h).inv(),
            self.s_shype().idx < old(h).ss().len(),
            obj.idx < old(h).obs().len(),
            old(h).obs()[obj.idx as int].s_shype() == self.s_shype(),
        ensures
            final(h).inv(),
            final(h).obs() == old(h).obs(),
            old(h).ss().len() <= final(h).ss().len(),
            links_preserved(old(h).ss(), final(h).ss(), old(h).ss().len() as int),
            r.0.idx < final(h).ss().len(),
            (r.0.idx as int, r.1, r.2) == add_prop_decision(
                old(h).ss(),
                self.s_shype().idx as int,
                name.iid(),
                old(h).obs()[obj.idx as int].s_slots().len() as u32,
            ),
            final(h).ss() == add_prop_post(
                old(h).ss(),
                self.s_shype().idx as int,
                *name,
                old(h).obs()[obj.idx as int].s_slots().len() as u32,
            ),
            !r.2 ==> final(h).ss() == old(h).ss() && lookup_own(
                old(h).ss(),
                self.s_shype().idx as int,
                name.iid(),
            ) == Some((r.0.idx as int, r.1)) && (r.1 as nat) < num_props(
                old(h).ss(),
                self.s_shype().idx as int,
            ),
            r.2 ==> r.1 as nat == num_props(old(h).ss(), self.s_shype().idx as int) && final(h).ss()[r.0.idx as int].s_parent() == Some(self.s_shype()) && lookup_own(
                final(h).ss(),
                r.0.idx as int,
                name.iid(),
            ) == Some((r.0.idx as int, r.1)) && (forall|nid: u64|
                nid != name.iid() ==> lookup_own(final(h).ss(), r.0.idx as int, nid) == lookup_own(
                    old(h).ss(),
                    self.s_shype().idx as int,
                    nid,
                )) && num_props(final(h).ss(), r.0.idx as int) == num_props(
                old(h).ss(),
                self.s_shype().idx as int,
            ) + 1 && own_name_ids(final(h).ss(), r.0.idx as int) == seq![name.iid()]
                + own_name_ids(old(h).ss(), self.s_shype().idx as int) && nearest_setproto(
                final(h).ss(),
                r.0.idx as int,
            ) == nearest_setproto(old(h).ss(), self.s_shype().idx as int) && (rooted(
                old(h).ss(),
                self.s_shype().idx as int,
            ) ==> rooted(final(h).ss(), r.0.idx as int)),
            r.2 && r.0.idx < old(h).ss().len() ==> final(h).ss() == old(h).ss(),
            r.2 && r.0.idx == old(h).ss().len() ==> final(h).ss().len() == old(h).ss().len() + 1
                && (forall|j: int|
                0 <= j < old(h).ss().len() && j != self.s_shype().idx ==> final(h).ss()[j] == old(h).ss()[j]) && final(h).ss()[self.s_shype().idx as int].s_first_child() == Some(r.0)
                && final(h).ss()[r.0.idx as int].s_variant() == ShypeVariant::AddProperty(
                *name,
                PropDescr::Slot(r.1),
            ),
    {
        let ghost s1 = h.ss();
        let ghost i = self.s_shype().idx as int;
        let ghost os_len = h.obs().len() as int;
        let ghost nid = name.iid();
        proof {
            assert(h.shypes.len() == s1.len());
        }

        // The lineage may already define the property: nothing to add.
        if let Some((shype, descr)) = self.lookup_root_path_addprop(h, name) {
            match descr {
                PropDescr::Slot(slot) => {
                    proof {
                        assert(obj_ok(s1, h.obs()[obj.idx as int]));
                        lemma_lookup_slot_bound(s1, os_len, i, nid);
                        lemma_lookup_own_facts(s1, i, nid);
                    }
                    return (shype, slot, false);
                },
            }
        }
        // Branch reuse: another lineage with the same history may already
        // have added this property as a child shape.
        proof {
            assert(node_ok(s1, os_len, i));
        }
        if let Some((shype, descr)) = self.lookup_child_addprop(h, name) {
            match descr {
                PropDescr::Slot(slot) => {
                    proof {
                        assert(obj_ok(s1, h.obs()[obj.idx as int]));
                        lemma_chain_facts(
                            s1,
                            os_len,
                            self.s_shype(),
                            s1[i].s_first_child(),
                            nid,
                            ObjectRef { idx: 0 },
                            self.s_shype(),
                        );
                        let ci = shype.idx as int;
                        assert(node_ok(s1, os_len, ci));
                        assert(s1[ci].s_parent() == Some(self.s_shype()));
                        match s1[ci].s_variant() {
                            ShypeVariant::AddProperty(n, d) => {
                                assert(n.iid() == nid && d == PropDescr::Slot(slot));
                                assert(lookup_own(s1, ci, nid) == Some((ci, slot)));
                                assert(own_props(s1, ci) == seq![(n, slot)] + own_props(s1, i));
                                assert(own_name_ids(s1, ci) =~= seq![nid] + own_name_ids(s1, i));
                            },
                            _ => {
                                assert(false);
                            },
                        }
                        assert(nearest_setproto(s1, ci) == nearest_setproto(s1, i));
                        assert forall|n2: u64| n2 != nid implies lookup_own(s1, ci, n2)
                            == lookup_own(s1, i, n2) by {
                            assert(node_ok(s1, os_len, ci));
                        }
                        if rooted(s1, i) {
                            assert(rooted(s1, ci));
                        }
                    }
                    return (shype, slot, true);
                },
            }
        }
        // Otherwise, construct and link a fresh AddProperty child.
        let slot = obj.num_slots(h);
        proof {
            assert(obj_ok(s1, h.obs()[obj.idx as int]));
        }
        let node = Shype::new_add_prop(name, slot);
        let child = h.alloc_shype(node);
        proof {
            assert forall|j: int|
                0 <= j < h.obs().len() implies (#[trigger] h.obs()[j]).s_shype().idx
                != child.idx by {
                assert(obj_ok(s1, old(h).obs()[j]));
            }
        }
        self.add_child(h, child);
        proof {
            let s2 = h.ss();
            let ci = child.idx as int;
            assert(links_preserved(s1, s2, s1.len() as int));
            lemma_wf_links_dec(s1, os_len);
            lemma_paths_stable_all(s1, s2, s1.len() as int);
            assert(child.idx == s1.len());
            assert(s2[ci].s_variant() == ShypeVariant::AddProperty(*name, PropDescr::Slot(slot)));
            assert(s2[ci].s_parent() == Some(self.s_shype()));
            assert(self.s_shype().idx < child.idx);
            assert(own_props(s2, i) == own_props(s1, i));
            assert(own_props(s2, ci) == seq![(*name, slot)] + own_props(s1, i));
            assert(lookup_own(s2, ci, nid) == Some((ci, slot)));
            assert(nearest_setproto(s2, ci) == nearest_setproto(s2, i));
            assert(nearest_setproto(s2, i) == nearest_setproto(s1, i));
            assert forall|n2: u64| n2 != nid implies lookup_own(s2, ci, n2) == lookup_own(
                s1,
                i,
                n2,
            ) by {
                assert(lookup_own(s2, i, n2) == lookup_own(s1, i, n2));
            }
            assert(own_name_ids(s2, ci) =~= seq![nid] + own_name_ids(s1, i));
            if rooted(s1, i) {
                assert(rooted(s2, i));
                assert(rooted(s2, ci));
            }
            let post = add_prop_post(s1, i, *name, slot);
            assert(add_prop_decision(s1, i, nid, slot) == (ci, slot, true));
            assert(post.len() == s2.len());
            assert forall|j: int| 0 <= j < s2.len() implies s2[j] == post[j] by {
                if j == i {
                    assert(s2[j] =~= post[j]);
                } else if j == ci {
                    assert(s2[j] =~= post[j]);
                } else {
                    assert(s2[j] == s1[j]);
                    assert(post[j] == s1[j]);
                }
            }
            assert(s2 =~= post);
        }
        (child, slot, true)
    }
}

/// The value an object's own lineage stores for a name: the slot content of
/// the defining `AddProperty` ancestor.
pub open spec fn own_value(ss: Seq<Shype>, ob: Object, nid: u64) -> Option<Value> {
    match lookup_own(ss, ob.s_shype().idx as int, nid) {
        Some((_, k)) => if k < ob.s_slots().len() {
            Some(ob.s_slots()[k as int])
        } else {
            None
        },
        None => None,
    }
}

/// What a proto-chain lookup observes within `fuel` prototype steps.
pub enum PropLookup {
    /// The name resolved to this value.
    Found(Value),
    /// The chain ended without the name.
    Absent,
    /// The fuel ran out while a prototype remained.
    More,
}

/// Proto-chain property lookup: the object's own value if it has one, else
/// the lookup on its prototype, within `fuel` prototype steps.
pub open spec fn chain_lookup(ss: Seq<Shype>, os: Seq<Object>, o: int, nid: u64, fuel: nat) -> PropLookup
    decreases fuel,
{
    if 0 <= o < os.len() {
        match own_value(ss, os[o], nid) {
            Some(v) => PropLookup::Found(v),
            None => match proto_of(ss, os[o].s_shype().idx as int) {
                Some(p) => if fuel == 0 {
                    PropLookup::More
                } else {
                    chain_lookup(ss, os, p.idx as int, nid, (fuel - 1) as nat)
                },
                None => PropLookup::Absent,
            },
        }
    } else {
        PropLookup::Absent
    }
}

/// A lineage with no properties defines no name.
pub proof fn lemma_lookup_empty(ss: Seq<Shype>, i: int, nid: u64)
    requires
        num_props(ss, i) == 0,
    ensures
        lookup_own(ss, i, nid) is None,
    decreases i,
{
    if 0 <= i < ss.len() {
        match ss[i].s_parent() {
            Some(p) => {
                if p.idx < i {
                    match ss[i].s_variant() {
                        ShypeVariant::AddProperty(_, PropDescr::Slot(_)) => {
                            assert(num_props(ss, i) > 0);
                        },
                        _ => {
                            lemma_lookup_empty(ss, p.idx as int, nid);
                        },
                    }
                }
            },
            None => {},
        }
    }
}

/// In a well-formed arena, an assigned prototype is a real object.
pub proof fn lemma_proto_in_bounds(ss: Seq<Shype>, os_len: int, i: int)
    requires
        shypes_wf(ss, os_len),
    ensures
        match proto_of(ss, i) {
            Some(p) => p.idx < os_len,
            None => true,
        },
{
    lemma_nearest_setproto_facts(ss, i);
    match nearest_setproto(ss, i) {
        Some((a, o)) => {
            assert(node_ok(ss, os_len, a));
        },
        None => {},
    }
}

/// Two different names a rooted lineage defines sit in two different slots.
pub proof fn lemma_lookup_distinct_slots(ss: Seq<Shype>, os_len: int, i: int, n1: u64, n2: u64)
    requires
        shypes_wf(ss, os_len),
        rooted(ss, i),
        n1 != n2,
    ensures
        match (lookup_own(ss, i, n1), lookup_own(ss, i, n2)) {
            (Some((a1, k1)), Some((a2, k2))) => k1 != k2,
            _ => true,
        },
    decreases i,
{
    assert(node_ok(ss, os_len, i));
    match ss[i].s_parent() {
        Some(p) => {
            lemma_lookup_distinct_slots(ss, os_len, p.idx as int, n1, n2);
            lemma_lookup_slot_bound(ss, os_len, p.idx as int, n1);
            lemma_lookup_slot_bound(ss, os_len, p.idx as int, n2);
        },
        None => {},
    }
}

/// A lazy walk along an object's proto chain.
pub struct ObjectProtoIter {
    mb_object: Option<ObjectRef>,
}

impl ObjectProtoIter {
    /// The object the walk stands on.
    pub closed spec fn current(&self) -> Option<ObjectRef> {
        self.mb_object
    }

    /// Yields the current object and steps to its prototype.
    pub fn next(&mut self, h: &Heap) -> (r: Option<ObjectRef>)
        requires
            h.inv(),
            match old(self).current() {
                Some(o) => o.idx < h.obs().len(),
                None => true,
            },
        ensures
            r == old(self).current(),
            final(self).current() == (match r {
                Some(o) => proto_of(h.ss(), h.obs()[o.idx as int].s_shype().idx as int),
                None => None::<ObjectRef>,
            }),
            match final(self).current() {
                Some(o) => o.idx < h.obs().len(),
                None => true,
            },
    {
        let ret = self.mb_object;
        if let Some(obj) = ret {
            proof {
                assert(obj_ok(h.ss(), h.obs()[obj.idx as int]));
                lemma_proto_in_bounds(
                    h.ss(),
                    h.obs().len() as int,
                    h.obs()[obj.idx as int].s_shype().idx as int,
                );
            }
            self.mb_object = SpecificObjectView::new(obj).get_prototype(h);
        }
        ret
    }
}

/// A stateless view of one object, for property and prototype operations
/// against a heap.
pub struct SpecificObjectView {
    object: ObjectRef,
}

impl SpecificObjectView {
    /// The object the view stands on.
    pub closed spec fn s_object(&self) -> ObjectRef {
        self.object
    }

    /// A view of the given object.
    pub fn new(object: ObjectRef) -> (r: SpecificObjectView)
        ensures
            r.s_object() == object,
    {
        SpecificObjectView { object }
    }

    /// A shape view of the object's current shape.
    pub fn specific_shype_view(&self, h: &Heap) -> (r: SpecificShypeView)
        requires
            self.s_object().idx < h.obs().len(),
        ensures
            r.s_shype() == h.obs()[self.s_object().idx as int].s_shype(),
    {
        SpecificShypeView::new(self.object.shype(h))
    }

    /// A walk along this object's proto chain, starting at the object
    /// itself.
    pub fn proto_chain_iter(&self) -> (r: ObjectProtoIter)
        ensures
            r.current() == Some(self.s_object()),
    {
        ObjectProtoIter { mb_object: Some(self.object) }
    }

    /// The object's prototype, if its lineage assigns one.
    pub fn get_prototype(&self, h: &Heap) -> (r: Option<ObjectRef>)
        requires
            h.inv(),
            self.s_object().idx < h.obs().len(),
        ensures
            r == proto_of(h.ss(), h.obs()[self.s_object().idx as int].s_shype().idx as int),
            match r {
                Some(p) => p.idx < h.obs().len(),
                None => true,
            },
    {
        proof {
            assert(obj_ok(h.ss(), h.obs()[self.s_object().idx as int]));
            lemma_proto_in_bounds(
                h.ss(),
                h.obs().len() as int,
                h.obs()[self.s_object().idx as int].s_shype().idx as int,
            );
        }
        self.specific_shype_view(h).get_prototype(h)
    }

    /// Whether the object's own lineage defines the property.
    pub fn has_own_property(&self, h: &Heap, name: &InternedString) -> (r: bool)
        requires
            h.inv(),
            self.s_object().idx < h.obs().len(),
        ensures
            r == (lookup_own(
                h.ss(),
                h.obs()[self.s_object().idx as int].s_shype().idx as int,
                name.iid(),
            ) is Some),
    {
        proof {
            assert(obj_ok(h.ss(), h.obs()[self.s_object().idx as int]));
        }
        self.specific_shype_view(h).has_own_property(h, name)
    }

    /// The names the object's own lineage defines, most recently added
    /// first.
    pub fn own_property_names(&self, h: &Heap) -> (r: Vec<Value>)
        requires
            h.inv(),
            self.s_object().idx < h.obs().len(),
        ensures
            r@ == own_names_vals(
                h.ss(),
                h.obs()[self.s_object().idx as int].s_shype().idx as int,
            ),
    {
        proof {
            assert(obj_ok(h.ss(), h.obs()[self.s_object().idx as int]));
        }
        self.specific_shype_view(h).own_property_names(h)
    }

    /// Resolves a property along the proto chain: the object's own value if
    /// it has one, else the first prototype's, and an absent name resolves
    /// to the false value, never to an error.
    #[verifier::loop_isolation(false)]
    pub fn get_property(&self, h: &Heap, name: &InternedString) -> (r: Value)
        requires
            h.inv(),
            self.s_object().idx < h.obs().len(),
            exists|fuel: nat|
                #[trigger] chain_lookup(h.ss(), h.obs(), self.s_object().idx as int, name.iid(), fuel)
                    != PropLookup::More,
        ensures
            exists|fuel: nat|
                {
                    let lk = #[trigger] chain_lookup(
                        h.ss(),
                        h.obs(),
                        self.s_object().idx as int,
                        name.iid(),
                        fuel,
                    );
                    lk == PropLookup::Found(r) || (lk == PropLookup::Absent && r == Value::Bool(
                        false,
                    ))
                },
    {
        let ghost start = self.s_object().idx as int;
        let ghost nid = name.iid();
        let ghost os_len = h.obs().len() as int;
        let mut cur: ObjectRef = self.object;
        let ghost mut steps: nat = 0nat;
        let ghost mut rem: nat = choose|fuel: nat|
            #[trigger] chain_lookup(h.ss(), h.obs(), start, nid, fuel) != PropLookup::More;
        loop
            invariant
                cur.idx < h.obs().len(),
                chain_lookup(h.ss(), h.obs(), cur.idx as int, nid, rem) != PropLookup::More,
                forall|f: nat|
                    chain_lookup(h.ss(), h.obs(), start, nid, steps + f) == chain_lookup(
                        h.ss(),
                        h.obs(),
                        cur.idx as int,
                        nid,
                        f,
                    ),
            decreases rem,
        {
            proof {
                assert(obj_ok(h.ss(), h.obs()[cur.idx as int]));
            }
            let shype_view = SpecificShypeView::new(cur.shype(h));
            if let Some((_, slot)) = shype_view.get_own_property(h, name) {
                proof {
                    lemma_lookup_slot_bound(
                        h.ss(),
                        os_len,
                        h.obs()[cur.idx as int].s_shype().idx as int,
                        nid,
                    );
                    assert(own_value(h.ss(), h.obs()[cur.idx as int], nid) == Some(
                        h.obs()[cur.idx as int].s_slots()[slot as int],
                    ));
                    assert(chain_lookup(h.ss(), h.obs(), start, nid, steps + 0) == chain_lookup(
                        h.ss(),
                        h.obs(),
                        cur.idx as int,
                        nid,
                        0,
                    ));
                }
                return cur.get_slot(h, slot);
            }
            proof {
                assert(own_value(h.ss(), h.obs()[cur.idx as int], nid) is None);
                lemma_proto_in_bounds(h.ss(), os_len, h.obs()[cur.idx as int].s_shype().idx as int);
            }
            match shype_view.get_prototype(h) {
                Some(p) => {
                    proof {
                        assert(rem > 0) by {
                            assert(chain_lookup(h.ss(), h.obs(), cur.idx as int, nid, 0)
                                == PropLookup::More);
                        }
                        assert forall|f: nat|
                            chain_lookup(h.ss(), h.obs(), start, nid, (steps + 1) + f)
                                == chain_lookup(h.ss(), h.obs(), p.idx as int, nid, f) by {
                            assert(chain_lookup(h.ss(), h.obs(), start, nid, steps + (1 + f))
                                == chain_lookup(h.ss(), h.obs(), cur.idx as int, nid, 1 + f));
                            assert(chain_lookup(h.ss(), h.obs(), cur.idx as int, nid, 1 + f)
                                == chain_lookup(h.ss(), h.obs(), p.idx as int, nid, f));
                        }
                        assert(chain_lookup(h.ss(), h.obs(), p.idx as int, nid, (rem - 1) as nat)
                            == chain_lookup(h.ss(), h.obs(), cur.idx as int, nid, rem));
                        steps = steps + 1;
                        rem = (rem - 1) as nat;
                    }
                    cur = p;
                },
                None => {
                    proof {
                        assert(chain_lookup(h.ss(), h.obs(), start, nid, steps + 0) == chain_lookup(
                            h.ss(),
                            h.obs(),
                            cur.idx as int,
                            nid,
                            0,
                        ));
                        assert(chain_lookup(h.ss(), h.obs(), start, nid, steps)
                            == PropLookup::Absent);
                    }
                    return Value::Bool(false);
                },
            }
        }
    }
}

impl SpecificObjectView {
    /// Writes a property: an existing slot is overwritten in place (the
    /// shape identity never changes); a new property grows the slot array by
    /// exactly one and moves the object to the resolved `AddProperty` shape,
    /// as one atomic step. Returns the shape node describing the property.
    pub fn set_property(&self, h: &mut Heap, name: &InternedString, value: Value) -> (r: ShypeRef)
        requires
            old(h).inv(),
            self.s_object().idx < old(h).obs().len(),
            lookup_own(
                old(h).ss(),
                old(h).obs()[self.s_object().idx as int].s_shype().idx as int,
                name.iid(),
            ) is Some || old(h).obs()[self.s_object().idx as int].s_slots().len() < u32::MAX,
        ensures
            final(h).inv(),
            final(h).obs().len() == old(h).obs().len(),
            forall|j: int|
                0 <= j < old(h).obs().len() && j != self.s_object().idx ==> final(h).obs()[j] == old(h).obs()[j],
            old(h).ss().len() <= final(h).ss().len(),
            links_preserved(old(h).ss(), final(h).ss(), old(h).ss().len() as int),
            own_value(final(h).ss(), final(h).obs()[self.s_object().idx as int], name.iid())
                == Some(value),
            forall|n2: u64|
                n2 != name.iid() ==> own_value(
                    final(h).ss(),
                    final(h).obs()[self.s_object().idx as int],
                    n2,
                ) == own_value(old(h).ss(), old(h).obs()[self.s_object().idx as int], n2),
            proto_of(final(h).ss(), final(h).obs()[self.s_object().idx as int].s_shype().idx as int)
                == proto_of(
                old(h).ss(),
                old(h).obs()[self.s_object().idx as int].s_shype().idx as int,
            ),
            final(h).ss() == add_prop_post(
                old(h).ss(),
                old(h).obs()[self.s_object().idx as int].s_shype().idx as int,
                *name,
                old(h).obs()[self.s_object().idx as int].s_slots().len() as u32,
            ),
            (lookup_own(
                old(h).ss(),
                old(h).obs()[self.s_object().idx as int].s_shype().idx as int,
                name.iid(),
            ) matches Some((a, k)) ==> final(h).ss() == old(h).ss() && final(h).obs()[self.s_object().idx as int].s_shype() == old(h).obs()[self.s_object().idx as int].s_shype() && final(h).obs()[self.s_object().idx as int].s_slots() == old(h).obs()[self.s_object().idx as int].s_slots().update(k as int, value) && r.idx as int
                == a),
            ({
                let o = self.s_object().idx as int;
                let si = old(h).obs()[o].s_shype().idx as int;
                let (d, k, add) = add_prop_decision(
                    old(h).ss(),
                    si,
                    name.iid(),
                    old(h).obs()[o].s_slots().len() as u32,
                );
                r.idx as int == d && final(h).obs()[o].s_shype().idx as int == (if add {
                    d
                } else {
                    si
                }) && (add ==> final(h).obs()[o].s_slots() == old(h).obs()[o].s_slots().push(value)
                    && own_name_ids(final(h).ss(), d) == seq![name.iid()] + own_name_ids(
                    old(h).ss(),
                    si,
                ))
            }),
    {
        let ghost o = self.s_object().idx as int;
        let ghost s1 = h.ss();
        let ghost obs1 = h.obs();
        let ghost si = obs1[o].s_shype().idx as int;
        let ghost nid = name.iid();
        let ghost os_len = obs1.len() as int;
        proof {
            assert(obj_ok(s1, obs1[o]));
        }
        let shype_view = self.specific_shype_view(h);
        let (shype, slot, add) = shype_view.set_property(h, self.object, name);
        if add {
            let ghost s2 = h.ss();
            proof {
                lemma_wf_links_dec(s1, os_len);
                lemma_paths_stable_all(s1, s2, s1.len() as int);
                lemma_lookup_slot_bound(s1, os_len, si, nid);
            }
            let added_slot = self.object.add_slot(h, value);
            h.objects[self.object.idx].shype = shype;
            proof {
                assert(h.ss() == s2);
                assert(h.obs()[o].s_shype() == shype);
                assert(h.obs()[o].s_slots() == obs1[o].s_slots().push(value));
                assert forall|j: int|
                    0 <= j < h.obs().len() implies obj_ok(h.ss(), #[trigger] h.obs()[j]) by {
                    if j != o {
                        assert(h.obs()[j] == obs1[j]);
                        assert(obj_ok(s2, obs1[j]));
                    } else {
                        assert(rooted(s1, si));
                        assert(rooted(s2, shype.idx as int));
                        assert(num_props(s2, shype.idx as int) == num_props(s1, si) + 1);
                    }
                }
                assert(own_value(s2, h.obs()[o], nid) == Some(value)) by {
                    assert(lookup_own(s2, shype.idx as int, nid) == Some(
                        (shype.idx as int, slot),
                    ));
                    assert(h.obs()[o].s_slots()[slot as int] == value);
                }
                assert forall|n2: u64| n2 != nid implies own_value(s2, h.obs()[o], n2) == own_value(
                    s1,
                    obs1[o],
                    n2,
                ) by {
                    assert(lookup_own(s2, shype.idx as int, n2) == lookup_own(s1, si, n2));
                    match lookup_own(s1, si, n2) {
                        Some((a2, k2)) => {
                            assert((k2 as nat) < num_props(s1, si)) by {
                                lemma_lookup_slot_bound(s1, os_len, si, n2);
                            }
                            assert(h.obs()[o].s_slots()[k2 as int] == obs1[o].s_slots()[k2 as int]);
                        },
                        None => {},
                    }
                }
            }
            shype
        } else {
            proof {
                lemma_lookup_slot_bound(s1, os_len, si, nid);
            }
            self.object.set_slot(h, slot, value);
            proof {
                assert(h.ss() == s1);
                assert(h.obs()[o].s_shype() == obs1[o].s_shype());
                assert(own_value(s1, h.obs()[o], nid) == Some(value));
                assert forall|n2: u64| n2 != nid implies own_value(s1, h.obs()[o], n2) == own_value(
                    s1,
                    obs1[o],
                    n2,
                ) by {
                    match lookup_own(s1, si, n2) {
                        Some((a2, k2)) => {
                            lemma_lookup_distinct_slots(s1, os_len, si, nid, n2);
                            assert(k2 != slot);
                        },
                        None => {},
                    }
                }
            }
            shype
        }
    }

    /// Records on this object's shape tree that the given dependent shape
    /// configuration references the object as a prototype, adopting the
    /// bookkeeping node when it is new. The object's own properties,
    /// prototype and slots are untouched.
    pub fn become_prototype_of(&self, h: &mut Heap, target_shype: ShypeRef) -> (r: ShypeRef)
        requires
            old(h).inv(),
            self.s_object().idx < old(h).obs().len(),
            target_shype.idx < old(h).ss().len(),
        ensures
            final(h).inv(),
            final(h).obs().len() == old(h).obs().len(),
            forall|j: int|
                0 <= j < old(h).obs().len() && j != self.s_object().idx ==> final(h).obs()[j] == old(h).obs()[j],
            final(h).obs()[self.s_object().idx as int].s_slots() == old(h).obs()[self.s_object().idx as int].s_slots(),
            old(h).ss().len() <= final(h).ss().len(),
            links_preserved(old(h).ss(), final(h).ss(), old(h).ss().len() as int),
            own_props(final(h).ss(), final(h).obs()[self.s_object().idx as int].s_shype().idx as int)
                == own_props(
                old(h).ss(),
                old(h).obs()[self.s_object().idx as int].s_shype().idx as int,
            ),
            forall|n2: u64|
                lookup_own(
                    final(h).ss(),
                    final(h).obs()[self.s_object().idx as int].s_shype().idx as int,
                    n2,
                ) == lookup_own(
                    old(h).ss(),
                    old(h).obs()[self.s_object().idx as int].s_shype().idx as int,
                    n2,
                ),
            proto_of(final(h).ss(), final(h).obs()[self.s_object().idx as int].s_shype().idx as int)
                == proto_of(
                old(h).ss(),
                old(h).obs()[self.s_object().idx as int].s_shype().idx as int,
            ),
            r.idx < final(h).ss().len(),
            nearest_becomeproto(final(h).ss(), r.idx as int) == Some((r.idx as int, target_shype)),
            on_root_path(
                final(h).ss(),
                final(h).obs()[self.s_object().idx as int].s_shype().idx as int,
                r.idx as int,
            ),
            // the dependency is visible from the object's new lineage: its
            // nearest bookkeeping node records exactly this target
            (match nearest_becomeproto(
                final(h).ss(),
                final(h).obs()[self.s_object().idx as int].s_shype().idx as int,
            ) {
                Some((_, t)) => t == target_shype,
                None => false,
            }),
            // the old lineage survives within the new one
            forall|j: int|
                on_root_path(
                    old(h).ss(),
                    old(h).obs()[self.s_object().idx as int].s_shype().idx as int,
                    j,
                ) ==> on_root_path(
                    final(h).ss(),
                    final(h).obs()[self.s_object().idx as int].s_shype().idx as int,
                    j,
                ),
            // the arena changes by at most the one bookkeeping node, linked
            // under the object's old shape
            final(h).ss().len() <= old(h).ss().len() + 1,
            final(h).ss().len() == old(h).ss().len() ==> final(h).ss() == old(h).ss(),
            forall|j: int|
                0 <= j < old(h).ss().len() && j != old(h).obs()[self.s_object().idx as int].s_shype().idx
                    ==> final(h).ss()[j] == old(h).ss()[j],
            final(h).ss().len() == old(h).ss().len() + 1 ==> ({
                let si = old(h).obs()[self.s_object().idx as int].s_shype().idx as int;
                let c = old(h).ss().len() as int;
                &&& final(h).ss()[c].s_parent() == Some(old(h).obs()[self.s_object().idx as int].s_shype())
                &&& final(h).ss()[c].s_variant() == ShypeVariant::BecomePrototype(target_shype)
                &&& final(h).ss()[c].s_next_sibling() == old(h).ss()[si].s_first_child()
                &&& final(h).ss()[c].s_first_child() is None
                &&& final(h).ss()[si].s_first_child() == Some(ShypeRef { idx: old(h).ss().len() as usize })
            }),
    {
        let ghost o = self.s_object().idx as int;
        let ghost s1 = h.ss();
        let ghost obs1 = h.obs();
        let ghost si = obs1[o].s_shype().idx as int;
        let ghost os_len = obs1.len() as int;
        proof {
            assert(obj_ok(s1, obs1[o]));
        }
        let shype_view = self.specific_shype_view(h);
        let (shype, set) = shype_view.become_prototype_of(h, target_shype);
        if set {
            h.objects[self.object.idx].shype = shype;
            proof {
                let s2 = h.ss();
                lemma_wf_links_dec(s1, os_len);
                lemma_paths_stable_all(s1, s2, s1.len() as int);
                assert forall|j: int|
                    0 <= j < h.obs().len() implies obj_ok(h.ss(), #[trigger] h.obs()[j]) by {
                    if j != o {
                        assert(h.obs()[j] == obs1[j]);
                        assert(obj_ok(s2, obs1[j]));
                    } else {
                        assert(rooted(s1, si));
                        assert(rooted(s2, shype.idx as int));
                        assert(num_props(s2, shype.idx as int) == num_props(s1, si));
                    }
                }
                assert(on_root_path(s2, shype.idx as int, shype.idx as int));
                assert(s2[shype.idx as int].s_parent() == Some(obs1[o].s_shype()));
                assert forall|j: int| on_root_path(s1, si, j) implies on_root_path(
                    s2,
                    shype.idx as int,
                    j,
                ) by {
                    assert(node_ok(s2, h.obs().len() as int, shype.idx as int));
                    assert(on_root_path(s2, si, j) == on_root_path(s1, si, j));
                }
            }
            shype
        } else {
            shype
        }
    }

    /// Assigns the object's prototype: resolves (or reuses) the
    /// `SetPrototype` shape on the object's lineage, mirrors the dependency
    /// on the prototype's own shape tree, and adopts the new shape when the
    /// assignment is new. Own properties of both objects are untouched.
    pub fn set_prototype(&self, h: &mut Heap, proto: ObjectRef) -> (r: ShypeRef)
        requires
            old(h).inv(),
            self.s_object().idx < old(h).obs().len(),
            proto.idx < old(h).obs().len(),
        ensures
            final(h).inv(),
            final(h).obs().len() == old(h).obs().len(),
            forall|j: int|
                0 <= j < old(h).obs().len() && j != self.s_object().idx && j != proto.idx ==> final(h).obs()[j] == old(h).obs()[j],
            final(h).obs()[self.s_object().idx as int].s_slots() == old(h).obs()[self.s_object().idx as int].s_slots(),
            final(h).obs()[proto.idx as int].s_slots() == old(h).obs()[proto.idx as int].s_slots(),
            old(h).ss().len() <= final(h).ss().len(),
            links_preserved(old(h).ss(), final(h).ss(), old(h).ss().len() as int),
            proto_of(final(h).ss(), final(h).obs()[self.s_object().idx as int].s_shype().idx as int)
                == Some(proto),
            forall|n2: u64|
                own_value(final(h).ss(), final(h).obs()[self.s_object().idx as int], n2)
                    == own_value(old(h).ss(), old(h).obs()[self.s_object().idx as int], n2),
            forall|n2: u64|
                own_value(final(h).ss(), final(h).obs()[proto.idx as int], n2) == own_value(
                    old(h).ss(),
                    old(h).obs()[proto.idx as int],
                    n2,
                ),
            proto.idx != self.s_object().idx ==> proto_of(
                final(h).ss(),
                final(h).obs()[proto.idx as int].s_shype().idx as int,
            ) == proto_of(old(h).ss(), old(h).obs()[proto.idx as int].s_shype().idx as int),
            r.idx < final(h).ss().len(),
            nearest_setproto(final(h).ss(), r.idx as int) == Some((r.idx as int, proto)),
            // which node resolves the assignment, and where the object lands
            r.idx as int == set_proto_decision(
                old(h).ss(),
                old(h).obs()[self.s_object().idx as int].s_shype().idx as int,
                proto,
            ).0,
            set_proto_decision(
                old(h).ss(),
                old(h).obs()[self.s_object().idx as int].s_shype().idx as int,
                proto,
            ).1 ==> final(h).obs()[self.s_object().idx as int].s_shype() == r,
            !set_proto_decision(
                old(h).ss(),
                old(h).obs()[self.s_object().idx as int].s_shype().idx as int,
                proto,
            ).1 && proto.idx != self.s_object().idx ==> final(h).obs()[self.s_object().idx as int].s_shype() == old(h).obs()[self.s_object().idx as int].s_shype(),
            // the resolved node lies on the object's new lineage
            on_root_path(
                final(h).ss(),
                final(h).obs()[self.s_object().idx as int].s_shype().idx as int,
                r.idx as int,
            ),
            // the old lineage survives within the new one
            forall|j: int|
                on_root_path(
                    old(h).ss(),
                    old(h).obs()[self.s_object().idx as int].s_shype().idx as int,
                    j,
                ) ==> on_root_path(
                    final(h).ss(),
                    final(h).obs()[self.s_object().idx as int].s_shype().idx as int,
                    j,
                ),
            // determinism: a later assignment of the same prototype from the
            // same old shape resolves to the very same node
            set_proto_decision(
                final(h).ss(),
                old(h).obs()[self.s_object().idx as int].s_shype().idx as int,
                proto,
            ) == set_proto_decision(
                old(h).ss(),
                old(h).obs()[self.s_object().idx as int].s_shype().idx as int,
                proto,
            ),
            // the dependency bookkeeping is recorded on the prototype's own
            // new lineage, keyed by the shape the object now has
            proto.idx != self.s_object().idx ==> (match nearest_becomeproto(
                final(h).ss(),
                final(h).obs()[proto.idx as int].s_shype().idx as int,
            ) {
                Some((_, t)) => t == (if set_proto_decision(
                    old(h).ss(),
                    old(h).obs()[self.s_object().idx as int].s_shype().idx as int,
                    proto,
                ).1 {
                    ShypeRef {
                        idx: set_proto_decision(
                            old(h).ss(),
                            old(h).obs()[self.s_object().idx as int].s_shype().idx as int,
                            proto,
                        ).0 as usize,
                    }
                } else {
                    old(h).obs()[self.s_object().idx as int].s_shype()
                }),
                None => false,
            }),
    {
        let ghost o = self.s_object().idx as int;
        let ghost s1 = h.ss();
        let ghost obs1 = h.obs();
        let ghost si = obs1[o].s_shype().idx as int;
        let ghost os_len = obs1.len() as int;
        proof {
            assert(obj_ok(s1, obs1[o]));
            assert(obj_ok(s1, obs1[proto.idx as int]));
        }
        // The shape the target object needs to have.
        let shype_view = self.specific_shype_view(h);
        let (setproto_shype, set_target) = shype_view.set_prototype(h, proto);
        let target_shype = if set_target {
            setproto_shype
        } else {
            self.object.shype(h)
        };
        let ghost s2 = h.ss();
        proof {
            lemma_wf_links_dec(s1, os_len);
            lemma_paths_stable_all(s1, s2, s1.len() as int);
        }
        // Mirror the dependency on the prototype's own shape tree.
        let proto_view = SpecificObjectView::new(proto);
        proto_view.become_prototype_of(h, target_shype);
        let ghost s3 = h.ss();
        proof {
            lemma_wf_links_dec(s2, os_len);
            lemma_paths_stable_all(s2, s3, s2.len() as int);
        }
        if set_target {
            h.objects[self.object.idx].shype = setproto_shype;
            proof {
                let spi = setproto_shype.idx as int;
                assert(nearest_setproto(s3, spi) == nearest_setproto(s2, spi));
                assert forall|j: int|
                    0 <= j < h.obs().len() implies obj_ok(h.ss(), #[trigger] h.obs()[j]) by {
                    if j != o {
                        assert(obj_ok(s3, old(h).obs()[j]) || obj_ok(s3, h.obs()[j]));
                    } else {
                        assert(rooted(s1, si));
                        assert(rooted(s2, spi));
                        assert(rooted(s3, spi));
                        assert(num_props(s2, spi) == num_props(s1, si));
                        assert(num_props(s3, spi) == num_props(s2, spi));
                    }
                }
                assert forall|n2: u64| #[trigger] own_value(s3, h.obs()[o], n2) == own_value(
                    s1,
                    obs1[o],
                    n2,
                ) by {
                    assert(lookup_own(s3, spi, n2) == lookup_own(s2, spi, n2));
                    assert(lookup_own(s2, spi, n2) == lookup_own(s1, si, n2));
                    assert(h.obs()[o].s_slots() == obs1[o].s_slots());
                }
                assert(on_root_path(s3, spi, spi));
                assert(s3[spi].s_parent() == s2[spi].s_parent());
                assert(s2[spi].s_parent() == Some(obs1[o].s_shype()));
                assert forall|j: int| on_root_path(s1, si, j) implies on_root_path(
                    s3,
                    spi,
                    j,
                ) by {
                    assert(node_ok(s3, os_len, spi));
                    assert(on_root_path(s2, si, j) == on_root_path(s1, si, j));
                    assert(on_root_path(s3, si, j) == on_root_path(s2, si, j));
                }
            }
        } else {
            proof {
                assert(nearest_setproto(s1, si) == Some((setproto_shype.idx as int, proto)));
                assert forall|n2: u64| #[trigger] own_value(s3, h.obs()[o], n2) == own_value(
                    s1,
                    obs1[o],
                    n2,
                ) by {
                    if proto.idx as int == o {
                        assert(lookup_own(s3, h.obs()[o].s_shype().idx as int, n2) == lookup_own(
                            s2,
                            obs1[o].s_shype().idx as int,
                            n2,
                        ));
                        assert(lookup_own(s2, si, n2) == lookup_own(s1, si, n2));
                    } else {
                        assert(h.obs()[o] == obs1[o]);
                        assert(lookup_own(s3, si, n2) == lookup_own(s2, si, n2));
                        assert(lookup_own(s2, si, n2) == lookup_own(s1, si, n2));
                    }
                }
                assert(proto_of(s3, h.obs()[o].s_shype().idx as int) == Some(proto)) by {
                    if proto.idx as int == o {
                        assert(proto_of(s3, h.obs()[o].s_shype().idx as int) == proto_of(s2, si));
                        assert(proto_of(s2, si) == proto_of(s1, si));
                    } else {
                        assert(proto_of(s3, si) == proto_of(s2, si));
                        assert(proto_of(s2, si) == proto_of(s1, si));
                    }
                }
                assert(nearest_setproto(s3, setproto_shype.idx as int) == nearest_setproto(
                    s2,
                    setproto_shype.idx as int,
                ));
                assert(on_root_path(s1, si, setproto_shype.idx as int));
                if proto.idx as int == o {
                    assert forall|j: int| on_root_path(s1, si, j) implies on_root_path(
                        s3,
                        h.obs()[o].s_shype().idx as int,
                        j,
                    ) by {
                        assert(on_root_path(s2, si, j));
                    }
                } else {
                    assert forall|j: int| on_root_path(s1, si, j) implies on_root_path(
                        s3,
                        h.obs()[o].s_shype().idx as int,
                        j,
                    ) by {
                        assert(on_root_path(s2, si, j) == on_root_path(s1, si, j));
                        assert(on_root_path(s3, si, j) == on_root_path(s2, si, j));
                    }
                }
            }
        }
        // The assignment's decision is unchanged by what this call added, so
        // a later identical assignment resolves to the same node.
        proof {
            let d = set_proto_decision(s1, si, proto).0;
            let changed = set_proto_decision(s1, si, proto).1;
            let s4 = h.ss();
            assert(s4 == s3);
            assert(h.shypes.len() == s3.len());
            assert(nearest_setproto(s2, si) == nearest_setproto(s1, si));
            assert(nearest_setproto(s3, si) == nearest_setproto(s2, si));
            if changed {
                match nearest_setproto(s1, si) {
                    Some((a, op)) => {
                        assert(op != proto);
                    },
                    None => {},
                }
                assert(node_ok(s2, os_len, si));
                let fc2 = s2[si].s_first_child();
                if setproto_shype.idx < s1.len() {
                    assert(s2 == s1);
                    assert(find_setproto_child(s2, fc2, proto) == Some(d));
                } else {
                    assert(fc2 == Some(setproto_shype));
                    assert(s2[setproto_shype.idx as int].s_variant()
                        == ShypeVariant::SetPrototype(proto));
                    assert(find_setproto_child(s2, fc2, proto) == Some(d));
                }
                let pi = obs1[proto.idx as int].s_shype().idx as int;
                if s3.len() == s2.len() {
                    assert(s3 == s2);
                    assert(find_setproto_child(s3, s3[si].s_first_child(), proto) == Some(d));
                } else {
                    match fc2 {
                        Some(f) => {
                            assert(f.idx < s2.len());
                        },
                        None => {},
                    }
                    lemma_chain_search_stable(s2, s3, s2.len() as int, fc2);
                    assert(find_setproto_child(s3, fc2, proto) == find_setproto_child(
                        s2,
                        fc2,
                        proto,
                    ));
                    if pi == si {
                        let bp = ShypeRef { idx: s2.len() as usize };
                        assert(s3[si].s_first_child() == Some(bp));
                        assert(s3[bp.idx as int].s_variant() == ShypeVariant::BecomePrototype(
                            target_shype,
                        ));
                        assert(s3[bp.idx as int].s_next_sibling() == fc2);
                        assert(find_setproto_child(s3, Some(bp), proto) == find_setproto_child(
                            s3,
                            fc2,
                            proto,
                        ));
                    } else {
                        assert(s3[si] == s2[si]);
                    }
                    assert(find_setproto_child(s3, s3[si].s_first_child(), proto) == Some(d));
                }
                assert(set_proto_decision(s3, si, proto) == (d, true));
            }
        }
        setproto_shype
    }
}

impl SpecificShypeView {
    /// Allocates a fresh object at this root shape, assigning the given
    /// prototype if one is supplied. The new object has no own properties.
    pub fn new_object(&self, h: &mut Heap, mb_proto: Option<ObjectRef>) -> (r: ObjectRef)
        requires
            old(h).inv(),
            self.s_shype().idx < old(h).ss().len(),
            old(h).ss()[self.s_shype().idx as int].s_variant() is Root,
            match mb_proto {
                Some(p) => p.idx < old(h).obs().len(),
                None => true,
            },
        ensures
            final(h).inv(),
            r.idx == old(h).obs().len(),
            final(h).obs().len() == old(h).obs().len() + 1,
            forall|j: int|
                0 <= j < old(h).obs().len() && (match mb_proto {
                    Some(p) => j != p.idx,
                    None => true,
                }) ==> final(h).obs()[j] == old(h).obs()[j],
            final(h).obs()[r.idx as int].s_slots().len() == 0,
            forall|n2: u64| own_value(final(h).ss(), final(h).obs()[r.idx as int], n2) is None,
            proto_of(final(h).ss(), final(h).obs()[r.idx as int].s_shype().idx as int) == mb_proto,
            // the fresh object stands at this root shape, or, with a
            // prototype, at the node the assignment deterministically
            // resolves to on top of it
            mb_proto is None ==> final(h).obs()[r.idx as int].s_shype() == self.s_shype(),
            mb_proto matches Some(p) ==> final(h).obs()[r.idx as int].s_shype().idx as int
                == set_proto_decision(old(h).ss(), self.s_shype().idx as int, p).0,
            on_root_path(
                final(h).ss(),
                final(h).obs()[r.idx as int].s_shype().idx as int,
                self.s_shype().idx as int,
            ),
            match mb_proto {
                Some(p) => final(h).obs()[p.idx as int].s_slots() == old(h).obs()[p.idx as int].s_slots() && (forall|n2: u64|
                    own_value(final(h).ss(), final(h).obs()[p.idx as int], n2) == own_value(
                        old(h).ss(),
                        old(h).obs()[p.idx as int],
                        n2,
                    )),
                None => true,
            },
    {
        let ghost s1 = h.ss();
        let ghost i = self.s_shype().idx as int;
        let obj = ObjectRef::allocate(h, self.shype);
        proof {
            assert forall|n2: u64| own_value(h.ss(), h.obs()[obj.idx as int], n2) is None by {
                lemma_lookup_empty(s1, i, n2);
            }
            assert(node_ok(s1, h.obs().len() as int - 1, i));
            assert(nearest_setproto(s1, i) is None);
        }
        if let Some(proto) = mb_proto {
            proof {
                // a root shape assigns no prototype, so the assignment below
                // always adopts
                assert(nearest_setproto(s1, i) is None);
                assert(set_proto_decision(s1, i, proto).1);
                assert(on_root_path(s1, i, i));
            }
            let obj_view = SpecificObjectView::new(obj);
            obj_view.set_prototype(h, proto);
            proof {
                assert forall|n2: u64|
                    own_value(h.ss(), h.obs()[obj.idx as int], n2) is None by {}
            }
        } else {
            proof {
                assert(on_root_path(h.ss(), i, i));
            }
        }
        obj
    }
}

/// The node arena after a property write resolved on shape `i`: unchanged
/// when the write reused a node, else grown by the one fresh `AddProperty`
/// child, linked as `i`'s newest child.
pub closed spec fn add_prop_post(ss: Seq<Shype>, i: int, name: InternedString, nslots: u32) -> Seq<
    Shype,
> {
    let (d, k, add) = add_prop_decision(ss, i, name.iid(), nslots);
    if add && d == ss.len() {
        let child = ShypeRef { idx: ss.len() as usize };
        let node = Shype {
            parent: Some(ShypeRef { idx: i as usize }),
            first_child: None,
            next_sibling: ss[i].first_child,
            variant: ShypeVariant::AddProperty(name, PropDescr::Slot(nslots)),
        };
        ss.update(i, Shype { first_child: Some(child), ..ss[i] }).push(node)
    } else {
        ss
    }
}

/// What a property write does to the arena and to the resolved node: the
/// write preserves every existing lineage, and the resolved node defines the
/// name at the next slot, on top of exactly the old lineage, with the old
/// prototype.
pub proof fn lemma_add_prop_post_props(
    ss: Seq<Shype>,
    os_len: int,
    i: int,
    name: InternedString,
    nslots: u32,
)
    requires
        shypes_wf(ss, os_len),
        0 <= i < ss.len(),
        ss.len() < usize::MAX,
        nslots as nat == num_props(ss, i),
    ensures
        ({
            let (d, k, add) = add_prop_decision(ss, i, name.iid(), nslots);
            let ss2 = add_prop_post(ss, i, name, nslots);
            &&& ss.len() <= ss2.len() <= ss.len() + 1
            &&& links_preserved(ss, ss2, ss.len() as int)
            &&& shypes_wf(ss2, os_len)
            &&& 0 <= d < ss2.len()
            &&& (!add ==> ss2 == ss && lookup_own(ss, i, name.iid()) == Some((d, k)))
            &&& (add ==> k == nslots && lookup_own(ss2, d, name.iid()) == Some((d, k)) && (
            forall|n2: u64|
                n2 != name.iid() ==> lookup_own(ss2, d, n2) == lookup_own(ss, i, n2))
                && own_name_ids(ss2, d) == seq![name.iid()] + own_name_ids(ss, i) && num_props(
                ss2,
                d,
            ) == num_props(ss, i) + 1 && nearest_setproto(ss2, d) == nearest_setproto(ss, i) && (
            rooted(ss, i) ==> rooted(ss2, d)) && ss2[d].s_parent() == Some(
                ShypeRef { idx: i as usize },
            ))
        }),
{
    let (d, k, add) = add_prop_decision(ss, i, name.iid(), nslots);
    let ss2 = add_prop_post(ss, i, name, nslots);
    let nid = name.iid();
    lemma_wf_links_dec(ss, os_len);
    assert(node_ok(ss, os_len, i));
    lemma_lookup_own_facts(ss, i, nid);
    lemma_chain_facts(
        ss,
        os_len,
        ShypeRef { idx: i as usize },
        ss[i].s_first_child(),
        nid,
        ObjectRef { idx: 0 },
        ShypeRef { idx: i as usize },
    );
    if !add {
        assert(ss2 == ss);
    } else if d < ss.len() {
        // branch reuse: the matching AddProperty child already exists
        assert(ss2 == ss);
        match ss[d].s_variant() {
            ShypeVariant::AddProperty(n, dd) => {
                assert(n.iid() == nid && dd == PropDescr::Slot(k));
                assert(node_ok(ss, os_len, d));
                assert(lookup_own(ss, d, nid) == Some((d, k)));
                assert(own_props(ss, d) == seq![(n, k)] + own_props(ss, i));
                assert(own_name_ids(ss, d) =~= seq![nid] + own_name_ids(ss, i));
                assert forall|n2: u64| n2 != nid implies lookup_own(ss, d, n2) == lookup_own(
                    ss,
                    i,
                    n2,
                ) by {
                    assert(node_ok(ss, os_len, d));
                }
                if rooted(ss, i) {
                    assert(rooted(ss, d));
                }
            },
            _ => {
                assert(false);
            },
        }
    } else {
        // a fresh node is linked as i's newest child
        let c = ss.len() as int;
        let child = ShypeRef { idx: ss.len() as usize };
        assert(links_preserved(ss, ss2, ss.len() as int));
        lemma_paths_stable_all(ss, ss2, ss.len() as int);
        assert(ss2[c].s_parent() == Some(ShypeRef { idx: i as usize }));
        assert(ss2[c].s_variant() == ShypeVariant::AddProperty(name, PropDescr::Slot(nslots)));
        assert(ss2[c].s_next_sibling() == ss[i].s_first_child());
        assert(ss2[i].s_first_child() == Some(child));
        assert forall|j: int| 0 <= j < ss2.len() implies #[trigger] node_ok(ss2, os_len, j) by {
            if j < ss.len() {
                assert(node_ok(ss, os_len, j));
                if j != i {
                    assert(ss2[j] == ss[j]);
                }
                match ss[j].s_next_sibling() {
                    Some(s) => {
                        assert(ss2[s.idx as int].s_parent() == ss[s.idx as int].s_parent());
                    },
                    None => {},
                }
                match ss[j].s_first_child() {
                    Some(fc) => {
                        assert(ss2[fc.idx as int].s_parent() == ss[fc.idx as int].s_parent());
                    },
                    None => {},
                }
                match ss[j].s_variant() {
                    ShypeVariant::AddProperty(_, PropDescr::Slot(kk)) => {
                        match ss[j].s_parent() {
                            Some(pp) => {
                                assert(own_props(ss2, pp.idx as int) == own_props(
                                    ss,
                                    pp.idx as int,
                                ));
                            },
                            None => {},
                        }
                    },
                    _ => {},
                }
            } else {
                assert(j == c);
                assert(own_props(ss2, i) == own_props(ss, i));
                match ss[i].s_first_child() {
                    Some(fc) => {
                        assert(ss[fc.idx as int].s_parent() == Some(ShypeRef { idx: i as usize }));
                        assert(fc.idx < ss.len());
                        assert(ss2[fc.idx as int].s_parent() == ss[fc.idx as int].s_parent());
                    },
                    None => {},
                }
            }
        }
        assert(own_props(ss2, i) == own_props(ss, i));
        assert(own_props(ss2, c) == seq![(name, nslots)] + own_props(ss, i));
        assert(own_name_ids(ss2, c) =~= seq![nid] + own_name_ids(ss, i));
        assert(lookup_own(ss2, c, nid) == Some((c, nslots)));
        assert forall|n2: u64| n2 != nid implies lookup_own(ss2, c, n2) == lookup_own(
            ss,
            i,
            n2,
        ) by {
            assert(lookup_own(ss2, i, n2) == lookup_own(ss, i, n2));
        }
        assert(nearest_setproto(ss2, c) == nearest_setproto(ss2, i));
        assert(nearest_setproto(ss2, i) == nearest_setproto(ss, i));
        if rooted(ss, i) {
            assert(rooted(ss2, i));
            assert(rooted(ss2, c));
        }
    }
}

/// Shape convergence: once one object's property write has resolved the
/// `AddProperty` node for a name under shape `i` (creating it if needed), a
/// second write of the same name under the same shape `i` resolves to the
/// very same node and slot, whatever slot count the second writer brings.
pub proof fn lemma_shape_convergence(
    ss: Seq<Shype>,
    os_len: int,
    i: int,
    name: InternedString,
    nslots: u32,
    nslots2: u32,
)
    requires
        shypes_wf(ss, os_len),
        0 <= i < ss.len(),
        ss.len() < usize::MAX,
        nslots as nat == num_props(ss, i),
    ensures
        ({
            let (d, k, add) = add_prop_decision(ss, i, name.iid(), nslots);
            add_prop_decision(add_prop_post(ss, i, name, nslots), i, name.iid(), nslots2) == (
                d,
                k,
                add,
            )
        }),
{
    let nid = name.iid();
    let (d, k, add) = add_prop_decision(ss, i, nid, nslots);
    let ss2 = add_prop_post(ss, i, name, nslots);
    lemma_add_prop_post_props(ss, os_len, i, name, nslots);
    if add && d == ss.len() {
        let c = ss.len() as int;
        lemma_wf_links_dec(ss, os_len);
        lemma_paths_stable_all(ss, ss2, ss.len() as int);
        assert(lookup_own(ss2, i, nid) == lookup_own(ss, i, nid));
        assert(ss2[i].s_first_child() == Some(ShypeRef { idx: ss.len() as usize }));
        assert(find_child_addprop(ss2, ss2[i].s_first_child(), nid) == Some((c, nslots)));
    }
}

/// Order sensitivity: from one shape, adding fresh names `x` then `y` and
/// adding `y` then `x` (in one evolving arena) end on two different shape
/// nodes, whose name lists are `[y, x]` and `[x, y]` on top of the shared
/// base, most recently added first.
pub proof fn lemma_order_sensitivity(
    ss: Seq<Shype>,
    os_len: int,
    i: int,
    x: InternedString,
    y: InternedString,
)
    requires
        shypes_wf(ss, os_len),
        0 <= i < ss.len(),
        ss.len() + 4 < usize::MAX,
        num_props(ss, i) + 2 < u32::MAX,
        x.iid() != y.iid(),
        lookup_own(ss, i, x.iid()) is None,
        lookup_own(ss, i, y.iid()) is None,
    ensures
        ({
            let k0 = num_props(ss, i) as u32;
            let k1 = (num_props(ss, i) + 1) as u32;
            let dx = add_prop_decision(ss, i, x.iid(), k0).0;
            let ss1 = add_prop_post(ss, i, x, k0);
            let dxy = add_prop_decision(ss1, dx, y.iid(), k1).0;
            let ss2 = add_prop_post(ss1, dx, y, k1);
            let dy = add_prop_decision(ss2, i, y.iid(), k0).0;
            let ss3 = add_prop_post(ss2, i, y, k0);
            let dyx = add_prop_decision(ss3, dy, x.iid(), k1).0;
            let ss4 = add_prop_post(ss3, dy, x, k1);
            &&& own_name_ids(ss4, dxy) == seq![y.iid(), x.iid()] + own_name_ids(ss, i)
            &&& own_name_ids(ss4, dyx) == seq![x.iid(), y.iid()] + own_name_ids(ss, i)
            &&& dxy != dyx
        }),
{
    let k0 = num_props(ss, i) as u32;
    let k1 = (num_props(ss, i) + 1) as u32;
    let dx = add_prop_decision(ss, i, x.iid(), k0).0;
    let ss1 = add_prop_post(ss, i, x, k0);
    lemma_add_prop_post_props(ss, os_len, i, x, k0);
    lemma_wf_links_dec(ss, os_len);
    lemma_paths_stable_all(ss, ss1, ss.len() as int);
    assert(lookup_own(ss1, dx, y.iid()) == lookup_own(ss, i, y.iid()));
    let dxy = add_prop_decision(ss1, dx, y.iid(), k1).0;
    let ss2 = add_prop_post(ss1, dx, y, k1);
    lemma_add_prop_post_props(ss1, os_len, dx, y, k1);
    lemma_wf_links_dec(ss1, os_len);
    lemma_paths_stable_all(ss1, ss2, ss1.len() as int);
    assert(own_name_ids(ss2, dxy) == seq![y.iid()] + own_name_ids(ss1, dx));
    assert(own_name_ids(ss2, dxy) =~= seq![y.iid(), x.iid()] + own_name_ids(ss, i));
    assert(lookup_own(ss2, i, y.iid()) == lookup_own(ss1, i, y.iid()));
    assert(lookup_own(ss1, i, y.iid()) == lookup_own(ss, i, y.iid()));
    assert(num_props(ss2, i) == num_props(ss, i));
    let dy = add_prop_decision(ss2, i, y.iid(), k0).0;
    let ss3 = add_prop_post(ss2, i, y, k0);
    lemma_add_prop_post_props(ss2, os_len, i, y, k0);
    lemma_wf_links_dec(ss2, os_len);
    lemma_paths_stable_all(ss2, ss3, ss2.len() as int);
    assert(own_name_ids(ss3, dy) == seq![y.iid()] + own_name_ids(ss2, i));
    assert(lookup_own(ss3, dy, x.iid()) == lookup_own(ss2, i, x.iid()));
    assert(lookup_own(ss2, i, x.iid()) == lookup_own(ss1, i, x.iid()));
    assert(lookup_own(ss1, i, x.iid()) == lookup_own(ss, i, x.iid()));
    assert(num_props(ss3, dy) == num_props(ss, i) + 1);
    let dyx = add_prop_decision(ss3, dy, x.iid(), k1).0;
    let ss4 = add_prop_post(ss3, dy, x, k1);
    lemma_add_prop_post_props(ss3, os_len, dy, x, k1);
    lemma_wf_links_dec(ss3, os_len);
    lemma_paths_stable_all(ss3, ss4, ss3.len() as int);
    assert(own_name_ids(ss4, dyx) == seq![x.iid()] + own_name_ids(ss3, dy));
    assert(own_name_ids(ss2, i) == own_name_ids(ss1, i));
    assert(own_name_ids(ss1, i) == own_name_ids(ss, i));
    assert(own_name_ids(ss4, dyx) =~= seq![x.iid(), y.iid()] + own_name_ids(ss, i));
    assert(own_name_ids(ss4, dxy) == own_name_ids(ss3, dxy));
    assert(own_name_ids(ss3, dxy) == own_name_ids(ss2, dxy));
    assert(own_name_ids(ss4, dxy) == seq![y.iid(), x.iid()] + own_name_ids(ss, i));
    if dxy == dyx {
        assert(own_name_ids(ss4, dxy)[0] == y.iid());
        assert(own_name_ids(ss4, dyx)[0] == x.iid());
        assert(false);
    }
}

/// Prototype fallthrough: a name an object lacks resolves through its
/// prototype, and resolves to the prototype's own value when the prototype
/// has one.
pub proof fn lemma_proto_fallthrough(
    ss: Seq<Shype>,
    os: Seq<Object>,
    a: int,
    nid: u64,
    fuel: nat,
)
    requires
        0 <= a < os.len(),
        own_value(ss, os[a], nid) is None,
        proto_of(ss, os[a].s_shype().idx as int) is Some,
    ensures
        ({
            let b = proto_of(ss, os[a].s_shype().idx as int)->Some_0;
            &&& chain_lookup(ss, os, a, nid, fuel + 1) == chain_lookup(ss, os, b.idx as int, nid, fuel)
            &&& (b.idx < os.len() && own_value(ss, os[b.idx as int], nid) is Some
                ==> chain_lookup(ss, os, a, nid, fuel + 1) == PropLookup::Found(
                own_value(ss, os[b.idx as int], nid)->Some_0,
            ))
        }),
{
}

/// Single-assignment lineage, frame half: growing the arena (property
/// additions, new branches, bookkeeping) never changes what any existing
/// shape node reports — its properties, its prototype, its ancestry. An
/// object still referencing a pre-change shape still reports the old
/// prototype.
pub proof fn lemma_shape_frame(s1: Seq<Shype>, s2: Seq<Shype>, os_len: int, i: int)
    requires
        shypes_wf(s1, os_len),
        links_preserved(s1, s2, s1.len() as int),
        0 <= i < s1.len(),
    ensures
        own_props(s2, i) == own_props(s1, i),
        forall|nid: u64| lookup_own(s2, i, nid) == lookup_own(s1, i, nid),
        proto_of(s2, i) == proto_of(s1, i),
        forall|j: int| on_root_path(s2, i, j) == on_root_path(s1, i, j),
{
    lemma_wf_links_dec(s1, os_len);
    lemma_path_stable(s1, s2, s1.len() as int, i);
}



} // verus!
