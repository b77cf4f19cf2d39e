//! Where every reachable container sits: the keys that lead to it from the root.
//!
//! A map slot extends the path; an item of a sequence, and an XML node's attrs and
//! children, sit at the path of what holds them.

use crate::bytes::byte_strings;
use crate::element::{Element, ElementV};
use crate::elementid::ElementId;
use crate::identity::{create_child_key, root_element, root_id, spec_create_child_key};
use crate::map::{map_live, pairs_by_value};
use crate::op::{OpKind, OpKindV};
use crate::path::{parse_path, read_path};
use crate::registry::{Held, Registry};
use crate::schema::{Schema, SchemaV};
use crate::sequence::list_values;
use crate::tree::{Tree, TreeV};
use crate::treemove::link_of;
use crate::xml::{node_attrs_id, node_children_id, XmlElement, XmlFragment};
use vstd::prelude::*;
use vstd::slice::slice_to_vec;

verus! {

/// The keys from the root to a container.
pub struct KeyPath {
    pub keys: Vec<Vec<u8>>,
}

impl View for KeyPath {
    type V = Seq<Seq<u8>>;

    open spec fn view(&self) -> Seq<Seq<u8>> {
        byte_strings(self.keys@)
    }
}

impl Held for KeyPath {
    open spec fn fit(&self, id: ElementId) -> bool {
        true
    }
}

impl KeyPath {
    pub fn root() -> (p: Self)
        ensures
            p@ == Seq::<Seq<u8>>::empty(),
    {
        let p = KeyPath { keys: Vec::new() };
        proof {
            assert(p@ =~= Seq::<Seq<u8>>::empty());
        }
        p
    }

    /// The path of a slot at `key`.
    pub fn child(&self, key: &[u8]) -> (p: Self)
        ensures
            p@ == self@.push(key@),
    {
        let mut p = self.copy();
        let ghost before = p@;
        p.keys.push(slice_to_vec(key));
        proof {
            assert(p@ =~= before.push(key@));
        }
        p
    }

    pub fn copy(&self) -> (p: Self)
        ensures
            p@ == self@,
    {
        let mut keys: Vec<Vec<u8>> = Vec::new();
        let mut i: usize = 0;
        while i < self.keys.len()
            invariant
                i <= self.keys@.len(),
                keys@.len() == i,
                forall|j: int| 0 <= j < i ==> (#[trigger] keys@[j])@ == self.keys@[j]@,
            decreases self.keys@.len() - i,
        {
            keys.push(slice_to_vec(self.keys[i].as_slice()));
            i += 1;
        }
        let p = KeyPath { keys };
        proof {
            assert(p@ =~= self@);
        }
        p
    }
}

/// The paths a walk of what `e` holds adds, at most `fuel` levels down.
pub open spec fn walk_element(
    t: TreeV,
    e: ElementV,
    path: Seq<Seq<u8>>,
    out: Map<ElementId, Seq<Seq<u8>>>,
    fuel: nat,
) -> Map<ElementId, Seq<Seq<u8>>>
    decreases fuel, 0nat,
{
    if fuel == 0 {
        out
    } else {
        let f = (fuel - 1) as nat;
        match e {
            ElementV::LwwMap(id) => if t.maps.dom().contains(id) {
                walk_slots(t, map_live(t.maps[id]), path, out.insert(id, path), f)
            } else {
                out
            },
            ElementV::List(id) => if t.lists.dom().contains(id) {
                walk_items(t, list_values(t.lists[id]), path, out.insert(id, path), f)
            } else {
                out
            },
            ElementV::Text(id) => if t.texts.dom().contains(id) {
                out.insert(id, path)
            } else {
                out
            },
            ElementV::XmlElement(id) => if t.xml_elements.dom().contains(id) {
                let attrs = walk_element(
                    t,
                    ElementV::LwwMap(node_attrs_id(id)),
                    path,
                    out.insert(id, path),
                    f,
                );
                walk_element(t, ElementV::List(node_children_id(id)), path, attrs, f)
            } else {
                out
            },
            ElementV::XmlFragment(id) => if t.xml_fragments.dom().contains(id) {
                walk_element(
                    t,
                    ElementV::List(node_children_id(id)),
                    path,
                    out.insert(id, path),
                    f,
                )
            } else {
                out
            },
            _ => out,
        }
    }
}

/// The paths a walk of some slots adds.
pub open spec fn walk_slots(
    t: TreeV,
    slots: Seq<(Seq<u8>, ElementV)>,
    path: Seq<Seq<u8>>,
    out: Map<ElementId, Seq<Seq<u8>>>,
    fuel: nat,
) -> Map<ElementId, Seq<Seq<u8>>>
    decreases fuel, slots.len() + 1,
{
    if slots.len() == 0 {
        out
    } else {
        let rest = walk_slots(t, slots.drop_last(), path, out, fuel);
        let (key, e) = slots.last();
        if e.is_container() {
            walk_element(t, e, path.push(key), rest, fuel)
        } else {
            rest
        }
    }
}

/// The paths a walk of some items adds.
pub open spec fn walk_items(
    t: TreeV,
    items: Seq<ElementV>,
    path: Seq<Seq<u8>>,
    out: Map<ElementId, Seq<Seq<u8>>>,
    fuel: nat,
) -> Map<ElementId, Seq<Seq<u8>>>
    decreases fuel, items.len() + 1,
{
    if items.len() == 0 {
        out
    } else {
        let rest = walk_items(t, items.drop_last(), path, out, fuel);
        if items.last().is_container() {
            walk_element(t, items.last(), path, rest, fuel)
        } else {
            rest
        }
    }
}

impl TreeV {
    /// How many containers there are: nothing nests deeper.
    pub open spec fn depth_bound(self) -> nat {
        self.maps.dom().len() + self.lists.dom().len() + self.texts.dom().len()
            + self.xml_elements.dom().len() + self.xml_fragments.dom().len() + 1
    }

    /// Every container the live tree reaches, and the keys that lead to it.
    pub open spec fn paths(self) -> Map<ElementId, Seq<Seq<u8>>> {
        walk_element(
            self,
            ElementV::LwwMap(root_element()),
            Seq::empty(),
            Map::empty(),
            self.depth_bound(),
        )
    }

    /// The anchors of the annotation whose payload holds `target`, within `fuel` links.
    pub open spec fn host_anchors(self, target: ElementId, fuel: nat) -> Option<
        (ElementId, ElementId),
    >
        decreases fuel,
    {
        if fuel == 0 {
            None
        } else {
            match link_of(self.parents, target) {
                None => None,
                Some(p) => if self.ranged.dom().contains(p) {
                    Some((self.ranged[p].start.seq, self.ranged[p].end.seq))
                } else {
                    self.host_anchors(p, (fuel - 1) as nat)
                },
            }
        }
    }
}

/// The zone both anchors fall in, if it is one.
pub open spec fn anchored_in(
    schema: SchemaV,
    paths: Map<ElementId, Seq<Seq<u8>>>,
    start: ElementId,
    end: ElementId,
) -> Option<u32> {
    if paths.dom().contains(start) && paths.dom().contains(end) && schema.zone_id(paths[start])
        == schema.zone_id(paths[end]) {
        schema.zone_id(paths[start])
    } else {
        None
    }
}

/// The zone a grant's path falls in.
pub open spec fn scoped_in(schema: SchemaV, path: Seq<u8>) -> Option<u32> {
    match read_path(path) {
        Some(keys) => schema.zone_id(keys),
        None => None,
    }
}

/// The partition an op on `target` belongs to: that of the region it governs. A create
/// belongs with the container it installs, an annotation with the sequences it anchors,
/// a grant with its path, an edit of an annotation's payload with the annotation.
pub open spec fn zone_of_op(
    t: TreeV,
    schema: Option<SchemaV>,
    target: ElementId,
    kind: OpKindV,
) -> Option<u32> {
    match schema {
        None => None,
        Some(schema) => if schema.zones.len() == 0 {
            None
        } else {
            let paths = t.paths();
            match kind {
                OpKindV::RangedCreate { start, end, .. } => anchored_in(
                    schema,
                    paths,
                    start.seq,
                    end.seq,
                ),
                OpKindV::RangedSetPayload { id, .. } => ranged_zone(t, schema, paths, id),
                OpKindV::RangedDelete { id } => ranged_zone(t, schema, paths, id),
                OpKindV::AclGrant { path, .. } => scoped_in(schema, path),
                OpKindV::AclRevoke { id } => if t.acl.dom().contains(id) {
                    scoped_in(schema, t.acl[id].path)
                } else {
                    None
                },
                _ => if paths.dom().contains(target) {
                    schema.zone_id(
                        match spec_create_child_key(kind) {
                            Some(key) => paths[target].push(key),
                            None => paths[target],
                        },
                    )
                } else {
                    match t.host_anchors(target, t.parents.dom().len() + 1) {
                        Some((start, end)) => anchored_in(schema, paths, start, end),
                        None => None,
                    }
                },
            }
        },
    }
}

/// The zone a stored annotation falls in.
pub open spec fn ranged_zone(
    t: TreeV,
    schema: SchemaV,
    paths: Map<ElementId, Seq<Seq<u8>>>,
    id: ElementId,
) -> Option<u32> {
    if t.ranged.dom().contains(id) {
        anchored_in(schema, paths, t.ranged[id].start.seq, t.ranged[id].end.seq)
    } else {
        None
    }
}

// --- walking ---

impl Tree {
    fn walk_slots(
        &self,
        slots: &Vec<(Vec<u8>, Element)>,
        path: &KeyPath,
        out: &mut Registry<KeyPath>,
        fuel: u128,
    )
        requires
            self.wf(),
            old(out).wf(),
        ensures
            final(out).wf(),
            final(out)@ == walk_slots(self@, pairs_by_value(slots@), path@, old(out)@, fuel as nat),
        decreases fuel, 1nat,
    {
        let ghost s = pairs_by_value(slots@);
        let ghost start = out@;
        let mut i: usize = 0;
        proof {
            assert(s.take(0) =~= Seq::empty());
        }
        while i < slots.len()
            invariant
                self.wf(),
                out.wf(),
                s == pairs_by_value(slots@),
                i <= slots@.len(),
                out@ == walk_slots(self@, s.take(i as int), path@, start, fuel as nat),
            decreases slots@.len() - i,
        {
            proof {
                assert(s.take(i + 1).drop_last() =~= s.take(i as int));
                assert(s.take(i + 1).last() == (slots@[i as int].0@, slots@[i as int].1@));
            }
            let (key, e) = &slots[i];
            if e.is_container() {
                let at = path.child(key.as_slice());
                self.walk_element(e, &at, out, fuel);
            }
            i += 1;
        }
        proof {
            assert(s.take(i as int) =~= s);
        }
    }

    fn walk_items(
        &self,
        items: &Vec<Element>,
        path: &KeyPath,
        out: &mut Registry<KeyPath>,
        fuel: u128,
    )
        requires
            self.wf(),
            old(out).wf(),
        ensures
            final(out).wf(),
            final(out)@ == walk_items(
                self@,
                items@.map_values(|e: Element| e@),
                path@,
                old(out)@,
                fuel as nat,
            ),
        decreases fuel, 1nat,
    {
        let ghost s = items@.map_values(|e: Element| e@);
        let ghost start = out@;
        let mut i: usize = 0;
        proof {
            assert(s.take(0) =~= Seq::empty());
        }
        while i < items.len()
            invariant
                self.wf(),
                out.wf(),
                s == items@.map_values(|e: Element| e@),
                i <= items@.len(),
                out@ == walk_items(self@, s.take(i as int), path@, start, fuel as nat),
            decreases items@.len() - i,
        {
            proof {
                assert(s.take(i + 1).drop_last() =~= s.take(i as int));
                assert(s.take(i + 1).last() == items@[i as int]@);
            }
            if items[i].is_container() {
                self.walk_element(&items[i], path, out, fuel);
            }
            i += 1;
        }
        proof {
            assert(s.take(i as int) =~= s);
        }
    }

    fn walk_element(&self, e: &Element, path: &KeyPath, out: &mut Registry<KeyPath>, fuel: u128)
        requires
            self.wf(),
            old(out).wf(),
        ensures
            final(out).wf(),
            final(out)@ == walk_element(self@, e@, path@, old(out)@, fuel as nat),
        decreases fuel, 0nat,
    {
        if fuel == 0 {
            return;
        }
        match e {
            Element::LwwMap(id) => {
                if let Some(m) = self.maps.get(*id) {
                    out.insert(*id, path.copy());
                    let slots = m.entries();
                    proof {
                        m.lemma_live();
                    }
                    self.walk_slots(&slots, path, out, fuel - 1);
                }
            },
            Element::List(id) => {
                if let Some(l) = self.lists.get(*id) {
                    out.insert(*id, path.copy());
                    let items = l.values();
                    self.walk_items(&items, path, out, fuel - 1);
                }
            },
            Element::Text(id) => {
                if self.texts.contains(*id) {
                    out.insert(*id, path.copy());
                }
            },
            Element::XmlElement(id) => {
                if self.xml_elements.contains(*id) {
                    out.insert(*id, path.copy());
                    let attrs = Element::LwwMap(XmlElement::attrs_id(*id));
                    self.walk_element(&attrs, path, out, fuel - 1);
                    let children = Element::List(XmlElement::children_id(*id));
                    self.walk_element(&children, path, out, fuel - 1);
                }
            },
            Element::XmlFragment(id) => {
                if self.xml_fragments.contains(*id) {
                    out.insert(*id, path.copy());
                    let children = Element::List(XmlFragment::children_id(*id));
                    self.walk_element(&children, path, out, fuel - 1);
                }
            },
            _ => {},
        }
    }

    /// Every container the live tree reaches, and the keys that lead to it.
    pub fn element_paths(&self) -> (out: Registry<KeyPath>)
        requires
            self.wf(),
        ensures
            out.wf(),
            out@ == self@.paths(),
    {
        let mut out: Registry<KeyPath> = Registry::new();
        let fuel: u128 = self.maps.len() as u128 + self.lists.len() as u128 + self.texts.len()
            as u128 + self.xml_elements.len() as u128 + self.xml_fragments.len() as u128 + 1;
        self.walk_element(&Element::LwwMap(root_id()), &KeyPath::root(), &mut out, fuel);
        out
    }

    /// The anchors of the annotation whose payload holds `target`.
    fn payload_host_anchors(&self, target: ElementId) -> (r: Option<(ElementId, ElementId)>)
        requires
            self.wf(),
        ensures
            r == self@.host_anchors(target, self@.parents.dom().len() + 1),
    {
        let mut cur = target;
        let n: usize = self.parents.len();
        let ghost fuel = (n + 1) as nat;
        let mut i: usize = 0;
        loop
            invariant
                self.wf(),
                fuel == n + 1,
                n == self@.parents.dom().len(),
                i <= n,
                self@.host_anchors(target, fuel) == self@.host_anchors(cur, (fuel - i) as nat),
            decreases n - i,
        {
            match self.parents.get(&cur) {
                None => {
                    return None;
                },
                Some(p) => {
                    if let Some(e) = self.ranged.get(*p) {
                        return Some((e.start.seq, e.end.seq));
                    }
                    cur = *p;
                },
            }
            if i == n {
                proof {
                    assert(self@.host_anchors(cur, 0) is None);
                }
                return None;
            }
            i += 1;
        }
    }

    /// The partition a local edit on `target` belongs to.
    pub(crate) fn zone_of_op(&self, schema: &Option<Schema>, target: ElementId, kind: &OpKind) -> (r:
        Option<u32>)
        requires
            self.wf(),
        ensures
            r == zone_of_op(self@, opt_schema(*schema), target, kind@),
    {
        let schema = match schema {
            Some(s) => s,
            None => {
                return None;
            },
        };
        if schema.has_no_zones() {
            return None;
        }
        let paths = self.element_paths();
        match kind {
            OpKind::RangedCreate { start, end, .. } => anchored(schema, &paths, start.seq, end.seq),
            OpKind::RangedSetPayload { id, .. } => match self.ranged.get(*id) {
                Some(e) => anchored(schema, &paths, e.start.seq, e.end.seq),
                None => None,
            },
            OpKind::RangedDelete { id } => match self.ranged.get(*id) {
                Some(e) => anchored(schema, &paths, e.start.seq, e.end.seq),
                None => None,
            },
            OpKind::AclGrant { path, .. } => scoped(schema, path.as_slice()),
            OpKind::AclRevoke { id } => match self.acl.get(*id) {
                Some(e) => scoped(schema, e.path.as_slice()),
                None => None,
            },
            _ => match paths.get(target) {
                Some(base) => match create_child_key(kind) {
                    Some(key) => schema.zone_id_of(&base.child(key.as_slice()).keys),
                    None => schema.zone_id_of(&base.keys),
                },
                None => match self.payload_host_anchors(target) {
                    Some((start, end)) => anchored(schema, &paths, start, end),
                    None => None,
                },
            },
        }
    }
}

/// A bound schema, by value.
pub open spec fn opt_schema(s: Option<Schema>) -> Option<SchemaV> {
    match s {
        Some(s) => Some(s@),
        None => None,
    }
}

fn anchored(schema: &Schema, paths: &Registry<KeyPath>, start: ElementId, end: ElementId) -> (r:
    Option<u32>)
    requires
        paths.wf(),
    ensures
        r == anchored_in(schema@, paths@, start, end),
{
    match (paths.get(start), paths.get(end)) {
        (Some(a), Some(b)) => {
            let x = schema.zone_id_of(&a.keys);
            let y = schema.zone_id_of(&b.keys);
            if same_zone(x, y) {
                x
            } else {
                None
            }
        },
        _ => None,
    }
}

/// Whether two partitions are the same.
pub(crate) fn same_zone(a: Option<u32>, b: Option<u32>) -> (r: bool)
    ensures
        r == (a == b),
{
    match (a, b) {
        (Some(x), Some(y)) => x == y,
        (None, None) => true,
        _ => false,
    }
}

pub(crate) fn scoped(schema: &Schema, path: &[u8]) -> (r: Option<u32>)
    ensures
        r == scoped_in(schema@, path@),
{
    match parse_path(path) {
        Some(keys) => schema.zone_id_of(&keys),
        None => None,
    }
}

} // verus!
