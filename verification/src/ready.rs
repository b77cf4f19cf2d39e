//! When an op can apply: what it names is materialised.
//!
//! Displacement is no reason to wait. A container that lost its slot is retained, so the
//! op lands in it hidden and comes back with it.

use crate::elementid::ElementId;
use crate::identity::{root_element, root_id};
use crate::op::{Op, OpKind, OpKindV, OpV};
use crate::stamp::Stamp;
use crate::text::Text;
use crate::tree::{Tree, TreeV};
use crate::treemove::link_of;
use vstd::prelude::*;

verus! {

impl TreeV {
    /// Whether a container is displaced; nothing if it is not materialised. An annotation
    /// counts as a container that is never displaced.
    pub open spec fn container_state(self, id: ElementId) -> Option<bool> {
        if self.maps.dom().contains(id) {
            Some(self.maps[id].displaced)
        } else if self.lists.dom().contains(id) {
            Some(self.lists[id].displaced)
        } else if self.texts.dom().contains(id) {
            Some(self.texts[id].displaced)
        } else if self.xml_elements.dom().contains(id) {
            Some(self.xml_elements[id].displaced)
        } else if self.xml_fragments.dom().contains(id) {
            Some(self.xml_fragments[id].displaced)
        } else if self.ranged.dom().contains(id) {
            Some(false)
        } else {
            None
        }
    }

    /// What a container hangs off: an annotation hangs off the root.
    pub open spec fn holder(self, id: ElementId) -> Option<ElementId> {
        match link_of(self.parents, id) {
            Some(p) => Some(p),
            None => if self.ranged.dom().contains(id) {
                Some(root_element())
            } else {
                None
            },
        }
    }

    /// Whether at most `fuel` containers, each materialised, and each installed where that
    /// is asked, lead from `id` to the root.
    pub open spec fn leads_to_root(self, id: ElementId, installed: bool, fuel: nat) -> bool
        decreases fuel,
    {
        if fuel == 0 {
            false
        } else if id == root_element() {
            true
        } else {
            match self.container_state(id) {
                None => false,
                Some(displaced) => if installed && displaced {
                    false
                } else {
                    match self.holder(id) {
                        Some(p) => self.leads_to_root(p, installed, (fuel - 1) as nat),
                        None => false,
                    }
                },
            }
        }
    }

    /// Whether a container and all it hangs off are materialised.
    pub open spec fn materialised(self, id: ElementId) -> bool {
        self.leads_to_root(id, false, self.parents.dom().len() + 2)
    }

    /// Whether a container and all it hangs off are materialised and installed.
    pub open spec fn resolvable(self, id: ElementId) -> bool {
        self.leads_to_root(id, true, self.parents.dom().len() + 2)
    }

    /// Whether an op can apply now.
    pub open spec fn ready(self, op: OpV) -> bool {
        match op.kind {
            OpKindV::XmlInsertChild { .. } => self.lists.dom().contains(op.target),
            OpKindV::XmlMove { node, .. } => self.lists.dom().contains(op.target) && (
            self.placements.dom().contains(node) || self.revealed.contains(node)),
            OpKindV::ListDelete { id } => self.lists.dom().contains(op.target)
                && self.lists[op.target].places.dom().contains(id),
            OpKindV::TextDelete { ids } => self.materialised(op.target)
                && self.texts.dom().contains(op.target) && forall|i: int|
                0 <= i < ids.len() ==> self.texts[op.target].places.dom().contains(
                    #[trigger] ids[i],
                ),
            OpKindV::RangedSetPayload { id, .. } => self.materialised(op.target)
                && self.ranged.dom().contains(id),
            OpKindV::RangedDelete { id } => self.materialised(op.target)
                && self.ranged.dom().contains(id),
            OpKindV::AclRevoke { id } => self.materialised(op.target) && self.acl.dom().contains(
                id,
            ),
            _ => self.materialised(op.target),
        }
    }
}

impl Tree {
    /// Whether a container is displaced; nothing if it is not materialised.
    pub(crate) fn displaced_container(&self, id: ElementId) -> (r: Option<bool>)
        requires
            self.wf(),
        ensures
            r == self@.container_state(id),
    {
        if let Some(m) = self.maps.get(id) {
            return Some(m.is_displaced());
        }
        if let Some(l) = self.lists.get(id) {
            return Some(l.is_displaced());
        }
        if let Some(t) = self.texts.get(id) {
            return Some(t.is_displaced());
        }
        if let Some(x) = self.xml_elements.get(id) {
            return Some(x.displaced);
        }
        if let Some(f) = self.xml_fragments.get(id) {
            return Some(f.displaced);
        }
        if self.ranged.contains(id) {
            return Some(false);
        }
        None
    }

    fn leads_to_root(&self, id: ElementId, installed: bool) -> (b: bool)
        requires
            self.wf(),
        ensures
            b == self@.leads_to_root(id, installed, self@.parents.dom().len() + 2),
    {
        // An annotation hangs off the root without a link, so a chain may be one longer
        // than the links.
        let n: u128 = self.parents.len() as u128 + 1;
        let ghost fuel = (n + 1) as nat;
        let mut cur = id;
        let mut i: u128 = 0;
        loop
            invariant
                self.wf(),
                n == self@.parents.dom().len() + 1,
                fuel == n + 1,
                i <= n,
                self@.leads_to_root(id, installed, fuel) == self@.leads_to_root(
                    cur,
                    installed,
                    (fuel - i) as nat,
                ),
            decreases n - i,
        {
            if cur == root_id() {
                return true;
            }
            match self.displaced_container(cur) {
                None => {
                    return false;
                },
                Some(d) => {
                    if installed && d {
                        return false;
                    }
                },
            }
            cur = match self.parents.get(&cur) {
                Some(p) => *p,
                None => {
                    if self.ranged.contains(cur) {
                        root_id()
                    } else {
                        return false;
                    }
                },
            };
            if i == n {
                proof {
                    assert(!self@.leads_to_root(cur, installed, 0));
                }
                return false;
            }
            i += 1;
        }
    }

    pub(crate) fn materialised(&self, id: ElementId) -> (b: bool)
        requires
            self.wf(),
        ensures
            b == self@.materialised(id),
    {
        self.leads_to_root(id, false)
    }

    pub(crate) fn resolvable(&self, id: ElementId) -> (b: bool)
        requires
            self.wf(),
        ensures
            b == self@.resolvable(id),
    {
        self.leads_to_root(id, true)
    }

    /// Whether an op can apply now.
    pub(crate) fn ready(&self, op: &Op) -> (b: bool)
        requires
            self.wf(),
        ensures
            b == self@.ready(op@),
    {
        match &op.kind {
            OpKind::XmlInsertChild { .. } => {
                return self.lists.contains(op.target);
            },
            OpKind::XmlMove { node, .. } => {
                return self.lists.contains(op.target) && (self.placements.contains(*node)
                    || self.revealed.contains_key(node));
            },
            OpKind::ListDelete { id } => {
                return match self.lists.get(op.target) {
                    Some(l) => l.contains(*id),
                    None => false,
                };
            },
            _ => {},
        }
        if !self.materialised(op.target) {
            return false;
        }
        match &op.kind {
            OpKind::TextDelete { ids } => match self.texts.get(op.target) {
                Some(t) => has_all(t, ids),
                None => false,
            },
            OpKind::RangedSetPayload { id, .. } => self.ranged.contains(*id),
            OpKind::RangedDelete { id } => self.ranged.contains(*id),
            OpKind::AclRevoke { id } => self.acl.contains(*id),
            _ => true,
        }
    }
}

/// Whether a text has, or had, every one of these ids.
fn has_all(t: &Text, ids: &Vec<Stamp>) -> (b: bool)
    requires
        t.wf(),
    ensures
        b == forall|i: int| 0 <= i < ids@.len() ==> t@.places.dom().contains(#[trigger] ids@[i]),
{
    let mut i: usize = 0;
    while i < ids.len()
        invariant
            t.wf(),
            i <= ids@.len(),
            forall|j: int| 0 <= j < i ==> t@.places.dom().contains(#[trigger] ids@[j]),
        decreases ids@.len() - i,
    {
        if !t.contains(ids[i]) {
            return false;
        }
        i += 1;
    }
    true
}

} // verus!
