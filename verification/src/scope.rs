//! A replica narrowed to a reader's paths, or to some zones, and the shells that reveal to
//! a reader the nodes that moved into its view.

use crate::annot::{AclEntry, GroupKey, PayloadV, RangedEntry};
use crate::bytes::byte_strings;
use crate::clientid::ClientId;
use crate::doc::{group_key, group_of, untagged, DocV, Document};
use crate::element::{Element, ElementV};
use crate::elementid::ElementId;
use crate::identity::{reveal_client, reveal_op_id, root_element, root_id};
use crate::map::{live_value, LwwMap};
use crate::op::{ops_view, Op, OpId, OpKind, OpKindV, OpV};
use crate::path::{parse_path, read_path};
use crate::project::{
    denied, denied_lists, find_unreadable, is_denied, list_denied, list_is_denied, unreadable, CutV,
    ReadRule,
};
use crate::purge::extend;
use crate::rebuild::{birth_of, birth_placement, ids_of};
use crate::registry::Registry;
use crate::schema::{Schema, SchemaV};
use crate::sequence::list_values;
use crate::stamp::Stamp;
use crate::table::{index_of, lemma_entry, ordered, seq_keys, Key, Table};
use crate::tree::{Tree, TreeV};
use crate::walk::{walk_element, walk_items, walk_slots, KeyPath};
use crate::xml::{node_attrs_id, node_children_id, XmlElement};
use vstd::prelude::*;
use vstd::slice::slice_to_vec;

verus! {

// --- the root stays ---

proof fn lemma_walk_keeps(
    t: TreeV,
    e: ElementV,
    path: Seq<Seq<u8>>,
    out: Map<ElementId, Seq<Seq<u8>>>,
    fuel: nat,
)
    ensures
        out.dom().subset_of(walk_element(t, e, path, out, fuel).dom()),
    decreases fuel, 0nat,
{
    if fuel > 0 {
        let f = (fuel - 1) as nat;
        match e {
            ElementV::LwwMap(id) => {
                lemma_slots_keep(
                    t,
                    crate::map::map_live(t.maps[id]),
                    path,
                    out.insert(id, path),
                    f,
                );
            },
            ElementV::List(id) => {
                lemma_items_keep(t, list_values(t.lists[id]), path, out.insert(id, path), f);
            },
            ElementV::XmlElement(id) => {
                let o = out.insert(id, path);
                let a = walk_element(t, ElementV::LwwMap(node_attrs_id(id)), path, o, f);
                lemma_walk_keeps(t, ElementV::LwwMap(node_attrs_id(id)), path, o, f);
                lemma_walk_keeps(t, ElementV::List(node_children_id(id)), path, a, f);
            },
            ElementV::XmlFragment(id) => {
                lemma_walk_keeps(
                    t,
                    ElementV::List(node_children_id(id)),
                    path,
                    out.insert(id, path),
                    f,
                );
            },
            _ => {},
        }
    }
}

proof fn lemma_slots_keep(
    t: TreeV,
    slots: Seq<(Seq<u8>, ElementV)>,
    path: Seq<Seq<u8>>,
    out: Map<ElementId, Seq<Seq<u8>>>,
    fuel: nat,
)
    ensures
        out.dom().subset_of(walk_slots(t, slots, path, out, fuel).dom()),
    decreases fuel, slots.len() + 1,
{
    if slots.len() > 0 {
        lemma_slots_keep(t, slots.drop_last(), path, out, fuel);
        let rest = walk_slots(t, slots.drop_last(), path, out, fuel);
        lemma_walk_keeps(t, slots.last().1, path.push(slots.last().0), rest, fuel);
    }
}

proof fn lemma_items_keep(
    t: TreeV,
    items: Seq<ElementV>,
    path: Seq<Seq<u8>>,
    out: Map<ElementId, Seq<Seq<u8>>>,
    fuel: nat,
)
    ensures
        out.dom().subset_of(walk_items(t, items, path, out, fuel).dom()),
    decreases fuel, items.len() + 1,
{
    if items.len() > 0 {
        lemma_items_keep(t, items.drop_last(), path, out, fuel);
        let rest = walk_items(t, items.drop_last(), path, out, fuel);
        lemma_walk_keeps(t, items.last(), path, rest, fuel);
    }
}

/// The root is always reached.
pub proof fn lemma_root_reached(t: TreeV)
    requires
        t.maps.dom().contains(root_element()),
    ensures
        t.paths().dom().contains(root_element()),
{
    let n = t.depth_bound();
    let f = (n - 1) as nat;
    let root = root_element();
    let out = Map::<ElementId, Seq<Seq<u8>>>::empty().insert(root, Seq::empty());
    lemma_slots_keep(t, crate::map::map_live(t.maps[root]), Seq::empty(), out, f);
}

/// Nothing the live tree reaches counts as beneath a payload.
proof fn lemma_reached_dead(t: TreeV, live: Set<ElementId>, id: ElementId, n: nat, x: ElementId)
    requires
        live.contains(x),
    ensures
        !t.reached(live, id, n).contains(x),
    decreases n,
{
    if n > 0 {
        lemma_reached_dead(t, live, id, (n - 1) as nat, x);
    }
}

proof fn lemma_payloads_spare_live(t: TreeV, live: Set<ElementId>, ranged: Set<ElementId>, x: ElementId)
    requires
        live.contains(x),
    ensures
        !t.payloads_of(live, ranged).contains(x),
{
    if t.payloads_of(live, ranged).contains(x) {
        let r = choose|r: ElementId| #[trigger]
            ranged.contains(r) && t.ranged.dom().contains(r) && (
            t.ranged[r].payload matches PayloadV::Composite { kind } && t.subtree(
                live,
                crate::identity::spec_payload_id(r, kind),
            ).contains(x));
        let kind = t.ranged[r].payload->Composite_kind;
        lemma_reached_dead(
            t,
            live,
            crate::identity::spec_payload_id(r, kind),
            t.reach_bound(),
            x,
        );
    }
}

// --- by what a reader may read ---

/// A replica's slots, annotations and grants half projected.
pub struct ScopeV {
    pub tree: TreeV,
    pub purge: Set<ElementId>,
    pub cut: bool,
}

impl TreeV {
    /// What a reader may not read decided, and its slots cut.
    #[verifier::opaque]
    pub open spec fn read_cut<R: ReadRule>(self, rule: &R) -> CutV {
        let paths = self.paths();
        (CutV {
            tree: self,
            purge: self.spared(
                rule,
                paths,
                unreadable(rule, paths),
                ordered::<ElementId>(self.placements.dom()),
            ),
            leaf: false,
        }).cut_maps(rule, paths, ordered::<ElementId>(self.maps.dom()))
    }

    /// What a reader may not read taken out: containers, annotations, grants, placements
    /// and moves.
    #[verifier::opaque]
    pub open spec fn read_scope<R: ReadRule>(self, rule: &R) -> ScopeV {
        let paths = self.paths();
        let c = self.read_cut(rule);
        let hidden = c.tree.hidden_ranged(rule, paths, c.purge);
        let purge = c.purge.union(c.tree.payloads_of(paths.dom(), hidden));
        let t1 = c.tree.purged(purge).emptied(rule, paths);
        let acl = t1.hidden_acl(rule, purge);
        let t2 = TreeV {
            acl: t1.acl.remove_keys(acl),
            ranged: t1.ranged.remove_keys(hidden),
            ..t1
        };
        let t3 = t2.replaced(purge, denied_lists(rule, paths));
        ScopeV {
            tree: t3.unmoved(t3.dead_moves(purge, denied_lists(rule, paths))),
            purge,
            cut: c.leaf || acl != Set::<ElementId>::empty() || hidden != Set::<ElementId>::empty(),
        }
    }
}

impl DocV {
    /// This replica narrowed to what a reader may read. Where anything was withheld, the
    /// ops that wait and the settled groups go, and of the ids and the record of stamps
    /// only the recipient's own stay.
    pub open spec fn projected_reads<R: ReadRule>(
        self,
        rule: &R,
        recipient: Option<ClientId>,
    ) -> DocV {
        let s = self.tree.read_scope(rule);
        if s.purge != Set::<ElementId>::empty() || s.cut || !rule.reads_at(Seq::empty()) {
            (DocV {
                tree: s.tree.refolded(),
                buffer: Seq::empty(),
                resolved: Set::empty(),
                seen: self.published(recipient),
                ..self
            }).water_scrubbed(recipient)
        } else {
            DocV { tree: s.tree, ..self }
        }
    }
}

impl Tree {
    fn cut_for<R: ReadRule>(&mut self, rule: &R, paths: &Registry<KeyPath>) -> (r: (
        Table<ElementId, ()>,
        bool,
    ))
        requires
            old(self).wf(),
            paths.wf(),
            paths@ == old(self)@.paths(),
        ensures
            final(self).wf(),
            r.0.wf(),
            !r.0@.dom().contains(root_element()),
            (CutV { tree: final(self)@, purge: r.0@.dom(), leaf: r.1 }) == old(self)@.read_cut(rule),
    {
        reveal(TreeV::read_cut);
        let mut purge = find_unreadable(rule, paths);
        self.spare(rule, paths, &mut purge);
        let leaf = self.cut_maps(rule, paths, &mut purge);
        (purge, leaf)
    }

    fn scope_to<R: ReadRule>(&mut self, rule: &R) -> (r: (Table<ElementId, ()>, bool))
        requires
            old(self).wf(),
        ensures
            final(self).wf(),
            r.0.wf(),
            (ScopeV { tree: final(self)@, purge: r.0@.dom(), cut: r.1 }) == old(
                self,
            )@.read_scope(rule),
    {
        reveal(TreeV::read_scope);
        let ghost t0 = self@;
        let paths = self.element_paths();
        let (mut purge, leaf) = self.cut_for(rule, &paths);
        let hidden = self.find_hidden_ranged(rule, &paths, &purge);
        let payloads = self.find_payloads(&paths, &hidden);
        proof {
            lemma_root_reached(t0);
            lemma_payloads_spare_live(self@, paths@.dom(), hidden@.dom(), root_element());
        }
        extend(&mut purge, &payloads);
        self.purge(&purge);
        self.empty_lists(rule, &paths);
        let acl = self.find_hidden_acl(rule, &purge);
        let ghost t1 = self@;
        self.acl.drop_all(&acl);
        self.ranged.drop_all(&hidden);
        proof {
            assert(self@ =~= (TreeV {
                acl: t1.acl.remove_keys(acl@.dom()),
                ranged: t1.ranged.remove_keys(hidden@.dom()),
                ..t1
            }));
        }
        let gone = self.find_denied_lists(rule, &paths);
        let ghost all = denied_lists(rule, paths@);
        let ghost t2 = self@;
        self.retain_places(&purge, &gone, Ghost(all));
        proof {
            reveal(TreeV::replaced);
            assert(self@.moves == t2.moves);
        }
        self.retain_moves(&purge, &gone, Ghost(all));
        let cut = leaf || acl.entries.len() > 0 || hidden.entries.len() > 0;
        proof {
            lemma_empty_table(acl);
            lemma_empty_table(hidden);
        }
        (purge, cut)
    }
}

/// A table with no entries has no keys.
proof fn lemma_empty_table(t: Table<ElementId, ()>)
    requires
        t.wf(),
    ensures
        t.entries@.len() == 0 <==> t@.dom() == Set::<ElementId>::empty(),
{
    if t.entries@.len() == 0 {
        assert(t@.dom() =~= Set::<ElementId>::empty());
    } else {
        lemma_entry::<ElementId, ()>(t.entries@, 0);
        assert(t@.dom().contains(t.entries@[0].0));
    }
}

impl Document {
    /// Narrow this replica to the paths a reader may read.
    pub fn project_read_paths<R: ReadRule>(&mut self, rule: &R, recipient: Option<ClientId>)
        requires
            old(self).wf(),
        ensures
            final(self).wf(),
            final(self)@ == old(self)@.projected_reads(rule, recipient),
    {
        let root_path = KeyPath::root();
        let root_reads = rule.reads(&root_path.keys);
        let (purge, cut) = self.tree.scope_to(rule);
        let ghost s = ScopeV { tree: self.tree@, purge: purge@.dom(), cut };
        proof {
            lemma_empty_table(purge);
            assert(self@ =~= (DocV { tree: s.tree, ..old(self)@ }));
        }
        if purge.entries.len() > 0 || cut || !root_reads {
            let published = self.published_by(recipient);
            proof {
                assert(self@.published(recipient) =~= old(self)@.published(recipient));
            }
            self.tree.refold_projected_moves();
            self.buffer = Vec::new();
            self.resolved_tx = Table::new();
            self.seen = published;
            proof {
                assert(self@.resolved =~= Set::empty());
                assert(self@ =~= (DocV {
                    tree: s.tree.refolded(),
                    buffer: Seq::empty(),
                    resolved: Set::empty(),
                    seen: old(self)@.published(recipient),
                    ..old(self)@
                }));
            }
            self.scrub_high_water_to(recipient);
        }
    }
}

// --- by zone ---

/// Whether a path is in a zone that is not authorized.
pub open spec fn withheld(schema: SchemaV, authorized: Seq<u32>, path: Seq<Seq<u8>>) -> bool {
    schema.zone_id(path) matches Some(z) && !authorized.contains(z)
}

/// The containers in zones that are not authorized. The root stays.
pub open spec fn zoned_out(
    schema: SchemaV,
    authorized: Seq<u32>,
    paths: Map<ElementId, Seq<Seq<u8>>>,
) -> Set<ElementId> {
    Set::new(
        |id: ElementId|
            paths.dom().contains(id) && id != root_element() && withheld(
                schema,
                authorized,
                paths[id],
            ),
    )
}

/// Whether an anchor's sequence stays and has a path.
pub open spec fn anchor_stays(
    paths: Map<ElementId, Seq<Seq<u8>>>,
    purge: Set<ElementId>,
    seq: ElementId,
) -> bool {
    !purge.contains(seq) && paths.dom().contains(seq)
}

impl TreeV {
    /// Without one slot of a map if it holds a purged container.
    pub open spec fn detached_key(self, purge: Set<ElementId>, map: ElementId, key: Seq<u8>) -> TreeV {
        if live_value(self.slot(map, key)) matches Some(e) && e.is_container() && purge.contains(
            e.opt_id()->Some_0,
        ) {
            self.without_slot(map, key)
        } else {
            self
        }
    }

    pub open spec fn detached_keys(
        self,
        purge: Set<ElementId>,
        map: ElementId,
        keys: Seq<Seq<u8>>,
    ) -> TreeV
        decreases keys.len(),
    {
        if keys.len() == 0 {
            self
        } else {
            self.detached_keys(purge, map, keys.drop_last()).detached_key(purge, map, keys.last())
        }
    }

    /// Without the slots of maps that stay that hold a purged container.
    pub open spec fn detached(self, purge: Set<ElementId>, maps: Seq<ElementId>) -> TreeV
        decreases maps.len(),
    {
        if maps.len() == 0 {
            self
        } else {
            let t = self.detached(purge, maps.drop_last());
            if purge.contains(maps.last()) {
                t
            } else {
                t.detached_keys(
                    purge,
                    maps.last(),
                    ordered::<Vec<u8>>(t.maps[maps.last()].slots.dom()),
                )
            }
        }
    }

    /// The annotations with an anchor that does not stay.
    pub open spec fn unanchored(
        self,
        paths: Map<ElementId, Seq<Seq<u8>>>,
        purge: Set<ElementId>,
    ) -> Set<ElementId> {
        Set::new(
            |r: ElementId|
                self.ranged.dom().contains(r) && (purge.contains(r) || !anchor_stays(
                    paths,
                    purge,
                    self.ranged[r].start.seq,
                ) || !anchor_stays(paths, purge, self.ranged[r].end.seq)),
        )
    }

    /// The grants on no path, or in a zone that is not authorized.
    pub open spec fn unscoped(
        self,
        schema: SchemaV,
        authorized: Seq<u32>,
        purge: Set<ElementId>,
    ) -> Set<ElementId> {
        Set::new(
            |a: ElementId|
                self.acl.dom().contains(a) && (purge.contains(a) || match read_path(
                    self.acl[a].path,
                ) {
                    Some(keys) => withheld(schema, authorized, keys),
                    None => true,
                }),
        )
    }

    /// What is in zones that are not authorized taken out.
    #[verifier::opaque]
    pub open spec fn zone_scope(self, schema: SchemaV, authorized: Seq<u32>) -> TreeV {
        let paths = self.paths();
        let out = zoned_out(schema, authorized, paths);
        let t0 = self.detached(out, ordered::<ElementId>(self.maps.dom()));
        let hidden = t0.unanchored(paths, out);
        let purge = out.union(t0.payloads_of(paths.dom(), hidden));
        let t1 = t0.purged(purge);
        let t2 = TreeV {
            acl: t1.acl.remove_keys(t1.unscoped(schema, authorized, purge)),
            ranged: t1.ranged.remove_keys(hidden),
            ..t1
        };
        let t3 = t2.replaced(purge, Set::empty());
        t3.unmoved(t3.dead_moves(purge, Set::empty()))
    }
}

/// Whether an op was stamped in a zone that is not authorized.
pub open spec fn op_withheld(authorized: Seq<u32>, op: OpV) -> bool {
    op.zone matches Some(z) && !authorized.contains(z)
}

/// The ops that may be served.
pub open spec fn ops_served(authorized: Seq<u32>, ops: Seq<OpV>) -> Seq<OpV>
    decreases ops.len(),
{
    if ops.len() == 0 {
        Seq::empty()
    } else {
        let rest = ops_served(authorized, ops.drop_last());
        if op_withheld(authorized, ops.last()) {
            rest
        } else {
            rest.push(ops.last())
        }
    }
}

/// The groups that lose a member.
pub open spec fn split_groups(authorized: Seq<u32>, ops: Seq<OpV>) -> Set<GroupKey> {
    Set::new(
        |k: GroupKey|
            exists|i: int|
                0 <= i < ops.len() && op_withheld(authorized, #[trigger] ops[i]) && group_of(ops[i])
                    == Some(k),
    )
}

impl DocV {
    /// This replica narrowed to the root partition and the authorized zones. A group cut
    /// in two can never complete, so its survivors wait on their own.
    pub open spec fn projected_zones(
        self,
        schema: SchemaV,
        authorized: Seq<u32>,
        recipient: Option<ClientId>,
    ) -> DocV {
        if schema.zones.len() == 0 {
            self
        } else {
            let buffer = untagged(
                ops_served(authorized, self.buffer),
                split_groups(authorized, self.buffer),
            );
            (DocV {
                tree: self.tree.zone_scope(schema, authorized),
                zone_clocks: self.zone_clocks.restrict(Set::new(|z: u32| authorized.contains(z))),
                buffer,
                resolved: Set::empty(),
                seen: self.published(recipient).difference(crate::state::held_ids(buffer)),
                ..self
            }).water_scrubbed(recipient)
        }
    }
}

fn has_zone(zones: &[u32], z: u32) -> (b: bool)
    ensures
        b == zones@.contains(z),
{
    let mut i: usize = 0;
    while i < zones.len()
        invariant
            i <= zones@.len(),
            forall|j: int| 0 <= j < i ==> zones@[j] != z,
        decreases zones@.len() - i,
    {
        if zones[i] == z {
            return true;
        }
        i += 1;
    }
    false
}

fn is_withheld(schema: &Schema, authorized: &[u32], path: &Vec<Vec<u8>>) -> (b: bool)
    ensures
        b == withheld(schema@, authorized@, byte_strings(path@)),
{
    match schema.zone_id_of(path) {
        Some(z) => !has_zone(authorized, z),
        None => false,
    }
}

fn op_is_withheld(authorized: &[u32], op: &Op) -> (b: bool)
    ensures
        b == op_withheld(authorized@, op@),
{
    match op.zone {
        Some(z) => !has_zone(authorized, z),
        None => false,
    }
}

impl Tree {
    fn find_zoned_out(&self, schema: &Schema, authorized: &[u32], paths: &Registry<KeyPath>) -> (out:
        Table<ElementId, ()>)
        requires
            paths.wf(),
        ensures
            out.wf(),
            out@.dom() == zoned_out(schema@, authorized@, paths@),
    {
        let mut out: Table<ElementId, ()> = Table::new();
        let ghost e = paths.table.entries@;
        let ghost want = zoned_out(schema@, authorized@, paths@);
        let mut i: usize = 0;
        while i < paths.table.entries.len()
            invariant
                paths.wf(),
                out.wf(),
                e == paths.table.entries@,
                want == zoned_out(schema@, authorized@, paths@),
                i <= e.len(),
                forall|x: ElementId| #[trigger] out@.dom().contains(x) ==> want.contains(x),
                forall|j: int|
                    0 <= j < i && want.contains((#[trigger] e[j]).0) ==> out@.dom().contains(
                        e[j].0,
                    ),
            decreases e.len() - i,
        {
            proof {
                paths.lemma_at(i as int);
            }
            let (id, p) = &paths.table.entries[i];
            if *id != root_id() && is_withheld(schema, authorized, &p.keys) {
                out.insert(*id, ());
            }
            i += 1;
        }
        proof {
            assert forall|x: ElementId| want.contains(x) implies out@.dom().contains(x) by {
                let j = index_of::<ElementId, KeyPath>(e, x);
                assert(e[j].0@ == x);
            }
            assert(out@.dom() =~= want);
        }
        out
    }

    fn detach_map(&mut self, purge: &Table<ElementId, ()>, map: ElementId)
        requires
            old(self).wf(),
            purge.wf(),
            old(self)@.maps.dom().contains(map),
        ensures
            final(self).wf(),
            final(self)@.maps.dom() == old(self)@.maps.dom(),
            final(self)@ == old(self)@.detached_keys(
                purge@.dom(),
                map,
                ordered::<Vec<u8>>(old(self)@.maps[map].slots.dom()),
            ),
    {
        let keys: Vec<Vec<u8>> = match self.maps.get(map) {
            Some(m) => {
                proof {
                    m.lemma_live();
                }
                m.slot_keys()
            },
            None => Vec::new(),
        };
        let ghost ks = byte_strings(keys@);
        let mut i: usize = 0;
        proof {
            assert(ks.take(0) =~= Seq::empty());
        }
        while i < keys.len()
            invariant
                self.wf(),
                purge.wf(),
                ks == byte_strings(keys@),
                i <= keys@.len(),
                old(self)@.maps.dom().contains(map),
                self@.maps.dom() == old(self)@.maps.dom(),
                self@ == old(self)@.detached_keys(purge@.dom(), map, ks.take(i as int)),
            decreases keys@.len() - i,
        {
            proof {
                assert(ks.take(i + 1).drop_last() =~= ks.take(i as int));
                assert(ks.take(i + 1).last() == keys@[i as int]@);
            }
            let ghost t = self@;
            let key = keys[i].as_slice();
            let value = match self.maps.get(map) {
                Some(m) => m.get(key),
                None => None,
            };
            let cut = match &value {
                Some(e) => e.is_container() && purge.contains_key(&e.id()),
                None => false,
            };
            if cut {
                match self.maps.get_mut(map) {
                    Some(m) => {
                        let _ = m.take_slot(key);
                    },
                    None => {},
                }
                proof {
                    assert(self@ =~= t.without_slot(map, key@));
                    assert(self@.maps.dom() =~= t.maps.dom());
                }
            }
            i += 1;
        }
        proof {
            assert(ks.take(i as int) =~= ks);
        }
    }

    fn detach(&mut self, purge: &Table<ElementId, ()>)
        requires
            old(self).wf(),
            purge.wf(),
        ensures
            final(self).wf(),
            final(self)@ == old(self)@.detached(
                purge@.dom(),
                ordered::<ElementId>(old(self)@.maps.dom()),
            ),
    {
        let ids = ids_of(&self.maps.table);
        let mut i: usize = 0;
        proof {
            assert(self@.maps.dom() =~= self.maps.table@.dom());
            assert(ids@.take(0) =~= Seq::empty());
        }
        while i < ids.len()
            invariant
                self.wf(),
                purge.wf(),
                i <= ids@.len(),
                ids@.to_set() == old(self)@.maps.dom(),
                self@.maps.dom() == old(self)@.maps.dom(),
                self@ == old(self)@.detached(purge@.dom(), ids@.take(i as int)),
            decreases ids@.len() - i,
        {
            proof {
                assert(ids@.take(i + 1).drop_last() =~= ids@.take(i as int));
                assert(ids@.to_set().contains(ids@[i as int]));
            }
            if !purge.contains_key(&ids[i]) {
                self.detach_map(purge, ids[i]);
            }
            i += 1;
        }
        proof {
            assert(ids@.take(i as int) =~= ids@);
        }
    }

    fn find_unanchored(&self, paths: &Registry<KeyPath>, purge: &Table<ElementId, ()>) -> (out: Table<
        ElementId,
        (),
    >)
        requires
            self.wf(),
            paths.wf(),
            purge.wf(),
        ensures
            out.wf(),
            out@.dom() == self@.unanchored(paths@, purge@.dom()),
    {
        let mut out: Table<ElementId, ()> = Table::new();
        let ghost e = self.ranged.table.entries@;
        let ghost want = self@.unanchored(paths@, purge@.dom());
        let mut i: usize = 0;
        while i < self.ranged.table.entries.len()
            invariant
                self.wf(),
                paths.wf(),
                purge.wf(),
                out.wf(),
                e == self.ranged.table.entries@,
                want == self@.unanchored(paths@, purge@.dom()),
                i <= e.len(),
                forall|x: ElementId| #[trigger] out@.dom().contains(x) ==> want.contains(x),
                forall|j: int|
                    0 <= j < i && want.contains((#[trigger] e[j]).0) ==> out@.dom().contains(
                        e[j].0,
                    ),
            decreases e.len() - i,
        {
            proof {
                self.ranged.lemma_at(i as int);
            }
            let (id, r) = &self.ranged.table.entries[i];
            let start = !purge.contains_key(&r.start.seq) && paths.contains(r.start.seq);
            let end = !purge.contains_key(&r.end.seq) && paths.contains(r.end.seq);
            if purge.contains_key(id) || !start || !end {
                out.insert(*id, ());
            }
            i += 1;
        }
        proof {
            assert forall|x: ElementId| want.contains(x) implies out@.dom().contains(x) by {
                let j = index_of::<ElementId, RangedEntry>(e, x);
                assert(e[j].0@ == x);
            }
            assert(out@.dom() =~= want);
        }
        out
    }

    fn find_unscoped(&self, schema: &Schema, authorized: &[u32], purge: &Table<ElementId, ()>) -> (out:
        Table<ElementId, ()>)
        requires
            self.wf(),
            purge.wf(),
        ensures
            out.wf(),
            out@.dom() == self@.unscoped(schema@, authorized@, purge@.dom()),
    {
        let mut out: Table<ElementId, ()> = Table::new();
        let ghost e = self.acl.table.entries@;
        let ghost want = self@.unscoped(schema@, authorized@, purge@.dom());
        let mut i: usize = 0;
        while i < self.acl.table.entries.len()
            invariant
                self.wf(),
                purge.wf(),
                out.wf(),
                e == self.acl.table.entries@,
                want == self@.unscoped(schema@, authorized@, purge@.dom()),
                i <= e.len(),
                forall|x: ElementId| #[trigger] out@.dom().contains(x) ==> want.contains(x),
                forall|j: int|
                    0 <= j < i && want.contains((#[trigger] e[j]).0) ==> out@.dom().contains(
                        e[j].0,
                    ),
            decreases e.len() - i,
        {
            proof {
                self.acl.lemma_at(i as int);
            }
            let (id, a) = &self.acl.table.entries[i];
            let hidden = match parse_path(a.path.as_slice()) {
                Some(keys) => is_withheld(schema, authorized, &keys),
                None => true,
            };
            if purge.contains_key(id) || hidden {
                out.insert(*id, ());
            }
            i += 1;
        }
        proof {
            assert forall|x: ElementId| want.contains(x) implies out@.dom().contains(x) by {
                let j = index_of::<ElementId, AclEntry>(e, x);
                assert(e[j].0@ == x);
            }
            assert(out@.dom() =~= want);
        }
        out
    }

    fn scope_to_zones(&mut self, schema: &Schema, authorized: &[u32])
        requires
            old(self).wf(),
        ensures
            final(self).wf(),
            final(self)@ == old(self)@.zone_scope(schema@, authorized@),
    {
        reveal(TreeV::zone_scope);
        let ghost t0 = self@;
        let paths = self.element_paths();
        let mut purge = self.find_zoned_out(schema, authorized, &paths);
        self.detach(&purge);
        let hidden = self.find_unanchored(&paths, &purge);
        let payloads = self.find_payloads(&paths, &hidden);
        proof {
            lemma_root_reached(t0);
            lemma_payloads_spare_live(self@, paths@.dom(), hidden@.dom(), root_element());
        }
        extend(&mut purge, &payloads);
        self.purge(&purge);
        let acl = self.find_unscoped(schema, authorized, &purge);
        let ghost t1 = self@;
        self.acl.drop_all(&acl);
        self.ranged.drop_all(&hidden);
        proof {
            assert(self@ =~= (TreeV {
                acl: t1.acl.remove_keys(acl@.dom()),
                ranged: t1.ranged.remove_keys(hidden@.dom()),
                ..t1
            }));
        }
        let none: Table<ElementId, ()> = Table::new();
        proof {
            assert(none@.dom() =~= Set::empty());
        }
        self.retain_places(&purge, &none, Ghost(Set::empty()));
        self.retain_moves(&purge, &none, Ghost(Set::empty()));
    }
}

impl Document {
    /// Drop the ops that may not be served; the survivors of a group cut in two wait on
    /// their own.
    fn serve_ops(&mut self, authorized: &[u32])
        requires
            old(self).wf(),
        ensures
            final(self).wf(),
            final(self)@ == (DocV {
                buffer: untagged(
                    ops_served(authorized@, old(self)@.buffer),
                    split_groups(authorized@, old(self)@.buffer),
                ),
                ..old(self)@
            }),
    {
        let mut all: Vec<Op> = Vec::new();
        std::mem::swap(&mut all, &mut self.buffer);
        let ghost s = ops_view(all@);
        let mut split: Table<GroupKey, ()> = Table::new();
        let mut kept: Vec<Op> = Vec::new();
        let mut i: usize = 0;
        proof {
            assert(s.take(0) =~= Seq::empty());
            assert(ops_view(kept@) =~= Seq::empty());
        }
        while i < all.len()
            invariant
                s == ops_view(all@),
                split.wf(),
                i <= all@.len(),
                forall|j: int| 0 <= j < all@.len() ==> crate::identity::admissible(
                    (#[trigger] all@[j])@,
                ),
                forall|j: int| 0 <= j < kept@.len() ==> crate::identity::admissible(
                    (#[trigger] kept@[j])@,
                ),
                ops_view(kept@) == ops_served(authorized@, s.take(i as int)),
                forall|k: GroupKey| #[trigger]
                    split@.dom().contains(k) ==> split_groups(authorized@, s).contains(k),
                forall|j: int|
                    #![trigger s[j]]
                    0 <= j < i && op_withheld(authorized@, s[j]) ==> (group_of(s[j]) matches Some(k)
                        ==> split@.dom().contains(k)),
            decreases all@.len() - i,
        {
            proof {
                assert(s.take(i + 1).drop_last() =~= s.take(i as int));
                assert(s.take(i + 1).last() == all@[i as int]@);
                assert(s[i as int] == all@[i as int]@);
                assert(crate::identity::admissible(all@[i as int]@));
            }
            if op_is_withheld(authorized, &all[i]) {
                if let Some(k) = group_key(&all[i]) {
                    split.insert(k, ());
                    proof {
                        assert(split_groups(authorized@, s).contains(k));
                    }
                }
            } else {
                let ghost before = ops_view(kept@);
                let op = all[i].clone();
                let ghost ov = op@;
                kept.push(op);
                proof {
                    assert(ops_view(kept@) =~= before.push(ov));
                }
            }
            i += 1;
        }
        proof {
            assert(s.take(i as int) =~= s);
            assert(split@.dom() =~= split_groups(authorized@, s)) by {
                assert forall|k: GroupKey| split_groups(authorized@, s).contains(k)
                    implies split@.dom().contains(
                    k,
                ) by {
                    let j = choose|j: int|
                        0 <= j < s.len() && op_withheld(authorized@, #[trigger] s[j]) && group_of(
                            s[j],
                        ) == Some(k);
                    assert(group_of(s[j]) == Some(k));
                }
            }
        }
        // The members of groups cut in two are those of settled groups for a moment.
        let mut settled: Table<GroupKey, ()> = split;
        std::mem::swap(&mut settled, &mut self.resolved_tx);
        self.buffer = kept;
        self.untag_resolved();
        self.resolved_tx = settled;
        proof {
            assert(self@ =~= (DocV {
                buffer: untagged(
                    ops_served(authorized@, old(self)@.buffer),
                    split_groups(authorized@, old(self)@.buffer),
                ),
                ..old(self)@
            }));
        }
    }

    /// Drop the clocks of zones that are not authorized.
    fn serve_clocks(&mut self, authorized: &[u32])
        requires
            old(self).wf(),
        ensures
            final(self).wf(),
            final(self)@ == (DocV {
                zone_clocks: old(self)@.zone_clocks.restrict(
                    Set::new(|z: u32| authorized@.contains(z)),
                ),
                ..old(self)@
            }),
    {
        let mut next: Table<u32, u64> = Table::new();
        let ghost e = self.zone_clocks.entries@;
        let ghost want = self@.zone_clocks.restrict(Set::new(|z: u32| authorized@.contains(z)));
        let mut i: usize = 0;
        while i < self.zone_clocks.entries.len()
            invariant
                self.wf(),
                next.wf(),
                e == self.zone_clocks.entries@,
                want == self@.zone_clocks.restrict(Set::new(|z: u32| authorized@.contains(z))),
                i <= e.len(),
                forall|z: u32| #[trigger]
                    next@.dom().contains(z) ==> want.dom().contains(z) && next@[z] == want[z],
                forall|j: int|
                    0 <= j < i && want.dom().contains((#[trigger] e[j]).0@) ==> next@.dom().contains(
                        e[j].0@,
                    ),
            decreases e.len() - i,
        {
            proof {
                lemma_entry::<u32, u64>(e, i as int);
            }
            let (z, n) = self.zone_clocks.entries[i];
            if has_zone(authorized, z) {
                next.insert(z, n);
            }
            i += 1;
        }
        proof {
            assert forall|z: u32| want.dom().contains(z) implies next@.dom().contains(z) by {
                let j = index_of::<u32, u64>(e, z);
                assert(e[j].0@ == z);
            }
            assert(next@ =~= want);
        }
        self.zone_clocks = next;
        proof {
            assert(self@ =~= (DocV { zone_clocks: want, ..old(self)@ }));
        }
    }

    /// Narrow this replica to the root partition and the authorized zones. A schema with
    /// no zones leaves it as it is.
    pub fn project_zones(
        &mut self,
        schema: &Schema,
        authorized: &[u32],
        recipient: Option<ClientId>,
    )
        requires
            old(self).wf(),
        ensures
            final(self).wf(),
            final(self)@ == old(self)@.projected_zones(schema@, authorized@, recipient),
    {
        if schema.has_no_zones() {
            return;
        }
        let published = self.published_by(recipient);
        self.tree.scope_to_zones(schema, authorized);
        proof {
            assert(self@ =~= (DocV { tree: self.tree@, ..old(self)@ }));
        }
        self.serve_clocks(authorized);
        self.serve_ops(authorized);
        let ghost b = self@.buffer;
        self.resolved_tx = Table::new();
        let ghost want = old(self)@.published(recipient).difference(crate::state::held_ids(b));
        let mut seen: Table<OpId, ()> = Table::new();
        let ghost e = published.entries@;
        let mut i: usize = 0;
        while i < published.entries.len()
            invariant
                published.wf(),
                seen.wf(),
                e == published.entries@,
                b == self@.buffer,
                published@.dom() == old(self)@.published(recipient),
                want == old(self)@.published(recipient).difference(crate::state::held_ids(b)),
                i <= e.len(),
                forall|id: OpId| #[trigger] seen@.dom().contains(id) ==> want.contains(id),
                forall|j: int|
                    0 <= j < i && want.contains((#[trigger] e[j]).0) ==> seen@.dom().contains(
                        e[j].0,
                    ),
            decreases e.len() - i,
        {
            proof {
                lemma_entry::<OpId, ()>(e, i as int);
            }
            let id = published.entries[i].0;
            if !self.buffers(id) {
                seen.insert(id, ());
            }
            i += 1;
        }
        proof {
            assert forall|id: OpId| want.contains(id) implies seen@.dom().contains(id) by {
                let j = index_of::<OpId, ()>(e, id);
                assert(e[j].0@ == id);
            }
            assert(seen@.dom() =~= want);
        }
        self.seen = seen;
        proof {
            assert(self@.resolved =~= Set::empty());
            assert(self@ =~= (DocV {
                tree: old(self)@.tree.zone_scope(schema@, authorized@),
                zone_clocks: old(self)@.zone_clocks.restrict(
                    Set::new(|z: u32| authorized@.contains(z)),
                ),
                buffer: b,
                resolved: Set::empty(),
                seen: want,
                ..old(self)@
            }));
        }
        self.scrub_high_water_to(recipient);
    }
}

// --- revealing ---

impl TreeV {
    /// The shell that reveals a node: its identity and its tag, under an author of its own
    /// and at no time.
    pub open spec fn shell(self, node: ElementId) -> OpV {
        let client = reveal_client(node);
        OpV {
            id: OpId { client, seq: 0 },
            stamp: Stamp { lamport: 0, client, offset: 0 },
            target: root_element(),
            kind: OpKindV::XmlReveal {
                node,
                tag: if self.xml_elements.dom().contains(node) {
                    Some(self.xml_elements[node].tag)
                } else {
                    None
                },
            },
            tx: None,
            zone: None,
        }
    }

    /// Whether a reader has to be shown a node: born where it may not read, and now where
    /// it may.
    pub open spec fn to_reveal<R: ReadRule>(self, rule: &R, node: ElementId) -> bool {
        let paths = self.paths();
        self.node_kind(node) is Some && (birth_of(node, self.placements[node]) matches Some(p)
            && list_denied(rule, paths, p.list)) && paths.dom().contains(node) && !denied(
            rule,
            paths[node],
        )
    }

    pub open spec fn shells<R: ReadRule>(self, rule: &R, nodes: Seq<ElementId>) -> Seq<OpV>
        decreases nodes.len(),
    {
        if nodes.len() == 0 {
            Seq::empty()
        } else {
            let rest = self.shells(rule, nodes.drop_last());
            if self.to_reveal(rule, nodes.last()) {
                rest.push(self.shell(nodes.last()))
            } else {
                rest
            }
        }
    }

    /// What is at most `n` levels of element children below `node`.
    pub open spec fn nodes_below(self, node: ElementId, n: nat) -> Set<ElementId>
        decreases n,
    {
        if n == 0 {
            Set::empty().insert(node)
        } else {
            let near = self.nodes_below(node, (n - 1) as nat);
            Set::new(
                |x: ElementId|
                    near.contains(x) || exists|y: ElementId| #[trigger]
                        near.contains(y) && self.is_xml_child(y, x),
            )
        }
    }

    /// Whether `x` is `node` or an element at some depth below it.
    pub open spec fn in_subtree(self, node: ElementId, x: ElementId) -> bool {
        self.xml_elements.dom().contains(x) && exists|n: nat| #[trigger]
            self.nodes_below(node, n).contains(x)
    }

    /// The attributes and children of a node and of every element below it.
    pub open spec fn subtree_containers(self, node: ElementId) -> Set<ElementId> {
        Set::new(
            |c: ElementId|
                exists|x: ElementId| #[trigger]
                    self.in_subtree(node, x) && (c == node_attrs_id(x) || c == node_children_id(x)),
        )
    }

    /// Whether `x` is a live element child of the element `y`.
    pub open spec fn is_xml_child(self, y: ElementId, x: ElementId) -> bool {
        self.xml_elements.dom().contains(y) && self.lists.dom().contains(node_children_id(y))
            && list_values(self.lists[node_children_id(y)]).contains(ElementV::XmlElement(x))
    }
}

impl Document {
    /// The shells that reveal to a reader every node born where it may not read that is
    /// now where it may, in id order.
    pub fn reveal_ops<R: ReadRule>(&self, rule: &R) -> (out: Vec<Op>)
        requires
            self.wf(),
        ensures
            ops_view(out@) == self@.tree.shells(
                rule,
                ordered::<ElementId>(self@.tree.placements.dom()),
            ),
    {
        let t = &self.tree;
        let paths = t.element_paths();
        let ghost e = t.placements.table.entries@;
        let ghost q = seq_keys(e);
        let mut out: Vec<Op> = Vec::new();
        let mut i: usize = 0;
        proof {
            t.placements.lemma_ids();
            assert(q.take(0) =~= Seq::empty());
            assert(ops_view(out@) =~= Seq::empty());
        }
        while i < t.placements.table.entries.len()
            invariant
                t.wf(),
                paths.wf(),
                paths@ == t@.paths(),
                e == t.placements.table.entries@,
                q == seq_keys(e),
                i <= e.len(),
                ops_view(out@) == t@.shells(rule, q.take(i as int)),
            decreases e.len() - i,
        {
            let node = t.placements.table.entries[i].0;
            proof {
                t.placements.lemma_at(i as int);
                assert(q.take(i + 1).drop_last() =~= q.take(i as int));
                assert(q.take(i + 1).last() == node);
            }
            let born_hidden = match birth_placement(node, &t.placements.table.entries[i].1.at) {
                Some(p) => list_is_denied(rule, &paths, p.list),
                None => false,
            };
            let shown = match paths.get(node) {
                Some(p) => !is_denied(rule, p),
                None => false,
            };
            if t.node_kind(node).is_some() && born_hidden && shown {
                let tag = match t.xml_elements.get(node) {
                    Some(x) => Some(slice_to_vec(x.tag.as_slice())),
                    None => None,
                };
                let id = reveal_op_id(node);
                let stamp = Stamp { lamport: 0, client: id.client, offset: 0 };
                let op = Op::new(id, stamp, root_id(), OpKind::XmlReveal { node, tag });
                let ghost ov = op@;
                let ghost before = ops_view(out@);
                out.push(op);
                proof {
                    assert(ops_view(out@) =~= before.push(ov));
                    assert(ov == t@.shell(node));
                }
            }
            i += 1;
        }
        proof {
            assert(q.take(i as int) =~= q);
        }
        out
    }
}

/// A set of elements that holds `node` and every element child of its own holds the whole
/// subtree.
proof fn lemma_closed_holds_subtree(t: TreeV, node: ElementId, s: Set<ElementId>, n: nat, x: ElementId)
    requires
        t.xml_elements.dom().contains(node) ==> s.contains(node),
        forall|y: ElementId, z: ElementId|
            s.contains(y) && #[trigger] t.is_xml_child(y, z) && t.xml_elements.dom().contains(z)
                ==> s.contains(z),
        t.nodes_below(node, n).contains(x),
        t.xml_elements.dom().contains(x),
    ensures
        s.contains(x),
    decreases n,
{
    if n > 0 {
        let near = t.nodes_below(node, (n - 1) as nat);
        if near.contains(x) {
            lemma_closed_holds_subtree(t, node, s, (n - 1) as nat, x);
        } else {
            let y = choose|y: ElementId| #[trigger] near.contains(y) && t.is_xml_child(y, x);
            lemma_closed_holds_subtree(t, node, s, (n - 1) as nat, y);
        }
    }
}

impl Tree {
    /// The element children of an element.
    fn xml_children(&self, y: ElementId) -> (out: Vec<ElementId>)
        requires
            self.wf(),
            self@.xml_elements.dom().contains(y),
        ensures
            forall|x: ElementId| #[trigger] out@.contains(x) <==> self@.is_xml_child(y, x),
    {
        let mut out: Vec<ElementId> = Vec::new();
        if let Some(l) = self.lists.get(XmlElement::children_id(y)) {
            let values = l.values();
            let ghost vs = list_values(l@);
            let mut k: usize = 0;
            while k < values.len()
                invariant
                    vs == values@.map_values(|e: Element| e@),
                    vs == list_values(l@),
                    k <= values@.len(),
                    forall|x: ElementId| #[trigger]
                        out@.contains(x) ==> vs.contains(ElementV::XmlElement(x)),
                    forall|j: int, x: ElementId|
                        #![trigger vs[j], out@.contains(x)]
                        0 <= j < k && vs[j] == ElementV::XmlElement(x) ==> out@.contains(x),
                decreases values@.len() - k,
            {
                proof {
                    assert(vs[k as int] == values@[k as int]@);
                }
                if let Element::XmlElement(x) = &values[k] {
                    let ghost before = out@;
                    out.push(*x);
                    proof {
                        lemma_pushed_id(before, *x);
                    }
                }
                k += 1;
            }
            proof {
                assert forall|x: ElementId| #[trigger] vs.contains(ElementV::XmlElement(x))
                    implies out@.contains(
                    x,
                ) by {
                    let j = choose|j: int| 0 <= j < vs.len() && vs[j] == ElementV::XmlElement(x);
                    assert(vs[j] == ElementV::XmlElement(x));
                }
            }
        }
        out
    }
}

proof fn lemma_pushed_id(s: Seq<ElementId>, id: ElementId)
    ensures
        forall|x: ElementId| #[trigger] s.push(id).contains(x) <==> s.contains(x) || x == id,
{
    assert forall|x: ElementId| s.contains(x) || x == id implies #[trigger] s.push(id).contains(
        x,
    ) by {
        if s.contains(x) {
            let i = choose|i: int| 0 <= i < s.len() && s[i] == x;
            assert(s.push(id)[i] == x);
        } else {
            assert(s.push(id)[s.len() as int] == x);
        }
    }
}

impl Tree {
    /// A node and every element below it.
    fn subtree_nodes(&self, node: ElementId) -> (done: Table<ElementId, ()>)
        requires
            self.wf(),
        ensures
            done.wf(),
            forall|x: ElementId| #[trigger] done@.dom().contains(x) <==> self@.in_subtree(node, x),
    {
        let t = self;
        let ghost all = t@.xml_elements.dom();
        let mut done: Table<ElementId, ()> = Table::new();
        let mut stack: Vec<ElementId> = Vec::new();
        stack.push(node);
        proof {
            assert(t@.nodes_below(node, 0).contains(node));
            assert(stack@[0] == node);
            assert(all =~= t.xml_elements.table@.dom());
            crate::table::lemma_size::<ElementId, XmlElement>(t.xml_elements.table.entries@);
        }
        while stack.len() > 0
            invariant
                t.wf(),
                done.wf(),
                all == t@.xml_elements.dom(),
                all.finite(),
                done@.dom().finite(),
                done@.dom().subset_of(all),
                all.contains(node) ==> done@.dom().contains(node) || stack@.contains(node),
                forall|i: int|
                    0 <= i < stack@.len() && all.contains(#[trigger] stack@[i]) ==> t@.in_subtree(
                        node,
                        stack@[i],
                    ),
                forall|x: ElementId| #[trigger] done@.dom().contains(x) ==> t@.in_subtree(node, x),
                forall|y: ElementId, z: ElementId|
                    done@.dom().contains(y) && #[trigger] t@.is_xml_child(y, z) && all.contains(z)
                        ==> done@.dom().contains(z) || stack@.contains(z),
            decreases all.len() - done@.dom().len(), stack@.len(),
        {
            let ghost before = stack@;
            let ghost was = done@.dom();
            proof {
                vstd::set_lib::lemma_len_subset(was, all);
            }
            let top = stack[stack.len() - 1];
            stack.pop();
            proof {
                assert forall|z: ElementId| #[trigger] before.contains(z) implies stack@.contains(z)
                    || z == top by {
                    let i = choose|i: int| 0 <= i < before.len() && before[i] == z;
                    if i < before.len() - 1 {
                        assert(stack@[i] == z);
                    }
                }
                assert forall|i: int| 0 <= i < stack@.len()
                    implies #[trigger] stack@[i] == before[i] by {}
            }
            if t.xml_elements.contains(top) && !done.contains_key(&top) {
                let kids = t.xml_children(top);
                done.insert(top, ());
                let ghost n = choose|n: nat| #[trigger] t@.nodes_below(node, n).contains(top);
                proof {
                    assert(before[before.len() - 1] == top);
                    assert(t@.in_subtree(node, top));
                    assert(done@.dom() =~= was.insert(top));
                    vstd::set_lib::lemma_len_subset(done@.dom(), all);
                }
                let ghost base = stack@;
                let mut k: usize = 0;
                while k < kids.len()
                    invariant
                        k <= kids@.len(),
                        stack@ == base + kids@.take(k as int),
                    decreases kids@.len() - k,
                {
                    stack.push(kids[k]);
                    k += 1;
                    proof {
                        assert(stack@ =~= base + kids@.take(k as int));
                    }
                }
                proof {
                    assert(kids@.take(k as int) =~= kids@);
                    assert forall|z: ElementId|
                        base.contains(z) || kids@.contains(z) implies #[trigger] stack@.contains(
                        z,
                    ) by {
                        if base.contains(z) {
                            let i = choose|i: int| 0 <= i < base.len() && base[i] == z;
                            assert(stack@[i] == z);
                        } else {
                            let i = choose|i: int| 0 <= i < kids@.len() && kids@[i] == z;
                            assert(stack@[base.len() + i] == z);
                        }
                    }
                    assert forall|i: int|
                        0 <= i < stack@.len() && all.contains(#[trigger] stack@[i]) implies t@.in_subtree(
                        node,
                        stack@[i],
                    ) by {
                        if i < base.len() {
                            assert(stack@[i] == base[i]);
                        } else {
                            assert(stack@[i] == kids@[i - base.len()]);
                            assert(kids@.contains(stack@[i]));
                            assert(t@.is_xml_child(top, stack@[i]));
                            assert(t@.nodes_below(node, n + 1).contains(stack@[i]));
                        }
                    }
                }
            }
        }
        proof {
            assert forall|x: ElementId| t@.in_subtree(node, x) implies done@.dom().contains(x) by {
                let n = choose|n: nat| #[trigger] t@.nodes_below(node, n).contains(x);
                lemma_closed_holds_subtree(t@, node, done@.dom(), n, x);
            }
        }
        done
    }
}

impl Document {
    /// The attributes and children containers of a movable node and of every element now
    /// below it, in id order: the targets of the ops that give it its content.
    pub fn movable_subtree_containers(&self, node: ElementId) -> (out: Vec<ElementId>)
        requires
            self.wf(),
        ensures
            out@ == ordered::<ElementId>(self@.tree.subtree_containers(node)),
    {
        let done = self.tree.subtree_nodes(node);
        let ghost want = self@.tree.subtree_containers(node);
        let ghost e = done.entries@;
        let mut found: Table<ElementId, ()> = Table::new();
        let mut i: usize = 0;
        while i < done.entries.len()
            invariant
                done.wf(),
                found.wf(),
                e == done.entries@,
                want == self@.tree.subtree_containers(node),
                i <= e.len(),
                forall|x: ElementId| #[trigger]
                    done@.dom().contains(x) <==> self@.tree.in_subtree(node, x),
                forall|c: ElementId| #[trigger] found@.dom().contains(c) ==> want.contains(c),
                forall|j: int|
                    0 <= j < i ==> found@.dom().contains(node_attrs_id((#[trigger] e[j]).0))
                        && found@.dom().contains(node_children_id(e[j].0)),
            decreases e.len() - i,
        {
            proof {
                lemma_entry::<ElementId, ()>(e, i as int);
                assert(done@.dom().contains(e[i as int].0));
            }
            let x = done.entries[i].0;
            found.insert(XmlElement::attrs_id(x), ());
            found.insert(XmlElement::children_id(x), ());
            i += 1;
        }
        proof {
            assert forall|c: ElementId| want.contains(c) implies found@.dom().contains(c) by {
                let x = choose|x: ElementId| #[trigger]
                    self@.tree.in_subtree(node, x) && (c == node_attrs_id(x) || c
                        == node_children_id(x));
                assert(done@.dom().contains(x));
                let j = index_of::<ElementId, ()>(e, x);
                assert(e[j].0@ == x);
            }
            assert(found@.dom() =~= want);
        }
        ids_of(&found)
    }
}

/// A reveal shell moves no clock and leaves no record: it sits at lamport zero.
pub proof fn law_shells_leave_no_record(t: TreeV, u: TreeV, node: ElementId)
    ensures
        crate::identity::admissible(t.shell(node)),
        u.record(t.shell(node).stamp, crate::identity::spec_span(t.shell(node).kind)) == u,
{
    reveal(TreeV::record);
}

/// A shell serves a node as a snapshot does: after it a reader that had not seen the node
/// has it under the same handle, an element with its tag, its attributes and its children,
/// and can take a move of it, as a reader of a state can in which the node has no place.
pub proof fn law_a_shell_serves_a_node(t: TreeV, u: TreeV, node: ElementId, m: OpV)
    requires
        t.node_handle(node) is Some,
        u.node_handle(node) is None,
        m.kind is XmlMove,
        m.kind->XmlMove_node == node,
    ensures
        ({
            let op = t.shell(node);
            let v = u.apply_kind(op.target, op.kind, op.stamp, op.id.client);
            &&& v.node_handle(node) == t.node_handle(node)
            &&& t.xml_elements.dom().contains(node) ==> v.xml_elements[node].tag
                == t.xml_elements[node].tag && v.maps.dom().contains(node_attrs_id(node))
                && v.lists.dom().contains(node_children_id(node))
            &&& v.ready(m) == v.lists.dom().contains(m.target)
            &&& t.awaits(node) ==> t.with_unplaced().ready(m) == t.lists.dom().contains(m.target)
        }),
{
    reveal(TreeV::record);
    reveal(TreeV::reveal_node);
    reveal(TreeV::with_registered);
    reveal(TreeV::with_unplaced);
}

} // verus!
