//! What a projection promises: nothing a reader may not see is left in it, and a reader
//! denied nothing is given the replica as it is.

use crate::annot::Placement;
use crate::clientid::ClientId;
use crate::doc::DocV;
use crate::elementid::ElementId;
use crate::map::live_value;
use crate::op::OpId;
use crate::path::read_path;
use crate::project::{
    anchor_reads, denied, denied_lists, index_of_places, kept_places, unreadable, CutV, ReadRule,
};
use crate::schema::SchemaV;
use crate::scope::zoned_out;
use crate::snapshot_laws::{
    lemma_based_born_keeps, lemma_based_nested_keeps, lemma_based_unplaced_keeps, lemma_log_keeps,
    lemma_recorded_keeps, lemma_settle_keeps, same_stores,
};
use crate::stamp::Stamp;
use crate::table::{ordered, Key};
use crate::tree::TreeV;
use crate::xml::{node_attrs_id, node_children_id};
use vstd::prelude::*;

verus! {

// --- what the last steps keep ---

/// Replaying the moves keeps what the containers hold.
pub(crate) proof fn lemma_refolded_keeps(t: TreeV)
    ensures
        t.refolded().contents() == t.contents(),
{
    reveal(TreeV::refolded);
    reveal(TreeV::reseeded);
    reveal(TreeV::refold);
    if t.placements.dom().len() != 0 {
        let t0 = TreeV { moves: crate::treemove::MovesV::empty(), ..t };
        let nodes = ordered::<ElementId>(t0.placements.dom());
        let elements = ordered::<ElementId>(t0.xml_elements.dom());
        let texts = ordered::<ElementId>(t0.texts.dom());
        let links = ordered::<ElementId>(t0.parents.dom());
        lemma_based_born_keeps(t0, nodes);
        let t1 = t0.based_born(nodes);
        lemma_based_unplaced_keeps(t1, elements);
        let t2 = t1.based_unplaced(elements);
        lemma_based_unplaced_keeps(t2, texts);
        let t3 = t2.based_unplaced(texts);
        lemma_based_nested_keeps(t3, links);
        let t4 = t3.based_nested(links);
        assert(same_stores(t4, t));
        lemma_log_keeps(t4, t.log_seq());
        let t5 = t4.with_log(t.log_seq());
        assert(t5.contents() == t.contents());
        lemma_settle_keeps(t5, t5.moves.tree(), ordered::<ElementId>(t5.placements.dom()));
    }
}

pub(crate) proof fn lemma_scrubbed_keeps(d: DocV, recipient: Option<ClientId>)
    ensures
        d.water_scrubbed(recipient).tree.contents() == d.tree.contents(),
        d.water_scrubbed(recipient).seen == d.seen,
        d.water_scrubbed(recipient).buffer == d.buffer,
        d.water_scrubbed(recipient).resolved == d.resolved,
        d.water_scrubbed(recipient).zone_clocks == d.zone_clocks,
{
    reveal(DocV::water_scrubbed);
    let own = crate::project::own_water(d.tree.high_water, recipient);
    if own.dom() != d.tree.high_water.dom() {
        let t = TreeV { high_water: own, ..d.tree };
        lemma_recorded_keeps(t.with_floor(t.log_seq()), d.buffer);
    }
}

/// States that hold the same have the same containers registered.
pub(crate) proof fn lemma_same_doms(a: TreeV, b: TreeV)
    requires
        a.contents() == b.contents(),
    ensures
        a.maps.dom() == b.maps.dom(),
        a.lists.dom() == b.lists.dom(),
        a.texts.dom() == b.texts.dom(),
        a.counters.dom() == b.counters.dom(),
        a.xml_elements.dom() == b.xml_elements.dom(),
        a.xml_fragments.dom() == b.xml_fragments.dom(),
        a.ranged == b.ranged,
        a.acl == b.acl,
        forall|m: ElementId|
            #[trigger] a.maps.dom().contains(m) ==> a.maps[m].slots == b.maps[m].slots,
{
    let c = a.contents();
    let e = b.contents();
    assert(c.maps.dom() =~= a.maps.dom() && e.maps.dom() =~= b.maps.dom());
    assert(c.lists.dom() =~= a.lists.dom() && e.lists.dom() =~= b.lists.dom());
    assert(c.texts.dom() =~= a.texts.dom() && e.texts.dom() =~= b.texts.dom());
    assert(c.counters.dom() =~= a.counters.dom() && e.counters.dom() =~= b.counters.dom());
    assert(c.xml_elements.dom() =~= a.xml_elements.dom() && e.xml_elements.dom()
        =~= b.xml_elements.dom());
    assert(c.xml_fragments.dom() =~= a.xml_fragments.dom() && e.xml_fragments.dom()
        =~= b.xml_fragments.dom());
    assert(c.ranged == a.ranged && e.ranged == b.ranged);
    assert(c.acl == a.acl && e.acl == b.acl);
    assert forall|m: ElementId| #[trigger] a.maps.dom().contains(m) implies a.maps[m].slots
        == b.maps[m].slots by {
        assert(c.maps[m].slots == a.maps[m].slots);
        assert(e.maps[m].slots == b.maps[m].slots);
    }
}

impl TreeV {
    /// Whether no container with this id is registered.
    pub open spec fn lacks(self, id: ElementId) -> bool {
        !self.maps.dom().contains(id) && !self.lists.dom().contains(id)
            && !self.texts.dom().contains(id) && !self.counters.dom().contains(id)
            && !self.xml_elements.dom().contains(id) && !self.xml_fragments.dom().contains(id)
    }
}

// --- what is decided stays decided ---

/// Deciding slots adds to what is purged and takes nothing out of it.
pub(crate) proof fn lemma_keys_purge<R: ReadRule>(
    c: CutV,
    rule: &R,
    map: ElementId,
    base: Seq<Seq<u8>>,
    keys: Seq<Seq<u8>>,
)
    ensures
        c.purge.subset_of(c.cut_keys(rule, map, base, keys).purge),
    decreases keys.len(),
{
    if keys.len() > 0 {
        lemma_keys_purge(c, rule, map, base, keys.drop_last());
    }
}

pub(crate) proof fn lemma_maps_purge<R: ReadRule>(
    c: CutV,
    rule: &R,
    paths: Map<ElementId, Seq<Seq<u8>>>,
    maps: Seq<ElementId>,
)
    ensures
        c.purge.subset_of(c.cut_maps(rule, paths, maps).purge),
    decreases maps.len(),
{
    if maps.len() > 0 {
        lemma_maps_purge(c, rule, paths, maps.drop_last());
        let u = c.cut_maps(rule, paths, maps.drop_last());
        let m = maps.last();
        lemma_keys_purge(
            u,
            rule,
            m,
            paths[m],
            ordered::<Vec<u8>>(u.tree.maps[m].slots.dom()),
        );
    }
}

/// Sparing takes out only nodes born where the reader may read, with their parts.
proof fn lemma_spared<R: ReadRule>(
    t: TreeV,
    rule: &R,
    paths: Map<ElementId, Seq<Seq<u8>>>,
    purge: Set<ElementId>,
    nodes: Seq<ElementId>,
    x: ElementId,
)
    requires
        purge.contains(x),
        !t.part_of_spared(rule, paths, x),
        forall|i: int| 0 <= i < nodes.len() ==> t.placements.dom().contains(#[trigger] nodes[i]),
    ensures
        t.spared(rule, paths, purge, nodes).contains(x),
    decreases nodes.len(),
{
    if nodes.len() > 0 {
        let h = nodes.drop_last();
        assert forall|i: int| 0 <= i < h.len()
            implies t.placements.dom().contains(#[trigger] h[i]) by {
            assert(h[i] == nodes[i]);
        }
        lemma_spared(t, rule, paths, purge, h, x);
        let node = nodes.last();
        assert(node == nodes[nodes.len() - 1]);
        if t.born_readable(rule, paths, node) {
            assert(node != x && node_attrs_id(node) != x && node_children_id(node) != x);
        }
    }
}

impl TreeV {
    /// Whether an id is that of a movable node born where the reader may read, or of such
    /// a node's attributes or children.
    pub open spec fn part_of_spared<R: ReadRule>(
        self,
        rule: &R,
        paths: Map<ElementId, Seq<Seq<u8>>>,
        x: ElementId,
    ) -> bool {
        exists|n: ElementId| #[trigger]
            self.placements.dom().contains(n) && self.born_readable(rule, paths, n) && (x == n || x
                == node_attrs_id(n) || x == node_children_id(n))
    }
}

/// Nothing unreadable is left: every container at a path some level of which the reader
/// may not read is gone from a projection, but for movable nodes born where it may; every
/// grant left is on a path it may read, and every annotation left lies between sequences
/// it may read.
pub proof fn law_nothing_unreadable_is_left<R: ReadRule>(
    d: DocV,
    rule: &R,
    recipient: Option<ClientId>,
    x: ElementId,
)
    requires
        d.tree.placements.dom().finite(),
    ensures
        ({
            let t = d.projected_reads(rule, recipient).tree;
            let paths = d.tree.paths();
            &&& unreadable(rule, paths).contains(x) && !d.tree.part_of_spared(rule, paths, x)
                ==> t.lacks(x)
            &&& t.acl.dom().contains(x) ==> (read_path(t.acl[x].path) matches Some(keys)
                && rule.reads_at(keys))
            &&& t.ranged.dom().contains(x) ==> anchor_reads(rule, paths, t.ranged[x].start.seq)
                && anchor_reads(rule, paths, t.ranged[x].end.seq)
        }),
{
    let paths = d.tree.paths();
    let s = d.tree.read_scope(rule);
    let out = d.projected_reads(rule, recipient);
    // The last steps keep what is decided.
    lemma_refolded_keeps(s.tree);
    let e = DocV {
        tree: s.tree.refolded(),
        buffer: Seq::empty(),
        resolved: Set::empty(),
        seen: d.published(recipient),
        ..d
    };
    lemma_scrubbed_keeps(e, recipient);
    assert(out.tree.contents() == s.tree.contents());
    lemma_same_doms(out.tree, s.tree);
    lemma_scope_hides(d.tree, rule, x);
}

/// What a reader may not read is taken out.
proof fn lemma_scope_hides<R: ReadRule>(t: TreeV, rule: &R, x: ElementId)
    requires
        t.placements.dom().finite(),
    ensures
        ({
            let s = t.read_scope(rule).tree;
            let paths = t.paths();
            &&& unreadable(rule, paths).contains(x) && !t.part_of_spared(rule, paths, x)
                ==> s.lacks(x)
            &&& s.acl.dom().contains(x) ==> (read_path(s.acl[x].path) matches Some(keys)
                && rule.reads_at(keys))
            &&& s.ranged.dom().contains(x) ==> anchor_reads(rule, paths, s.ranged[x].start.seq)
                && anchor_reads(rule, paths, s.ranged[x].end.seq)
        }),
{
    reveal(TreeV::read_scope);
    reveal(TreeV::read_cut);
    reveal(TreeV::replaced);
    let paths = t.paths();
    let first = unreadable(rule, paths);
    let nodes = ordered::<ElementId>(t.placements.dom());
    crate::table::lemma_ordered_exists::<ElementId>(t.placements.dom());
    let c0 = CutV { tree: t, purge: t.spared(rule, paths, first, nodes), leaf: false };
    let maps = ordered::<ElementId>(t.maps.dom());
    lemma_maps_purge(c0, rule, paths, maps);
    let c = t.read_cut(rule);
    if first.contains(x) && !t.part_of_spared(rule, paths, x) {
        assert forall|i: int| 0 <= i < nodes.len() implies t.placements.dom().contains(
            #[trigger] nodes[i],
        ) by {
            assert(nodes.to_set().contains(nodes[i]));
        }
        lemma_spared(t, rule, paths, first, nodes, x);
        assert(c.purge.contains(x));
    }
}

// --- slots ---

/// Whether a slot may be served: a leaf on a path the reader may read.
spec fn leaf_reads<R: ReadRule>(
    t: TreeV,
    rule: &R,
    base: Seq<Seq<u8>>,
    map: ElementId,
    key: Seq<u8>,
) -> bool {
    t.maps[map].slots.dom().contains(key) ==> (live_value(t.slot(map, key)) matches Some(e)
        && e.is_container()) || rule.reads_at(base.push(key))
}

/// Deciding a map's slots leaves no leaf the reader may not read among them, and no other
/// map's slots are touched.
proof fn lemma_keys_read<R: ReadRule>(
    c: CutV,
    rule: &R,
    map: ElementId,
    base: Seq<Seq<u8>>,
    keys: Seq<Seq<u8>>,
)
    requires
        c.tree.maps.dom().contains(map),
    ensures
        ({
            let u = c.cut_keys(rule, map, base, keys).tree;
            &&& u.maps.dom() == c.tree.maps.dom()
            &&& forall|m: ElementId| m != map ==> #[trigger] u.maps[m] == c.tree.maps[m]
            &&& forall|k: Seq<u8>| #[trigger]
                u.maps[map].slots.dom().contains(k) ==> c.tree.maps[map].slots.dom().contains(k)
                    && u.maps[map].slots[k] == c.tree.maps[map].slots[k]
            &&& forall|k: Seq<u8>| #[trigger] keys.contains(k) ==> leaf_reads(u, rule, base, map, k)
        }),
    decreases keys.len(),
{
    if keys.len() > 0 {
        let h = keys.drop_last();
        let key = keys.last();
        lemma_keys_read(c, rule, map, base, h);
        let a = c.cut_keys(rule, map, base, h);
        let b = c.cut_keys(rule, map, base, keys);
        assert(b == a.cut_slot(rule, map, base, key));
        assert(b.tree.maps.dom() =~= a.tree.maps.dom());
        assert forall|k: Seq<u8>| #[trigger] keys.contains(k) implies leaf_reads(
            b.tree,
            rule,
            base,
            map,
            k,
        ) by {
            if k != key {
                let i = keys.index_of(k);
                assert(h[i] == k);
                assert(h.contains(k));
                assert(leaf_reads(a.tree, rule, base, map, k));
            }
        }
    }
}

/// The same over maps.
proof fn lemma_maps_read<R: ReadRule>(
    c: CutV,
    rule: &R,
    paths: Map<ElementId, Seq<Seq<u8>>>,
    maps: Seq<ElementId>,
)
    requires
        forall|i: int| 0 <= i < maps.len() ==> c.tree.maps.dom().contains(#[trigger] maps[i]),
        forall|m: ElementId| #[trigger]
            c.tree.maps.dom().contains(m) ==> c.tree.maps[m].slots.dom().finite(),
        maps.no_duplicates(),
    ensures
        ({
            let u = c.cut_maps(rule, paths, maps);
            &&& u.tree.maps.dom() == c.tree.maps.dom()
            &&& forall|m: ElementId| !maps.contains(m) ==> #[trigger] u.tree.maps[m]
                == c.tree.maps[m]
            &&& forall|m: ElementId| #[trigger]
                u.tree.maps.dom().contains(m) ==> u.tree.maps[m].slots.dom().finite()
            &&& forall|m: ElementId, k: Seq<u8>|
                #![trigger u.tree.maps[m].slots.dom().contains(k)]
                maps.contains(m) && paths.dom().contains(m) && !u.purge.contains(m) ==> leaf_reads(
                    u.tree,
                    rule,
                    paths[m],
                    m,
                    k,
                )
        }),
    decreases maps.len(),
{
    if maps.len() > 0 {
        let h = maps.drop_last();
        let m = maps.last();
        assert forall|i: int| 0 <= i < h.len()
            implies c.tree.maps.dom().contains(#[trigger] h[i]) by {
            assert(h[i] == maps[i]);
        }
        lemma_maps_read(c, rule, paths, h);
        let a = c.cut_maps(rule, paths, h);
        let b = c.cut_maps(rule, paths, maps);
        assert(m == maps[maps.len() - 1]);
        assert(!h.contains(m)) by {
            if h.contains(m) {
                let i = h.index_of(m);
                assert(maps[i] == m);
            }
        }
        let keys = ordered::<Vec<u8>>(a.tree.maps[m].slots.dom());
        crate::table::lemma_ordered_exists::<Vec<u8>>(a.tree.maps[m].slots.dom());
        lemma_keys_read(a, rule, m, paths[m], keys);
        lemma_keys_purge(a, rule, m, paths[m], keys);
        if !a.purge.contains(m) && paths.dom().contains(m) {
            assert(b == a.cut_keys(rule, m, paths[m], keys));
            assert(b.tree.maps[m].slots.dom().subset_of(a.tree.maps[m].slots.dom()));
            assert(b.tree.maps[m].slots.dom().finite());
        }
        assert forall|n: ElementId, k: Seq<u8>|
            #![trigger b.tree.maps[n].slots.dom().contains(k)]
            maps.contains(n) && paths.dom().contains(n) && !b.purge.contains(n) implies leaf_reads(
            b.tree,
            rule,
            paths[n],
            n,
            k,
        ) by {
            if n == m {
                if b.tree.maps[m].slots.dom().contains(k) {
                    assert(keys.to_set().contains(k));
                    assert(keys.contains(k));
                }
            } else {
                let i = maps.index_of(n);
                assert(h[i] == n);
                assert(h.contains(n));
                assert(b.tree.maps[n] == a.tree.maps[n]);
                assert(a.tree.maps[n].slots.dom().contains(k) == b.tree.maps[n].slots.dom().contains(k));
            }
        }
        assert forall|n: ElementId| !maps.contains(n) implies #[trigger] b.tree.maps[n]
            == c.tree.maps[n] by {
            assert(n != m);
            if h.contains(n) {
                let i = h.index_of(n);
                assert(maps[i] == n);
            }
        }
        assert forall|n: ElementId| #[trigger] b.tree.maps.dom().contains(n)
            implies b.tree.maps[n].slots.dom().finite() by {
            if n != m {
                assert(b.tree.maps[n] == a.tree.maps[n]);
            }
        }
    }
}

/// A leaf-level denial drops the slot even inside a map that may be read: every leaf left
/// in a map that has a path is on a path the reader may read.
pub proof fn law_no_unreadable_leaf_is_left<R: ReadRule>(
    d: DocV,
    rule: &R,
    recipient: Option<ClientId>,
    map: ElementId,
    key: Seq<u8>,
)
    requires
        d.tree.maps.dom().finite(),
        forall|m: ElementId| #[trigger]
            d.tree.maps.dom().contains(m) ==> d.tree.maps[m].slots.dom().finite(),
    ensures
        ({
            let t = d.projected_reads(rule, recipient).tree;
            let paths = d.tree.paths();
            t.maps.dom().contains(map) && paths.dom().contains(map)
                && t.maps[map].slots.dom().contains(key) ==> (live_value(t.slot(map, key)) matches Some(
                e,
            ) && e.is_container()) || rule.reads_at(paths[map].push(key))
        }),
{
    let t = d.tree;
    let paths = t.paths();
    let s = t.read_scope(rule);
    let out = d.projected_reads(rule, recipient);
    lemma_refolded_keeps(s.tree);
    let e = DocV {
        tree: s.tree.refolded(),
        buffer: Seq::empty(),
        resolved: Set::empty(),
        seen: d.published(recipient),
        ..d
    };
    lemma_scrubbed_keeps(e, recipient);
    assert(out.tree.contents() == s.tree.contents());
    lemma_same_doms(out.tree, s.tree);
    reveal(TreeV::read_scope);
    reveal(TreeV::read_cut);
    reveal(TreeV::replaced);
    let c0 = CutV {
        tree: t,
        purge: t.spared(
            rule,
            paths,
            unreadable(rule, paths),
            ordered::<ElementId>(t.placements.dom()),
        ),
        leaf: false,
    };
    let maps = ordered::<ElementId>(t.maps.dom());
    crate::table::lemma_ordered_exists::<ElementId>(t.maps.dom());
    assert(maps.no_duplicates()) by {
        assert forall|i: int, j: int| 0 <= i < maps.len() && 0 <= j < maps.len() && i != j implies
            maps[i] != maps[j] by {
            if i < j {
                lemma_rises_apart(maps, i, j);
            } else {
                lemma_rises_apart(maps, j, i);
            }
        }
    }
    assert forall|i: int| 0 <= i < maps.len() implies c0.tree.maps.dom().contains(
        #[trigger] maps[i],
    ) by {
        assert(maps.to_set().contains(maps[i]));
    }
    lemma_maps_read(c0, rule, paths, maps);
    let c = t.read_cut(rule);
    if out.tree.maps.dom().contains(map) && paths.dom().contains(map)
        && out.tree.maps[map].slots.dom().contains(key) {
        assert(s.tree.maps[map].slots.dom().contains(key));
        assert(s.tree.maps[map] == c.tree.maps[map]);
        assert(maps.to_set().contains(map));
        assert(maps.contains(map));
        assert(!c.purge.contains(map));
        assert(c.tree.maps[map].slots.dom().contains(key));
        assert(leaf_reads(c.tree, rule, paths[map], map, key));
    }
}

pub(crate) proof fn lemma_rises_apart(q: Seq<ElementId>, i: int, j: int)
    requires
        crate::table::rises::<ElementId>(q),
        0 <= i < j < q.len(),
    ensures
        q[i] != q[j],
{
    assert(<ElementId as Key>::before(q[i], q[j]));
}

// --- the frontier ---

/// A projection that withholds anything tells its recipient of no ids but its own: the
/// frontier is cut back to what the recipient published, and no op waits in it.
pub proof fn law_a_projection_tells_only_own_ids<R: ReadRule>(
    d: DocV,
    rule: &R,
    recipient: Option<ClientId>,
    id: OpId,
)
    ensures
        ({
            let out = d.projected_reads(rule, recipient);
            let s = d.tree.read_scope(rule);
            let cut = s.purge != Set::<ElementId>::empty() || s.cut || !rule.reads_at(Seq::empty());
            &&& cut ==> out.buffer.len() == 0
            &&& cut && out.seen.contains(id) ==> Some(id.client) == recipient
            &&& cut && Some(id.client) == recipient ==> (out.seen.contains(id) <==> d.has_op(id))
            &&& !cut ==> out.seen == d.seen && out.buffer == d.buffer
        }),
{
    let s = d.tree.read_scope(rule);
    let e = DocV {
        tree: s.tree.refolded(),
        buffer: Seq::empty(),
        resolved: Set::empty(),
        seen: d.published(recipient),
        ..d
    };
    lemma_scrubbed_keeps(e, recipient);
}

// --- zones ---

/// A schema with no zones leaves the replica untouched; with zones, no container in a zone
/// that is not authorized is left, nor its clock.
pub proof fn law_unauthorized_zones_are_left_out(
    d: DocV,
    schema: SchemaV,
    authorized: Seq<u32>,
    recipient: Option<ClientId>,
    x: ElementId,
    z: u32,
)
    ensures
        ({
            let out = d.projected_zones(schema, authorized, recipient);
            &&& schema.zones.len() == 0 ==> out == d
            &&& schema.zones.len() > 0 && zoned_out(schema, authorized, d.tree.paths()).contains(x)
                ==> out.tree.lacks(x)
            &&& schema.zones.len() > 0 && out.zone_clocks.dom().contains(z) ==> authorized.contains(
                z,
            ) && d.zone_clocks.dom().contains(z) && out.zone_clocks[z] == d.zone_clocks[z]
        }),
{
    if schema.zones.len() > 0 {
        let buffer = crate::doc::untagged(
            crate::scope::ops_served(authorized, d.buffer),
            crate::scope::split_groups(authorized, d.buffer),
        );
        let e = DocV {
            tree: d.tree.zone_scope(schema, authorized),
            zone_clocks: d.zone_clocks.restrict(Set::new(|z: u32| authorized.contains(z))),
            buffer,
            resolved: Set::empty(),
            seen: d.published(recipient).difference(crate::state::held_ids(buffer)),
            ..d
        };
        lemma_scrubbed_keeps(e, recipient);
        let out = d.projected_zones(schema, authorized, recipient);
        assert(out == e.water_scrubbed(recipient));
        lemma_same_doms(out.tree, e.tree);
        reveal(TreeV::zone_scope);
        reveal(TreeV::replaced);
    }
}

// --- nothing denied ---

proof fn lemma_nothing_spared<R: ReadRule>(
    t: TreeV,
    rule: &R,
    paths: Map<ElementId, Seq<Seq<u8>>>,
    nodes: Seq<ElementId>,
)
    ensures
        t.spared(rule, paths, Set::empty(), nodes) == Set::<ElementId>::empty(),
    decreases nodes.len(),
{
    if nodes.len() > 0 {
        lemma_nothing_spared(t, rule, paths, nodes.drop_last());
    }
}

proof fn lemma_no_key_cut<R: ReadRule>(
    c: CutV,
    rule: &R,
    map: ElementId,
    base: Seq<Seq<u8>>,
    keys: Seq<Seq<u8>>,
)
    requires
        forall|p: Seq<Seq<u8>>| #[trigger] rule.reads_at(p),
        c.purge == Set::<ElementId>::empty(),
    ensures
        c.cut_keys(rule, map, base, keys) == c,
    decreases keys.len(),
{
    if keys.len() > 0 {
        lemma_no_key_cut(c, rule, map, base, keys.drop_last());
    }
}

proof fn lemma_no_map_cut<R: ReadRule>(
    c: CutV,
    rule: &R,
    paths: Map<ElementId, Seq<Seq<u8>>>,
    maps: Seq<ElementId>,
)
    requires
        forall|p: Seq<Seq<u8>>| #[trigger] rule.reads_at(p),
        c.purge == Set::<ElementId>::empty(),
    ensures
        c.cut_maps(rule, paths, maps) == c,
    decreases maps.len(),
{
    if maps.len() > 0 {
        lemma_no_map_cut(c, rule, paths, maps.drop_last());
        let m = maps.last();
        lemma_no_key_cut(c, rule, m, paths[m], ordered::<Vec<u8>>(c.tree.maps[m].slots.dom()));
    }
}

proof fn lemma_kept_whole(places: Seq<Placement>, gone: Set<ElementId>)
    requires
        forall|i: int| 0 <= i < places.len() ==> !gone.contains((#[trigger] places[i]).list),
    ensures
        kept_places(places, gone) == places,
    decreases places.len(),
{
    if places.len() > 0 {
        let h = places.drop_last();
        assert forall|i: int| 0 <= i < h.len() implies !gone.contains((#[trigger] h[i]).list) by {
            assert(h[i] == places[i]);
        }
        lemma_kept_whole(h, gone);
        assert(places[places.len() - 1] == places.last());
        assert(h.push(places.last()) =~= places);
    }
}

impl TreeV {
    /// Whether everything that stands beside the tree has a path: both ends of every
    /// annotation, every grant, and every sequence a placement or a move names. And which
    /// node owns each placement is what the placements say.
    pub open spec fn all_placed(self) -> bool {
        let paths = self.paths();
        &&& forall|r: ElementId| #[trigger]
            self.ranged.dom().contains(r) ==> paths.dom().contains(self.ranged[r].start.seq)
                && paths.dom().contains(self.ranged[r].end.seq)
        &&& forall|a: ElementId| #[trigger]
            self.acl.dom().contains(a) ==> read_path(self.acl[a].path) is Some
        &&& forall|n: ElementId, i: int|
            self.placements.dom().contains(n) && 0 <= i < self.placements[n].len()
                ==> paths.dom().contains((#[trigger] self.placements[n][i]).list)
        &&& forall|n: ElementId| #[trigger]
            self.placements.dom().contains(n) ==> self.placements[n].len() > 0
        &&& forall|s: Stamp| #[trigger]
            self.moves.log.dom().contains(s) ==> paths.dom().contains(
                node_children_id(self.moves.log[s].parent),
            )
        &&& self.placement_index == index_of_places(
            self.placements,
            ordered::<ElementId>(self.placements.dom()),
        )
    }
}

/// A reader denied nothing, over a replica that holds nothing without a path, is given the
/// replica as it is.
pub proof fn law_a_reader_denied_nothing_gets_everything<R: ReadRule>(
    d: DocV,
    rule: &R,
    recipient: Option<ClientId>,
)
    requires
        forall|p: Seq<Seq<u8>>| #[trigger] rule.reads_at(p),
        d.tree.all_placed(),
    ensures
        d.projected_reads(rule, recipient) == d,
{
    reveal(TreeV::read_scope);
    reveal(TreeV::read_cut);
    reveal(TreeV::replaced);
    let t = d.tree;
    let paths = t.paths();
    let none = Set::<ElementId>::empty();
    assert forall|p: Seq<Seq<u8>>| !#[trigger] denied(rule, p) by {}
    assert(unreadable(rule, paths) =~= none);
    lemma_nothing_spared(t, rule, paths, ordered::<ElementId>(t.placements.dom()));
    let c = CutV { tree: t, purge: none, leaf: false };
    lemma_no_map_cut(c, rule, paths, ordered::<ElementId>(t.maps.dom()));
    assert(t.read_cut(rule) == c);
    let hidden = t.hidden_ranged(rule, paths, none);
    assert(hidden =~= none);
    let purge = none.union(t.payloads_of(paths.dom(), hidden));
    assert(purge =~= none);
    let t1 = t.purged(purge).emptied(rule, paths);
    assert(t1.maps =~= t.maps);
    assert(t1.lists =~= t.lists);
    assert(t1.texts =~= t.texts);
    assert(t1.counters =~= t.counters);
    assert(t1.xml_elements =~= t.xml_elements);
    assert(t1.xml_fragments =~= t.xml_fragments);
    assert(t1.parents =~= t.parents);
    assert(t1 == t);
    let acl = t1.hidden_acl(rule, purge);
    assert(acl =~= none);
    let t2 = TreeV { acl: t1.acl.remove_keys(acl), ranged: t1.ranged.remove_keys(hidden), ..t1 };
    assert(t2.acl =~= t.acl);
    assert(t2.ranged =~= t.ranged);
    assert(t2 == t);
    let gone = denied_lists(rule, paths);
    assert forall|n: ElementId| #[trigger] t.placements.dom().contains(n) implies kept_places(
        t.placements[n],
        purge.union(gone),
    ) == t.placements[n] by {
        lemma_kept_whole(t.placements[n], purge.union(gone));
    }
    let t3 = t2.replaced(purge, gone);
    assert(t3.placements =~= t.placements);
    assert(t3 == t);
    let dead = t3.dead_moves(purge, gone);
    assert(dead =~= Set::empty());
    assert(t3.unmoved(dead).moves.log =~= t.moves.log);
    assert(t3.unmoved(dead) == t);
}

} // verus!
