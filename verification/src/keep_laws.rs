//! What a projection keeps: everything its reader may read.

use crate::clientid::ClientId;
use crate::doc::DocV;
use crate::element::ElementV;
use crate::elementid::ElementId;
use crate::map::live_value;
use crate::project::{unreadable, CutV, ReadRule};
use crate::project_laws::{
    lemma_keys_purge, lemma_maps_purge, lemma_refolded_keeps, lemma_rises_apart, lemma_same_doms,
    lemma_scrubbed_keeps,
};
use crate::table::{lemma_ordered_exists, ordered};
use crate::tree::TreeV;
use vstd::prelude::*;

verus! {

/// Whether a slot is withheld: it holds a container that is, or it is a leaf at a path that
/// may not be read.
pub open spec fn slot_withheld<R: ReadRule>(
    t: TreeV,
    rule: &R,
    base: Seq<Seq<u8>>,
    map: ElementId,
    key: Seq<u8>,
    purge: Set<ElementId>,
) -> bool {
    match live_value(t.slot(map, key)) {
        Some(e) if e.is_container() => purge.contains(e.opt_id()->Some_0),
        _ => !rule.reads_at(base.push(key)),
    }
}

/// Whether an id is that of a counter at a path that may not be read.
pub open spec fn tally_withheld<R: ReadRule>(t: TreeV, rule: &R, x: ElementId) -> bool {
    exists|map: ElementId, key: Seq<u8>| #[trigger] tally_at_withheld(t, rule, x, map, key)
}

pub open spec fn tally_at_withheld<R: ReadRule>(
    t: TreeV,
    rule: &R,
    x: ElementId,
    map: ElementId,
    key: Seq<u8>,
) -> bool {
    t.paths().dom().contains(map) && live_value(t.slot(map, key)) == Some(ElementV::Counter(x))
        && !rule.reads_at(t.paths()[map].push(key))
}

proof fn lemma_keys_keep<R: ReadRule>(
    c: CutV,
    rule: &R,
    map: ElementId,
    base: Seq<Seq<u8>>,
    keys: Seq<Seq<u8>>,
)
    requires
        c.tree.maps.dom().contains(map),
    ensures
        ({
            let u = c.cut_keys(rule, map, base, keys);
            &&& u.tree == (TreeV { maps: u.tree.maps, ..c.tree })
            &&& u.tree.maps.dom() == c.tree.maps.dom()
            &&& forall|m: ElementId| m != map ==> #[trigger] u.tree.maps[m] == c.tree.maps[m]
            &&& u.tree.maps[map].slots.submap_of(c.tree.maps[map].slots)
            &&& forall|k: Seq<u8>| #[trigger]
                c.tree.maps[map].slots.dom().contains(k) && !u.tree.maps[map].slots.dom().contains(k)
                    ==> slot_withheld(c.tree, rule, base, map, k, u.purge)
            &&& forall|x: ElementId| #[trigger]
                u.purge.contains(x) && !c.purge.contains(x) ==> exists|k: Seq<u8>|
                    live_value(#[trigger] c.tree.slot(map, k)) == Some(ElementV::Counter(x))
                        && !rule.reads_at(base.push(k))
        }),
    decreases keys.len(),
{
    let u = c.cut_keys(rule, map, base, keys);
    if keys.len() == 0 {
        assert(u == c);
        assert(u.tree == (TreeV { maps: u.tree.maps, ..c.tree }));
        assert(u.tree.maps[map].slots.submap_of(c.tree.maps[map].slots));
    } else {
        let h = keys.drop_last();
        let key = keys.last();
        lemma_keys_keep(c, rule, map, base, h);
        let a = c.cut_keys(rule, map, base, h);
        assert(u == a.cut_slot(rule, map, base, key));
        assert(u.tree.maps.dom() =~= a.tree.maps.dom());
        assert(a.purge.subset_of(u.purge));
        assert(u.tree == (TreeV { maps: u.tree.maps, ..c.tree }));
        assert(u.tree.maps[map].slots.submap_of(a.tree.maps[map].slots));
        assert(u.tree.maps[map].slots.submap_of(c.tree.maps[map].slots));
        assert forall|m: ElementId| m != map implies #[trigger] u.tree.maps[m]
            == c.tree.maps[m] by {
            assert(a.tree.maps[m] == c.tree.maps[m]);
        }
        let there = a.tree.maps[map].slots.dom().contains(key);
        if there {
            assert(a.tree.slot(map, key) == c.tree.slot(map, key));
        } else {
            assert(u.tree.maps[map].slots =~= a.tree.maps[map].slots);
        }
        assert forall|k: Seq<u8>| #[trigger]
            c.tree.maps[map].slots.dom().contains(k) && !u.tree.maps[map].slots.dom().contains(k)
            implies slot_withheld(c.tree, rule, base, map, k, u.purge) by {
            if !a.tree.maps[map].slots.dom().contains(k) {
                assert(slot_withheld(c.tree, rule, base, map, k, a.purge));
            }
        }
        assert forall|x: ElementId| #[trigger]
            u.purge.contains(x) && !c.purge.contains(x) implies exists|k: Seq<u8>|
            live_value(#[trigger] c.tree.slot(map, k)) == Some(ElementV::Counter(x))
                && !rule.reads_at(base.push(k)) by {
            if !a.purge.contains(x) {
                assert(live_value(a.tree.slot(map, key)) == Some(ElementV::Counter(x)));
                assert(there);
                assert(live_value(c.tree.slot(map, key)) == Some(ElementV::Counter(x)));
            }
        }
    }
}

/// Whether cutting maps withheld only what may not be read.
spec fn cut_rightly<R: ReadRule>(t: TreeV, rule: &R, c: CutV, u: CutV) -> bool {
    &&& u.tree == (TreeV { maps: u.tree.maps, ..t })
    &&& u.tree.maps.dom() == t.maps.dom()
    &&& forall|m: ElementId| #[trigger]
        t.maps.dom().contains(m) ==> u.tree.maps[m].slots.submap_of(t.maps[m].slots)
    &&& forall|m: ElementId, k: Seq<u8>| #[trigger]
        t.maps[m].slots.dom().contains(k) && t.maps.dom().contains(m)
            && !u.tree.maps[m].slots.dom().contains(k) ==> t.paths().dom().contains(m)
            && slot_withheld(t, rule, t.paths()[m], m, k, u.purge)
    &&& forall|x: ElementId| #[trigger]
        u.purge.contains(x) && !c.purge.contains(x) ==> tally_withheld(t, rule, x)
}

proof fn lemma_maps_keep<R: ReadRule>(t: TreeV, rule: &R, c: CutV, maps: Seq<ElementId>)
    requires
        c.tree == t,
        forall|i: int| 0 <= i < maps.len() ==> t.maps.dom().contains(#[trigger] maps[i]),
        maps.no_duplicates(),
    ensures
        cut_rightly(t, rule, c, c.cut_maps(rule, t.paths(), maps)),
        forall|m: ElementId| !maps.contains(m) ==> #[trigger] c.cut_maps(
            rule,
            t.paths(),
            maps,
        ).tree.maps[m] == t.maps[m],
    decreases maps.len(),
{
    let paths = t.paths();
    let u = c.cut_maps(rule, paths, maps);
    if maps.len() > 0 {
        let h = maps.drop_last();
        let m = maps.last();
        assert forall|i: int| 0 <= i < h.len() implies t.maps.dom().contains(#[trigger] h[i]) by {
            assert(h[i] == maps[i]);
        }
        assert(m == maps[maps.len() - 1]);
        lemma_maps_keep(t, rule, c, h);
        let a = c.cut_maps(rule, paths, h);
        assert(!h.contains(m)) by {
            if h.contains(m) {
                assert(maps[h.index_of(m)] == m);
            }
        }
        assert(a.tree.maps[m] == t.maps[m]);
        let keys = ordered::<Vec<u8>>(a.tree.maps[m].slots.dom());
        lemma_keys_keep(a, rule, m, paths[m], keys);
        lemma_keys_purge(a, rule, m, paths[m], keys);
        lemma_maps_purge(c, rule, paths, h);
        assert forall|n: ElementId, k: Seq<u8>| #[trigger]
            t.maps[n].slots.dom().contains(k) && t.maps.dom().contains(n)
                && !u.tree.maps[n].slots.dom().contains(k) implies paths.dom().contains(n)
            && slot_withheld(t, rule, paths[n], n, k, u.purge) by {
            if n == m {
                assert(a.tree.slot(m, k) == t.slot(m, k));
                assert(slot_withheld(a.tree, rule, paths[m], m, k, u.purge));
            } else {
                assert(u.tree.maps[n] == a.tree.maps[n]);
                assert(slot_withheld(t, rule, paths[n], n, k, a.purge));
            }
        }
        assert forall|n: ElementId| #[trigger]
            t.maps.dom().contains(n) implies u.tree.maps[n].slots.submap_of(t.maps[n].slots) by {
            if n != m {
                assert(u.tree.maps[n] == a.tree.maps[n]);
            }
        }
        assert forall|x: ElementId| #[trigger]
            u.purge.contains(x) && !c.purge.contains(x) implies tally_withheld(t, rule, x) by {
            if !a.purge.contains(x) {
                let k = choose|k: Seq<u8>|
                    live_value(#[trigger] a.tree.slot(m, k)) == Some(ElementV::Counter(x))
                        && !rule.reads_at(paths[m].push(k));
                assert(t.slot(m, k) == a.tree.slot(m, k));
                assert(tally_at_withheld(t, rule, x, m, k));
            }
        }
        assert forall|n: ElementId| !maps.contains(n) implies #[trigger] u.tree.maps[n]
            == t.maps[n] by {
            if h.contains(n) {
                assert(maps[h.index_of(n)] == n);
            }
        }
    }
}

/// Sparing only takes out.
proof fn lemma_spared_within<R: ReadRule>(
    t: TreeV,
    rule: &R,
    paths: Map<ElementId, Seq<Seq<u8>>>,
    purge: Set<ElementId>,
    nodes: Seq<ElementId>,
)
    ensures
        t.spared(rule, paths, purge, nodes).subset_of(purge),
    decreases nodes.len(),
{
    if nodes.len() > 0 {
        lemma_spared_within(t, rule, paths, purge, nodes.drop_last());
    }
}

impl TreeV {
    /// Whether a container lies beneath the payload of an annotation that a reader may not
    /// read whole.
    pub open spec fn beneath_hidden<R: ReadRule>(self, rule: &R, x: ElementId) -> bool {
        let c = self.read_cut(rule);
        c.tree.payloads_of(
            self.paths().dom(),
            c.tree.hidden_ranged(rule, self.paths(), c.purge),
        ).contains(x)
    }

    /// Whether a projection withholds a container: some level of its path may not be read,
    /// it is the tally of such a path, or it lies beneath an annotation that is withheld.
    pub open spec fn withheld<R: ReadRule>(self, rule: &R, x: ElementId) -> bool {
        unreadable(rule, self.paths()).contains(x) || tally_withheld(self, rule, x)
            || self.beneath_hidden(rule, x)
    }

    /// Whether a reader is served a slot: what it holds is a container that is not
    /// withheld, or a leaf at a path that may be read.
    pub open spec fn slot_open<R: ReadRule>(self, rule: &R, map: ElementId, key: Seq<u8>) -> bool {
        match live_value(self.slot(map, key)) {
            Some(e) if e.is_container() => !self.withheld(rule, e.opt_id()->Some_0),
            _ => rule.reads_at(self.paths()[map].push(key)),
        }
    }
}

/// Everything readable is kept: a container that no rule withholds stays in a projection,
/// and so does every slot of a kept map that holds such a container or is a leaf at a path
/// the reader may read, with what it holds.
pub proof fn law_everything_readable_is_kept<R: ReadRule>(
    d: DocV,
    rule: &R,
    recipient: Option<ClientId>,
    x: ElementId,
    key: Seq<u8>,
)
    requires
        d.tree.maps.dom().finite(),
        !d.tree.withheld(rule, x),
    ensures
        ({
            let s = d.tree;
            let t = d.projected_reads(rule, recipient).tree;
            &&& s.maps.dom().contains(x) ==> t.maps.dom().contains(x)
            &&& s.lists.dom().contains(x) ==> t.lists.dom().contains(x)
            &&& s.texts.dom().contains(x) ==> t.texts.dom().contains(x)
            &&& s.counters.dom().contains(x) ==> t.counters.dom().contains(x)
            &&& s.xml_elements.dom().contains(x) ==> t.xml_elements.dom().contains(x)
            &&& s.xml_fragments.dom().contains(x) ==> t.xml_fragments.dom().contains(x)
            &&& s.maps.dom().contains(x) && s.maps[x].slots.dom().contains(key) && s.slot_open(
                rule,
                x,
                key,
            ) ==> t.maps[x].slots.dom().contains(key) && t.maps[x].slots[key]
                == s.maps[x].slots[key]
        }),
{
    let t = d.tree;
    let paths = t.paths();
    let s = t.read_scope(rule);
    let out = d.projected_reads(rule, recipient);
    lemma_refolded_keeps(s.tree);
    let e = DocV {
        tree: s.tree.refolded(),
        buffer: Seq::empty(),
        resolved: Set::empty(),
        seen: d.published(recipient),
        ..d
    };
    lemma_scrubbed_keeps(e, recipient);
    assert(out.tree.contents() == s.tree.contents());
    lemma_same_doms(out.tree, s.tree);
    let nodes = ordered::<ElementId>(t.placements.dom());
    let first = unreadable(rule, paths);
    let c0 = CutV { tree: t, purge: t.spared(rule, paths, first, nodes), leaf: false };
    let maps = ordered::<ElementId>(t.maps.dom());
    lemma_ordered_exists::<ElementId>(t.maps.dom());
    assert(maps.no_duplicates()) by {
        assert forall|i: int, j: int| 0 <= i < maps.len() && 0 <= j < maps.len() && i != j implies
            maps[i] != maps[j] by {
            if i < j {
                lemma_rises_apart(maps, i, j);
            } else {
                lemma_rises_apart(maps, j, i);
            }
        }
    }
    assert forall|i: int| 0 <= i < maps.len() implies t.maps.dom().contains(#[trigger] maps[i]) by {
        assert(maps.to_set().contains(maps[i]));
    }
    lemma_maps_keep(t, rule, c0, maps);
    lemma_spared_within(t, rule, paths, first, nodes);
    let c = t.read_cut(rule);
    assert(c == c0.cut_maps(rule, paths, maps)) by {
        reveal(TreeV::read_cut);
    }
    reveal(TreeV::read_scope);
    reveal(TreeV::replaced);
    let hidden = c.tree.hidden_ranged(rule, paths, c.purge);
    let purge = c.purge.union(c.tree.payloads_of(paths.dom(), hidden));
    assert forall|y: ElementId| !t.withheld(rule, y) implies !#[trigger] purge.contains(y) by {}
    assert(!purge.contains(x));
    let t1 = c.tree.purged(purge).emptied(rule, paths);
    assert(s.tree.maps == t1.maps && s.tree.lists.dom() == t1.lists.dom());
    assert(t1.lists.dom() =~= c.tree.purged(purge).lists.dom());
    if t.maps.dom().contains(x) && t.maps[x].slots.dom().contains(key) {
        assert(s.tree.maps[x] == c.tree.maps[x]);
        assert(c.tree.maps[x].slots.submap_of(t.maps[x].slots));
        if !c.tree.maps[x].slots.dom().contains(key) {
            assert(slot_withheld(t, rule, paths[x], x, key, c.purge));
        }
        assert(out.tree.maps.dom().contains(x));
        assert(out.tree.maps[x].slots == s.tree.maps[x].slots);
        if t.slot_open(rule, x, key) {
            assert(c.tree.maps[x].slots.dom().contains(key));
            assert(c.tree.maps[x].slots[key] == t.maps[x].slots[key]);
        }
    }
    assert(t.lists.dom().contains(x) ==> s.tree.lists.dom().contains(x));
}

} // verus!
