//! A migrated slot and a migrated op agree: what an op does at a renamed key is the same
//! whether the op is carried over or the slot it wrote is.

use crate::clientid::ClientId;
use crate::counter::{tallies_dec, tallies_inc, tallies_plus, tally_of, wrap_add, Tally};
use crate::element::ElementV;
use crate::elementid::{derived_id, ElementId, ElementKind};
use crate::map::{
    live_value, slot_at, slot_delete, slot_put, slot_set, slot_set_register, slot_wins, SlotV,
};
use crate::migrate::{LeafMoveV, MigV, SlotFateV, SlotMoveV, SlotRule};
use crate::register::RegisterV;
use crate::scalar::ScalarV;
use crate::stamp::{law_stamp_order_is_total, stamp_lt, Stamp};
use crate::table::{lemma_ordered_exists, ordered, Key};
use crate::tree::TreeV;
use vstd::prelude::*;

verus! {

/// Whether a slot is a leaf's: a scalar or a tombstone, with no container behind it.
pub open spec fn is_leaf_slot(s: SlotV) -> bool {
    s.container is None && (s.value is None || s.value matches Some(ElementV::Scalar(_)))
}

/// A slot carried over to a renamed key, onto what is there.
pub open spec fn carried_over(there: Option<SlotV>, s: SlotV) -> SlotV {
    slot_put(there, s.value, s.stamp)
}

/// A scalar set at a key and carried over with its slot lands as the set translated to the
/// new key does, whichever of the two is there first.
pub proof fn law_a_renamed_set_lands_alike(
    there: Option<SlotV>,
    here: Option<SlotV>,
    value: ScalarV,
    stamp: Stamp,
)
    requires
        there matches Some(s) ==> s.stamp != stamp,
        here matches Some(s) ==> is_leaf_slot(s) && s.stamp != stamp,
        there matches Some(s) ==> (here matches Some(t) ==> s.stamp != t.stamp),
    ensures
        carried_over(there, slot_set(here, ElementV::Scalar(value), stamp)) == slot_set(
            match here {
                Some(s) => Some(carried_over(there, s)),
                None => there,
            },
            ElementV::Scalar(value),
            stamp,
        ),
{
}

/// A delete at a key, carried over with its slot, lands as the delete translated to the
/// new key does.
pub proof fn law_a_renamed_delete_lands_alike(
    there: Option<SlotV>,
    here: Option<SlotV>,
    stamp: Stamp,
)
    requires
        there matches Some(s) ==> s.stamp != stamp,
        here matches Some(s) ==> is_leaf_slot(s) && s.stamp != stamp,
        there matches Some(s) ==> (here matches Some(t) ==> s.stamp != t.stamp),
    ensures
        carried_over(there, slot_delete(here, stamp)) == slot_delete(
            match here {
                Some(s) => Some(carried_over(there, s)),
                None => there,
            },
            stamp,
        ),
{
}

proof fn lemma_wrap(a: u32, b: u32, c: u32)
    ensures
        wrap_add(a, wrap_add(b, c)) == wrap_add(wrap_add(a, b), c),
{
}

/// A count at a key, carried over with its tallies, adds up as the count translated to the
/// new key does.
pub proof fn law_a_renamed_count_lands_alike(
    there: Map<ClientId, Tally>,
    here: Map<ClientId, Tally>,
    client: ClientId,
    amount: u32,
)
    ensures
        tallies_plus(there, tallies_inc(here, client, amount)) == tallies_inc(
            tallies_plus(there, here),
            client,
            amount,
        ),
        tallies_plus(there, tallies_dec(here, client, amount)) == tallies_dec(
            tallies_plus(there, here),
            client,
            amount,
        ),
{
    let a = tally_of(there, client);
    let b = tally_of(here, client);
    lemma_wrap(a.inc, b.inc, amount);
    lemma_wrap(a.dec, b.dec, amount);
    assert(tallies_plus(there, tallies_inc(here, client, amount)) =~= tallies_inc(
        tallies_plus(there, here),
        client,
        amount,
    ));
    assert(tallies_plus(there, tallies_dec(here, client, amount)) =~= tallies_dec(
        tallies_plus(there, here),
        client,
        amount,
    ));
}

// --- a whole map ---

/// Whether a slot is a leaf's that a migration carries whole: a scalar, a register or a
/// tombstone, with no container behind it.
pub open spec fn is_leaf(s: SlotV) -> bool {
    s.container is None && match s.value {
        None => true,
        Some(ElementV::Scalar(_)) => true,
        Some(ElementV::Register(_)) => true,
        _ => false,
    }
}

/// Whether a map holds only leaves, each written at a stamp of its own, and no key of it
/// ever named a container or a counter.
pub open spec fn leafy(t: TreeV, map: ElementId) -> bool {
    &&& t.maps.dom().contains(map)
    &&& t.maps[map].slots.dom().finite()
    &&& forall|k: Seq<u8>| #[trigger]
        t.maps[map].slots.dom().contains(k) ==> is_leaf(t.maps[map].slots[k])
    &&& forall|j: Seq<u8>, k: Seq<u8>|
        j != k && #[trigger] t.maps[map].slots.dom().contains(j)
            && #[trigger] t.maps[map].slots.dom().contains(k) ==> t.maps[map].slots[j].stamp
            != t.maps[map].slots[k].stamp
    &&& forall|k: Seq<u8>| !#[trigger] t.has_container_at(map, k)
    &&& forall|k: Seq<u8>|
        !t.counters.dom().contains(#[trigger] derived_id(map, k, ElementKind::Counter))
}

/// Where a key's slot goes.
pub open spec fn lands_at<R: SlotRule>(rule: &R, map: ElementId, key: Seq<u8>) -> Option<Seq<u8>> {
    match rule.fate_of(map, key) {
        SlotFateV::Keep => Some(key),
        SlotFateV::Rename(to) => Some(to),
        SlotFateV::Drop => None,
    }
}

/// A leaf as it goes: a register that is renamed takes the id the new key gives it.
pub open spec fn sent_value<R: SlotRule>(
    rule: &R,
    map: ElementId,
    key: Seq<u8>,
    value: Option<ElementV>,
) -> Option<ElementV> {
    match (rule.fate_of(map, key), value) {
        (SlotFateV::Rename(to), Some(ElementV::Register(r))) => Some(
            ElementV::Register(RegisterV { id: derived_id(map, to, ElementKind::Register), ..r }),
        ),
        (_, v) => v,
    }
}

/// A leaf slot after a write: the later of the two.
pub open spec fn later_of(slot: Option<SlotV>, value: Option<ElementV>, stamp: Stamp) -> SlotV {
    if slot_wins(slot, stamp) {
        SlotV { stamp, value, container: None }
    } else {
        slot->Some_0
    }
}

/// Whether a key's slot is among those already placed: it stays, or is among some keys.
spec fn among<R: SlotRule>(
    slots: Map<Seq<u8>, SlotV>,
    rule: &R,
    map: ElementId,
    keys: Seq<Seq<u8>>,
    k: Seq<u8>,
) -> bool {
    slots.dom().contains(k) && (rule.fate_of(map, k) is Keep || keys.contains(k))
}

/// Whether a key's slot is the latest of those that go to one place.
spec fn best<R: SlotRule>(
    slots: Map<Seq<u8>, SlotV>,
    rule: &R,
    map: ElementId,
    keys: Seq<Seq<u8>>,
    to: Seq<u8>,
    k: Seq<u8>,
) -> bool {
    &&& among(slots, rule, map, keys, k)
    &&& lands_at(rule, map, k) == Some(to)
    &&& forall|j: Seq<u8>| #[trigger]
        among(slots, rule, map, keys, j) && lands_at(rule, map, j) == Some(to) && j != k
            ==> stamp_lt(slots[j].stamp, slots[k].stamp)
}

/// Whether a place holds the latest of the slots that go there.
spec fn placed_right<R: SlotRule>(
    slots: Map<Seq<u8>, SlotV>,
    rule: &R,
    map: ElementId,
    keys: Seq<Seq<u8>>,
    r: Map<Seq<u8>, SlotV>,
    to: Seq<u8>,
) -> bool {
    if r.dom().contains(to) {
        exists|k: Seq<u8>| #[trigger]
            best(slots, rule, map, keys, to, k) && r[to] == (SlotV {
                stamp: slots[k].stamp,
                value: sent_value(rule, map, k, slots[k].value),
                container: None,
            })
    } else {
        forall|k: Seq<u8>| #[trigger]
            among(slots, rule, map, keys, k) ==> lands_at(rule, map, k) != Some(to)
    }
}

/// What is on its way once some keys' fates are carried out.
spec fn leaf_moves<R: SlotRule>(
    slots: Map<Seq<u8>, SlotV>,
    rule: &R,
    map: ElementId,
    keys: Seq<Seq<u8>>,
) -> Seq<LeafMoveV>
    decreases keys.len(),
{
    if keys.len() == 0 {
        Seq::empty()
    } else {
        let rest = leaf_moves(slots, rule, map, keys.drop_last());
        let k = keys.last();
        match rule.fate_of(map, k) {
            SlotFateV::Rename(to) => rest.push(
                LeafMoveV {
                    to,
                    counter: None,
                    slot: Some(SlotMoveV { stamp: slots[k].stamp, value: slots[k].value }),
                },
            ),
            _ => rest,
        }
    }
}

/// Taking a leafy map apart leaves what stays, with what is renamed on its way.
#[verifier::spinoff_prover]
proof fn lemma_apart<R: SlotRule>(t: TreeV, rule: &R, map: ElementId, keys: Seq<Seq<u8>>)
    requires
        leafy(t, map),
        keys.no_duplicates(),
        forall|i: int| 0 <= i < keys.len() ==> t.maps[map].slots.dom().contains(#[trigger] keys[i]),
    ensures
        ({
            let m = (MigV { tree: t, moved: Seq::empty(), back: Seq::empty(), changed: false })
                .with_fates(rule, map, keys);
            let slots = t.maps[map].slots;
            &&& m.back.len() == 0
            &&& m.moved == leaf_moves(slots, rule, map, keys)
            &&& m.tree == (TreeV { maps: m.tree.maps, ..t })
            &&& m.tree.maps.dom() == t.maps.dom()
            &&& m.tree.maps[map].slots.submap_of(slots)
            &&& forall|k: Seq<u8>| #[trigger]
                m.tree.maps[map].slots.dom().contains(k) <==> slots.dom().contains(k) && !(
                keys.contains(k) && !(rule.fate_of(map, k) is Keep))
        }),
    decreases keys.len(),
{
    let start = MigV { tree: t, moved: Seq::empty(), back: Seq::empty(), changed: false };
    let slots = t.maps[map].slots;
    let m = start.with_fates(rule, map, keys);
    if keys.len() == 0 {
        assert forall|k: Seq<u8>| !#[trigger] keys.contains(k) by {}
        assert(m.back.len() == 0);
        assert(m.tree == (TreeV { maps: m.tree.maps, ..t }));
    } else {
        let h = keys.drop_last();
        let k = keys.last();
        assert forall|i: int| 0 <= i < h.len() implies slots.dom().contains(#[trigger] h[i]) by {
            assert(h[i] == keys[i]);
        }
        assert(keys[keys.len() - 1] == k);
        lemma_apart(t, rule, map, h);
        let a = start.with_fates(rule, map, h);
        assert(!h.contains(k)) by {
            if h.contains(k) {
                assert(keys[h.index_of(k)] == keys[keys.len() - 1]);
            }
        }
        assert forall|x: Seq<u8>| #[trigger] keys.contains(x) <==> h.contains(x) || x == k by {
            if h.contains(x) {
                assert(keys[h.index_of(x)] == x);
            }
            if keys.contains(x) && x != k {
                assert(h[keys.index_of(x)] == x);
            }
        }
        let u = a.tree;
        assert(u.maps[map].slots.dom().contains(k));
        assert(u.slot(map, k) == Some(slots[k]));
        assert(is_leaf(slots[k]));
        let id = derived_id(map, k, ElementKind::Counter);
        assert(!u.counters.dom().contains(id));
        assert(u.without_counter(id) == u) by {
            assert(u.counters.remove(id) =~= u.counters);
        }
        assert(u.buried_at(map, k) is None);
        assert(!u.is_carried(map, k)) by {
            assert(!t.has_container_at(map, k));
            assert(u.maps.dom() == t.maps.dom());
            assert(u.has_container_at(map, k) == t.has_container_at(map, k));
        }
        assert(u.without_slot(map, k).without_counter(id) == u.without_slot(map, k)) by {
            assert(u.without_slot(map, k).counters.remove(id) =~= u.counters);
        }
        assert(u.without_slot(map, k).maps.dom() =~= u.maps.dom());
        assert(u.tally_at(map, k, true) is None);
        reveal(MigV::with_drop);
        reveal(MigV::with_rename);
        assert(m == a.with_fate(map, k, rule.fate_of(map, k)));
        match rule.fate_of(map, k) {
            SlotFateV::Keep => {},
            SlotFateV::Drop => {
                assert(m.tree == u.without_slot(map, k));
            },
            SlotFateV::Rename(to) => {
                assert(m.tree == u.without_slot(map, k));
            },
        }
    }
}

/// What lands puts the latest of what goes to each place there.
#[verifier::spinoff_prover]
proof fn lemma_land<R: SlotRule>(
    t: TreeV,
    base: TreeV,
    rule: &R,
    map: ElementId,
    keys: Seq<Seq<u8>>,
)
    requires
        leafy(t, map),
        base.maps.dom().contains(map),
        base.maps[map].slots.submap_of(t.maps[map].slots),
        forall|k: Seq<u8>| #[trigger]
            base.maps[map].slots.dom().contains(k) <==> t.maps[map].slots.dom().contains(k)
                && rule.fate_of(map, k) is Keep,
        keys.no_duplicates(),
        forall|i: int| 0 <= i < keys.len() ==> t.maps[map].slots.dom().contains(#[trigger] keys[i]),
    ensures
        ({
            let u = base.landed_all(map, leaf_moves(t.maps[map].slots, rule, map, keys));
            &&& u.maps.dom().contains(map)
            &&& forall|to: Seq<u8>| #[trigger]
                placed_right(t.maps[map].slots, rule, map, keys, u.maps[map].slots, to)
        }),
    decreases keys.len(),
{
    let slots = t.maps[map].slots;
    let u = base.landed_all(map, leaf_moves(slots, rule, map, keys));
    let r = u.maps[map].slots;
    if keys.len() == 0 {
        assert(u == base);
        assert forall|to: Seq<u8>| placed_right(slots, rule, map, keys, r, to) by {
            if r.dom().contains(to) {
                assert(r[to] == slots[to]);
                assert(is_leaf(slots[to]));
                assert(best(slots, rule, map, keys, to, to));
            }
        }
    } else {
        let h = keys.drop_last();
        let k = keys.last();
        assert forall|i: int| 0 <= i < h.len() implies slots.dom().contains(#[trigger] h[i]) by {
            assert(h[i] == keys[i]);
        }
        assert(keys[keys.len() - 1] == k);
        lemma_land(t, base, rule, map, h);
        let a = base.landed_all(map, leaf_moves(slots, rule, map, h));
        let x = a.maps[map].slots;
        assert(!h.contains(k)) by {
            if h.contains(k) {
                assert(keys[h.index_of(k)] == keys[keys.len() - 1]);
            }
        }
        assert forall|j: Seq<u8>| #[trigger] keys.contains(j) <==> h.contains(j) || j == k by {
            if h.contains(j) {
                assert(keys[h.index_of(j)] == j);
            }
            if keys.contains(j) && j != k {
                assert(h[keys.index_of(j)] == j);
            }
        }
        assert forall|j: Seq<u8>| #[trigger] among(slots, rule, map, keys, j) <==> among(
            slots,
            rule,
            map,
            h,
            j,
        ) || j == k by {}
        if let SlotFateV::Rename(dest) = rule.fate_of(map, k) {
            let moves = leaf_moves(slots, rule, map, keys);
            assert(moves.drop_last() =~= leaf_moves(slots, rule, map, h));
            let v = sent_value(rule, map, k, slots[k].value);
            assert(is_leaf(slots[k]));
            assert(placed_right(slots, rule, map, h, x, dest));
            assert(x.dom().contains(dest) ==> is_leaf(x[dest])) by {
                if x.dom().contains(dest) {
                    let w = choose|w: Seq<u8>| #[trigger]
                        best(slots, rule, map, h, dest, w) && x[dest] == (SlotV {
                            stamp: slots[w].stamp,
                            value: sent_value(rule, map, w, slots[w].value),
                            container: None,
                        });
                    assert(is_leaf(slots[w]));
                }
            }
            lemma_leaf_put(a, map, dest, slots[k].stamp, v);
            assert(u == a.put_slot(map, dest, slots[k].stamp, v)) by {
                reveal(TreeV::with_landed);
            }
            assert(r == x.insert(dest, later_of(slot_at(x, dest), v, slots[k].stamp)));
            assert forall|to: Seq<u8>| placed_right(slots, rule, map, keys, r, to) by {
                lemma_land_one(slots, rule, map, h, keys, k, dest, x, r, to);
            }
        } else {
            assert(u == a);
            assert forall|to: Seq<u8>| placed_right(slots, rule, map, keys, r, to) by {
                assert(placed_right(slots, rule, map, h, x, to));
                if r.dom().contains(to) {
                    let w = choose|w: Seq<u8>| #[trigger]
                        best(slots, rule, map, h, to, w) && x[to] == (SlotV {
                            stamp: slots[w].stamp,
                            value: sent_value(rule, map, w, slots[w].value),
                            container: None,
                        });
                    assert forall|j: Seq<u8>| #[trigger]
                        among(slots, rule, map, keys, j) && lands_at(rule, map, j) == Some(to) && j
                            != w implies stamp_lt(slots[j].stamp, slots[w].stamp) by {
                        assert(among(slots, rule, map, h, j));
                    }
                    assert(among(slots, rule, map, h, w));
                    assert(among(slots, rule, map, keys, w));
                    assert(best(slots, rule, map, keys, to, w));
                } else {
                    assert forall|j: Seq<u8>| #[trigger]
                        among(slots, rule, map, keys, j) implies lands_at(rule, map, j)
                        != Some(to) by {
                        if lands_at(rule, map, j) == Some(to) {
                            assert(among(slots, rule, map, h, j));
                        }
                    }
                }
            }
        }
    }
}

/// A leaf that lands on a leaf.
proof fn lemma_leaf_put(t: TreeV, map: ElementId, to: Seq<u8>, stamp: Stamp, v: Option<ElementV>)
    requires
        t.maps.dom().contains(map),
        t.maps[map].slots.dom().contains(to) ==> is_leaf(t.maps[map].slots[to]),
        is_leaf(SlotV { stamp, value: v, container: None }),
    ensures
        t.put_slot(map, to, stamp, v).maps.dom().contains(map),
        t.put_slot(map, to, stamp, v).maps[map].slots == t.maps[map].slots.insert(
            to,
            later_of(slot_at(t.maps[map].slots, to), v, stamp),
        ),
{
    reveal(TreeV::with_displaced);
    reveal(TreeV::with_evicted);
}

#[verifier::spinoff_prover]
proof fn lemma_land_one<R: SlotRule>(
    slots: Map<Seq<u8>, SlotV>,
    rule: &R,
    map: ElementId,
    h: Seq<Seq<u8>>,
    keys: Seq<Seq<u8>>,
    k: Seq<u8>,
    dest: Seq<u8>,
    x: Map<Seq<u8>, SlotV>,
    r: Map<Seq<u8>, SlotV>,
    to: Seq<u8>,
)
    requires
        slots.dom().contains(k),
        rule.fate_of(map, k) == SlotFateV::Rename(dest),
        !among(slots, rule, map, h, k),
        forall|j: Seq<u8>| #[trigger]
            among(slots, rule, map, keys, j) <==> among(slots, rule, map, h, j) || j == k,
        forall|i: Seq<u8>, j: Seq<u8>|
            i != j && #[trigger] slots.dom().contains(i) && #[trigger] slots.dom().contains(j)
                ==> slots[i].stamp != slots[j].stamp,
        placed_right(slots, rule, map, h, x, to),
        r == x.insert(
            dest,
            later_of(
                slot_at(x, dest),
                sent_value(rule, map, k, slots[k].value),
                slots[k].stamp,
            ),
        ),
    ensures
        placed_right(slots, rule, map, keys, r, to),
{
    if x.dom().contains(to) {
        let w = choose|w: Seq<u8>| #[trigger]
            best(slots, rule, map, h, to, w) && x[to] == (SlotV {
                stamp: slots[w].stamp,
                value: sent_value(rule, map, w, slots[w].value),
                container: None,
            });
        assert(among(slots, rule, map, h, w));
        assert(w != k);
        if to == dest && stamp_lt(slots[w].stamp, slots[k].stamp) {
            assert forall|j: Seq<u8>| #[trigger]
                among(slots, rule, map, keys, j) && lands_at(rule, map, j) == Some(to) && j != k
                implies stamp_lt(slots[j].stamp, slots[k].stamp) by {
                if j != w {
                    law_stamp_order_is_total(slots[j].stamp, slots[w].stamp, slots[k].stamp);
                }
            }
            assert(among(slots, rule, map, keys, k));
            assert(best(slots, rule, map, keys, to, k));
        } else {
            if to == dest {
                law_stamp_order_is_total(slots[w].stamp, slots[k].stamp, slots[w].stamp);
                assert(slots.dom().contains(w) && slots.dom().contains(k));
                assert(stamp_lt(slots[k].stamp, slots[w].stamp));
            }
            assert(among(slots, rule, map, keys, w));
            assert forall|j: Seq<u8>| #[trigger]
                among(slots, rule, map, keys, j) && lands_at(rule, map, j) == Some(to) && j != w
                implies stamp_lt(slots[j].stamp, slots[w].stamp) by {
                if j != k {
                    assert(among(slots, rule, map, h, j));
                }
            }
            assert(best(slots, rule, map, keys, to, w));
        }
    } else if to == dest {
        assert(among(slots, rule, map, keys, k));
        assert forall|j: Seq<u8>| #[trigger]
            among(slots, rule, map, keys, j) && lands_at(rule, map, j) == Some(to) && j != k
            implies stamp_lt(slots[j].stamp, slots[k].stamp) by {
            assert(among(slots, rule, map, h, j));
        }
        assert(best(slots, rule, map, keys, to, k));
    } else {
        assert forall|j: Seq<u8>| #[trigger] among(slots, rule, map, keys, j) implies lands_at(
            rule,
            map,
            j,
        ) != Some(to) by {
            if j != k {
                assert(among(slots, rule, map, h, j));
            }
        }
    }
}

/// A migrated leafy map holds, at each key, the latest of what goes there.
#[verifier::spinoff_prover]
proof fn lemma_migrated<R: SlotRule>(t: TreeV, rule: &R, map: ElementId, to: Seq<u8>)
    requires
        leafy(t, map),
    ensures
        placed_right(
            t.maps[map].slots,
            rule,
            map,
            ordered::<Vec<u8>>(t.maps[map].slots.dom()),
            t.map_migrated(rule, map).maps[map].slots,
            to,
        ),
        forall|k: Seq<u8>| #[trigger]
            among(
                t.maps[map].slots,
                rule,
                map,
                ordered::<Vec<u8>>(t.maps[map].slots.dom()),
                k,
            ) <==> t.maps[map].slots.dom().contains(k),
{
    let slots = t.maps[map].slots;
    let keys = ordered::<Vec<u8>>(slots.dom());
    lemma_ordered_exists::<Vec<u8>>(slots.dom());
    assert forall|i: int| 0 <= i < keys.len() implies slots.dom().contains(#[trigger] keys[i]) by {
        assert(keys.to_set().contains(keys[i]));
    }
    assert forall|k: Seq<u8>| #[trigger] keys.contains(k) <==> slots.dom().contains(k) by {
        assert(keys.to_set().contains(k) <==> slots.dom().contains(k));
    }
    assert(keys.no_duplicates()) by {
        assert forall|i: int, j: int| 0 <= i < keys.len() && 0 <= j < keys.len() && i != j implies
            keys[i] != keys[j] by {
            <Vec<u8> as Key>::before_total(keys[i], keys[j]);
            <Vec<u8> as Key>::before_total(keys[j], keys[i]);
            if i < j {
                assert(<Vec<u8> as Key>::before(keys[i], keys[j]));
            } else {
                assert(<Vec<u8> as Key>::before(keys[j], keys[i]));
            }
        }
    }
    lemma_apart(t, rule, map, keys);
    let m = t.taken_apart(rule, map);
    lemma_land(t, m.tree, rule, map, keys);
    assert(m.tree.landed_all(map, m.moved).resurrected_all(map, m.back) == m.tree.landed_all(
        map,
        m.moved,
    ));
}

/// There is one latest slot.
proof fn lemma_best_once<R: SlotRule>(
    slots: Map<Seq<u8>, SlotV>,
    rule: &R,
    map: ElementId,
    keys: Seq<Seq<u8>>,
    r: Map<Seq<u8>, SlotV>,
    to: Seq<u8>,
    k: Seq<u8>,
)
    requires
        placed_right(slots, rule, map, keys, r, to),
        best(slots, rule, map, keys, to, k),
    ensures
        r.dom().contains(to),
        r[to] == (SlotV {
            stamp: slots[k].stamp,
            value: sent_value(rule, map, k, slots[k].value),
            container: None,
        }),
{
    assert(among(slots, rule, map, keys, k));
    let w = choose|w: Seq<u8>| #[trigger]
        best(slots, rule, map, keys, to, w) && r[to] == (SlotV {
            stamp: slots[w].stamp,
            value: sent_value(rule, map, w, slots[w].value),
            container: None,
        });
    if w != k {
        assert(among(slots, rule, map, keys, w));
        law_stamp_order_is_total(slots[w].stamp, slots[k].stamp, slots[w].stamp);
    }
}

/// A write to a map of leaves agrees with its migration: a map that takes a write and is
/// then migrated is the map migrated that then takes the write carried over to where its
/// key goes, or nothing where its key is dropped.
#[verifier::spinoff_prover]
pub proof fn law_a_migrated_map_takes_writes_alike<R: SlotRule>(
    t: TreeV,
    u: TreeV,
    rule: &R,
    map: ElementId,
    key: Seq<u8>,
    value: Option<ElementV>,
    stamp: Stamp,
)
    requires
        leafy(t, map),
        leafy(u, map),
        u.maps[map].slots == t.maps[map].slots.insert(
            key,
            later_of(slot_at(t.maps[map].slots, key), value, stamp),
        ),
    ensures
        ({
            let a = t.map_migrated(rule, map).maps[map].slots;
            let b = u.map_migrated(rule, map).maps[map].slots;
            match lands_at(rule, map, key) {
                None => b == a,
                Some(to) => b == a.insert(
                    to,
                    later_of(slot_at(a, to), sent_value(rule, map, key, value), stamp),
                ),
            }
        }),
{
    let s = t.maps[map].slots;
    let n = u.maps[map].slots;
    let a = t.map_migrated(rule, map).maps[map].slots;
    let b = u.map_migrated(rule, map).maps[map].slots;
    let at = lands_at(rule, map, key);
    let ka = ordered::<Vec<u8>>(s.dom());
    let kb = ordered::<Vec<u8>>(n.dom());
    let v = sent_value(rule, map, key, value);
    let want = match at {
        None => a,
        Some(to) => a.insert(to, later_of(slot_at(a, to), v, stamp)),
    };
    assert forall|to: Seq<u8>| b.dom().contains(to) == want.dom().contains(to) && (b.dom().contains(
        to,
    ) ==> #[trigger] b[to] == want[to]) by {
        lemma_migrated(t, rule, map, to);
        lemma_migrated(u, rule, map, to);
        if a.dom().contains(to) {
            let w = choose|w: Seq<u8>| #[trigger]
                best(s, rule, map, ka, to, w) && a[to] == (SlotV {
                    stamp: s[w].stamp,
                    value: sent_value(rule, map, w, s[w].value),
                    container: None,
                });
            assert(among(s, rule, map, ka, w));
            assert(n.dom().contains(w));
            assert(among(n, rule, map, kb, w));
            if at != Some(to) {
                assert(w != key);
                assert(best(n, rule, map, kb, to, w)) by {
                    assert forall|j: Seq<u8>| #[trigger]
                        among(n, rule, map, kb, j) && lands_at(rule, map, j) == Some(to) && j != w
                        implies stamp_lt(n[j].stamp, n[w].stamp) by {
                        assert(among(s, rule, map, ka, j));
                    }
                }
                lemma_best_once(n, rule, map, kb, b, to, w);
            } else {
                lemma_latest_after(t, u, rule, map, key, value, stamp, to, w);
            }
        } else {
            if at == Some(to) {
                assert(!s.dom().contains(key)) by {
                    if s.dom().contains(key) {
                        assert(among(s, rule, map, ka, key));
                    }
                }
                assert(n.dom().contains(key));
                assert(among(n, rule, map, kb, key));
                assert(best(n, rule, map, kb, to, key)) by {
                    assert forall|j: Seq<u8>| #[trigger]
                        among(n, rule, map, kb, j) && lands_at(rule, map, j) == Some(to) && j != key
                        implies stamp_lt(n[j].stamp, n[key].stamp) by {
                        assert(among(s, rule, map, ka, j));
                    }
                }
                lemma_best_once(n, rule, map, kb, b, to, key);
            } else if b.dom().contains(to) {
                let w = choose|w: Seq<u8>| #[trigger]
                    best(n, rule, map, kb, to, w) && b[to] == (SlotV {
                        stamp: n[w].stamp,
                        value: sent_value(rule, map, w, n[w].value),
                        container: None,
                    });
                assert(among(n, rule, map, kb, w));
                assert(w != key);
                assert(among(s, rule, map, ka, w));
            }
        }
    }
    assert forall|to: Seq<u8>| #[trigger] b.dom().contains(to) == want.dom().contains(to) by {
        let y = b[to];
    }
    assert(b =~= want);
}

/// The latest slot at a place that takes one more write.
#[verifier::spinoff_prover]
proof fn lemma_latest_after<R: SlotRule>(
    t: TreeV,
    u: TreeV,
    rule: &R,
    map: ElementId,
    key: Seq<u8>,
    value: Option<ElementV>,
    stamp: Stamp,
    to: Seq<u8>,
    w: Seq<u8>,
)
    requires
        leafy(t, map),
        leafy(u, map),
        u.maps[map].slots == t.maps[map].slots.insert(
            key,
            later_of(slot_at(t.maps[map].slots, key), value, stamp),
        ),
        lands_at(rule, map, key) == Some(to),
        best(
            t.maps[map].slots,
            rule,
            map,
            ordered::<Vec<u8>>(t.maps[map].slots.dom()),
            to,
            w,
        ),
        t.map_migrated(rule, map).maps[map].slots.dom().contains(to),
        t.map_migrated(rule, map).maps[map].slots[to] == (SlotV {
            stamp: t.maps[map].slots[w].stamp,
            value: sent_value(rule, map, w, t.maps[map].slots[w].value),
            container: None,
        }),
    ensures
        u.map_migrated(rule, map).maps[map].slots.dom().contains(to),
        u.map_migrated(rule, map).maps[map].slots[to] == later_of(
            slot_at(t.map_migrated(rule, map).maps[map].slots, to),
            sent_value(rule, map, key, value),
            stamp,
        ),
{
    let s = t.maps[map].slots;
    let n = u.maps[map].slots;
    let b = u.map_migrated(rule, map).maps[map].slots;
    let ka = ordered::<Vec<u8>>(s.dom());
    let kb = ordered::<Vec<u8>>(n.dom());
    lemma_migrated(t, rule, map, to);
    lemma_migrated(u, rule, map, to);
    assert(among(s, rule, map, ka, w));
    assert(n.dom().contains(w) && n.dom().contains(key));
    assert(among(n, rule, map, kb, w) && among(n, rule, map, kb, key));
    let old_wins = s.dom().contains(key) && !stamp_lt(s[key].stamp, stamp);
    if s.dom().contains(key) {
        assert(among(s, rule, map, ka, key));
        if w != key {
            assert(stamp_lt(s[key].stamp, s[w].stamp));
        }
    }
    if !old_wins && stamp_lt(s[w].stamp, stamp) {
        assert(n[key].stamp == stamp);
        assert(best(n, rule, map, kb, to, key)) by {
            assert forall|j: Seq<u8>| #[trigger]
                among(n, rule, map, kb, j) && lands_at(rule, map, j) == Some(to) && j != key
                implies stamp_lt(n[j].stamp, n[key].stamp) by {
                assert(among(s, rule, map, ka, j));
                if j != w {
                    law_stamp_order_is_total(s[j].stamp, s[w].stamp, stamp);
                }
            }
        }
        lemma_best_once(n, rule, map, kb, b, to, key);
    } else {
        if old_wins {
            assert(n =~= s);
            law_stamp_order_is_total(s[w].stamp, stamp, s[w].stamp);
            law_stamp_order_is_total(s[key].stamp, s[w].stamp, stamp);
            assert(!stamp_lt(s[w].stamp, stamp));
        } else {
            assert(w != key);
            assert(n[w].stamp != n[key].stamp);
            law_stamp_order_is_total(s[w].stamp, stamp, s[w].stamp);
            assert(stamp_lt(stamp, s[w].stamp));
        }
        assert(best(n, rule, map, kb, to, w)) by {
            assert forall|j: Seq<u8>| #[trigger]
                among(n, rule, map, kb, j) && lands_at(rule, map, j) == Some(to) && j != w
                implies stamp_lt(n[j].stamp, n[w].stamp) by {
                if j != key {
                    assert(among(s, rule, map, ka, j));
                }
            }
        }
        lemma_best_once(n, rule, map, kb, b, to, w);
    }
}

/// What a set, a delete and a register write leave of a leaf is the later of the two.
pub proof fn law_leaf_writes_keep_the_later(
    slot: Option<SlotV>,
    id: ElementId,
    value: ScalarV,
    stamp: Stamp,
)
    requires
        slot matches Some(s) ==> is_leaf(s) && s.stamp != stamp,
        live_value(slot) matches Some(ElementV::Register(r)) ==> r.id == id && r.stamp
            == slot->Some_0.stamp,
    ensures
        slot_set(slot, ElementV::Scalar(value), stamp) == later_of(
            slot,
            Some(ElementV::Scalar(value)),
            stamp,
        ),
        slot_delete(slot, stamp) == later_of(slot, None, stamp),
        slot_set_register(slot, id, value, stamp) == later_of(
            slot,
            Some(ElementV::Register(RegisterV { id, value, stamp })),
            stamp,
        ),
{
}

} // verus!
