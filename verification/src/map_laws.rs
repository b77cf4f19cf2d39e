//! What holds of every map: order of arrival does not matter, and merging is a join.

use crate::element::ElementV;
use crate::map::{
    create_lt, retained, slot_delete, slot_join, slot_set, slots_join, slots_view, spec_create_of,
    spec_higher, ContainerCreate, Slot, SlotV,
};
use crate::map_state::retains_own;
use crate::stamp::{stamp_lt, Stamp};
use crate::table::{index_of, lemma_drop_last, lemma_entry, seq_map, sorted, Key};
use vstd::prelude::*;

verus! {

/// Sorted entries whose maps agree by value agree entry by entry.
pub proof fn lemma_same_entries(a: Seq<(Vec<u8>, Slot)>, b: Seq<(Vec<u8>, Slot)>)
    requires
        sorted(a),
        sorted(b),
        slots_view(seq_map::<Vec<u8>, Slot>(a)) == slots_view(seq_map::<Vec<u8>, Slot>(b)),
    ensures
        a.len() == b.len(),
        forall|i: int| 0 <= i < a.len() ==> (#[trigger] a[i]).0@ == b[i].0@ && a[i].1@ == b[i].1@,
    decreases a.len(),
{
    let ma = seq_map::<Vec<u8>, Slot>(a);
    let mb = seq_map::<Vec<u8>, Slot>(b);
    assert(slots_view(ma).dom() =~= ma.dom());
    assert(slots_view(mb).dom() =~= mb.dom());
    if a.len() == 0 {
        if b.len() > 0 {
            lemma_entry::<Vec<u8>, Slot>(b, 0);
            assert(ma.dom().contains(b[0].0@));
        }
    } else if b.len() == 0 {
        lemma_entry::<Vec<u8>, Slot>(a, 0);
        assert(mb.dom().contains(a[0].0@));
    } else {
        let n = a.len() - 1;
        let m = b.len() - 1;
        let x = a.last();
        let y = b.last();
        lemma_entry::<Vec<u8>, Slot>(a, n);
        lemma_entry::<Vec<u8>, Slot>(b, m);
        assert(mb.dom().contains(x.0@));
        assert(ma.dom().contains(y.0@));
        let i = index_of::<Vec<u8>, Slot>(b, x.0@);
        let j = index_of::<Vec<u8>, Slot>(a, y.0@);
        assert(b[i].0@ == x.0@ && a[j].0@ == y.0@);
        <Vec<u8> as Key>::before_total(x.0@, y.0@);
        if i < m {
            assert(<Vec<u8> as Key>::before(b[i].0@, b[m].0@));
            if j < n {
                assert(<Vec<u8> as Key>::before(a[j].0@, a[n].0@));
            }
        }
        assert(x.0@ == y.0@);
        assert(slots_view(ma)[x.0@] == x.1@);
        assert(slots_view(mb)[y.0@] == y.1@);
        lemma_drop_last::<Vec<u8>, Slot>(a);
        lemma_drop_last::<Vec<u8>, Slot>(b);
        assert(slots_view(ma.remove(x.0@)) =~= slots_view(ma).remove(x.0@));
        assert(slots_view(mb.remove(x.0@)) =~= slots_view(mb).remove(x.0@));
        lemma_same_entries(a.drop_last(), b.drop_last());
        assert forall|k: int| 0 <= k < a.len() implies (#[trigger] a[k]).0@ == b[k].0@ && a[k].1@
            == b[k].1@ by {
            if k < n {
                assert(a.drop_last()[k] == a[k]);
                assert(b.drop_last()[k] == b[k]);
            }
        }
    }
}

// --- the retained create ---

/// The retained create does not depend on the order creates are seen in.
pub proof fn law_higher_is_a_join(
    a: Option<ContainerCreate>,
    b: Option<ContainerCreate>,
    c: Option<ContainerCreate>,
)
    ensures
        spec_higher(a, b) == spec_higher(b, a),
        spec_higher(spec_higher(a, b), c) == spec_higher(a, spec_higher(b, c)),
        spec_higher(a, a) == a,
{
    lemma_create_order(a, b);
    lemma_create_order(b, c);
    lemma_create_order(a, c);
}

proof fn lemma_create_order(a: Option<ContainerCreate>, b: Option<ContainerCreate>)
    ensures
        a matches Some(x) ==> b matches Some(y) ==> (create_lt(x, y) || create_lt(y, x) || x == y),
{
    if let Some(x) = a {
        if let Some(y) = b {
            if x.kind.spec_tag() == y.kind.spec_tag() {
                crate::elementid::law_kind_tags_round_trip(x.kind, 0);
                crate::elementid::law_kind_tags_round_trip(y.kind, 0);
            }
        }
    }
}

/// The create a key retains ranks at least as high as any set there.
pub proof fn law_retained_create_is_the_highest(slot: Option<SlotV>, value: ElementV, stamp: Stamp)
    ensures
        retained(slot) matches Some(c) ==> (retained(Some(slot_set(slot, value, stamp))) matches Some(
            r,
        ) && !create_lt(r, c)),
        spec_create_of(Some(value), stamp) matches Some(c) ==> (retained(
            Some(slot_set(slot, value, stamp)),
        ) matches Some(r) && !create_lt(r, c)),
        retained(Some(slot_delete(slot, stamp))) == retained(slot),
{
    lemma_create_order(retained(slot), spec_create_of(Some(value), stamp));
}

/// Every operation keeps a live container's own create ranked under its key's.
pub proof fn law_live_containers_stay_retained(
    slot: Option<SlotV>,
    value: ElementV,
    stamp: Stamp,
    other: SlotV,
)
    requires
        slot matches Some(s) ==> retains_own(s),
        retains_own(other),
    ensures
        retains_own(slot_set(slot, value, stamp)),
        retains_own(slot_delete(slot, stamp)),
        retains_own(slot_join(slot, other)),
{
    lemma_create_order(retained(slot), spec_create_of(Some(value), stamp));
    lemma_create_order(retained(slot), other.container);
    if let Some(s) = slot {
        lemma_create_order(s.container, spec_create_of(s.value, s.stamp));
        lemma_create_order(s.container, spec_create_of(s.value, stamp));
        lemma_create_order(other.container, spec_create_of(other.value, other.stamp));
        lemma_create_order(s.container, spec_create_of(other.value, other.stamp));
        lemma_create_order(other.container, spec_create_of(s.value, s.stamp));
    }
}

// --- writes in any order ---

/// Two writes to one slot at different stamps commute: the later value stands and the
/// higher create is retained, whichever arrived first.
pub proof fn law_sets_commute(
    slot: Option<SlotV>,
    a: ElementV,
    sa: Stamp,
    b: ElementV,
    sb: Stamp,
)
    requires
        sa != sb,
    ensures
        slot_set(Some(slot_set(slot, a, sa)), b, sb) == slot_set(Some(slot_set(slot, b, sb)), a, sa),
{
    law_higher_is_a_join(retained(slot), spec_create_of(Some(a), sa), spec_create_of(Some(b), sb));
    law_higher_is_a_join(retained(slot), spec_create_of(Some(b), sb), spec_create_of(Some(a), sa));
    law_higher_is_a_join(
        spec_create_of(Some(a), sa),
        spec_create_of(Some(b), sb),
        retained(slot),
    );
}

/// A write and a delete of one slot at different stamps commute.
pub proof fn law_set_and_delete_commute(slot: Option<SlotV>, a: ElementV, sa: Stamp, sd: Stamp)
    requires
        sa != sd,
    ensures
        slot_delete(Some(slot_set(slot, a, sa)), sd) == slot_set(
            Some(slot_delete(slot, sd)),
            a,
            sa,
        ),
{
}

/// Two deletes of one slot commute.
pub proof fn law_deletes_commute(slot: Option<SlotV>, sa: Stamp, sb: Stamp)
    ensures
        slot_delete(Some(slot_delete(slot, sa)), sb) == slot_delete(
            Some(slot_delete(slot, sb)),
            sa,
        ),
{
}

/// A write seen twice is a write seen once.
pub proof fn law_set_is_idempotent(slot: Option<SlotV>, a: ElementV, sa: Stamp)
    ensures
        slot_set(Some(slot_set(slot, a, sa)), a, sa) == slot_set(slot, a, sa),
{
    law_higher_is_a_join(retained(slot), spec_create_of(Some(a), sa), spec_create_of(Some(a), sa));
}

// --- merging ---

/// Whether two slots that share a stamp share a value, and a register was last set by
/// the write its slot stands at: what honestly minted ops produce.
pub open spec fn coherent(a: SlotV, b: SlotV) -> bool {
    &&& (a.stamp == b.stamp ==> a.value == b.value)
    &&& register_tied(a)
    &&& register_tied(b)
}

pub open spec fn register_tied(s: SlotV) -> bool {
    s.value matches Some(ElementV::Register(r)) ==> r.stamp == s.stamp
}

/// Joining coherent slots is picking the later one, with the higher create.
pub proof fn lemma_join_picks_later(a: SlotV, b: SlotV)
    requires
        coherent(a, b),
    ensures
        slot_join(Some(a), b) == (SlotV {
            container: spec_higher(a.container, b.container),
            ..(if stamp_lt(a.stamp, b.stamp) {
                b
            } else {
                a
            })
        }),
{
}

/// Merging two replicas' slots gives the same slot either way round.
pub proof fn law_slot_merge_commutes(a: SlotV, b: SlotV)
    requires
        coherent(a, b),
    ensures
        slot_join(Some(a), b) == slot_join(Some(b), a),
{
    lemma_join_picks_later(a, b);
    lemma_join_picks_later(b, a);
    law_higher_is_a_join(a.container, b.container, None);
}

/// The grouping of slot merges does not matter.
pub proof fn law_slot_merge_associates(a: SlotV, b: SlotV, c: SlotV)
    requires
        coherent(a, b),
        coherent(b, c),
        coherent(a, c),
    ensures
        slot_join(Some(slot_join(Some(a), b)), c) == slot_join(Some(a), slot_join(Some(b), c)),
{
    lemma_join_picks_later(a, b);
    lemma_join_picks_later(b, c);
    lemma_join_picks_later(slot_join(Some(a), b), c);
    lemma_join_picks_later(a, slot_join(Some(b), c));
    law_higher_is_a_join(a.container, b.container, c.container);
}

/// Merging a slot with itself changes nothing.
pub proof fn law_slot_merge_is_idempotent(a: SlotV)
    ensures
        slot_join(Some(a), a) == a,
{
    law_higher_is_a_join(a.container, None, None);
}

/// Whether every key two maps share has coherent slots.
pub open spec fn maps_coherent(a: Map<Seq<u8>, SlotV>, b: Map<Seq<u8>, SlotV>) -> bool {
    forall|k: Seq<u8>|
        a.dom().contains(k) && b.dom().contains(k) ==> #[trigger] coherent(a[k], b[k])
}

/// Whether no map's empty slot is joined to something else: joining onto an absent key
/// adopts the slot as it is.
pub proof fn lemma_join_onto_nothing(b: SlotV)
    ensures
        slot_join(None, b) == b,
{
}

/// Merging two maps gives the same slots either way round.
pub proof fn law_map_merge_commutes(a: Map<Seq<u8>, SlotV>, b: Map<Seq<u8>, SlotV>)
    requires
        maps_coherent(a, b),
    ensures
        slots_join(a, b) == slots_join(b, a),
{
    let x = slots_join(a, b);
    let y = slots_join(b, a);
    assert forall|k: Seq<u8>| x.dom().contains(k) implies x[k] == y[k] by {
        if a.dom().contains(k) && b.dom().contains(k) {
            assert(coherent(a[k], b[k]));
            law_slot_merge_commutes(a[k], b[k]);
        } else if b.dom().contains(k) {
            lemma_join_onto_nothing(b[k]);
        } else {
            lemma_join_onto_nothing(a[k]);
        }
    }
    assert(x =~= y);
}

/// The grouping of map merges does not matter.
pub proof fn law_map_merge_associates(
    a: Map<Seq<u8>, SlotV>,
    b: Map<Seq<u8>, SlotV>,
    c: Map<Seq<u8>, SlotV>,
)
    requires
        maps_coherent(a, b),
        maps_coherent(b, c),
        maps_coherent(a, c),
    ensures
        slots_join(slots_join(a, b), c) == slots_join(a, slots_join(b, c)),
{
    let x = slots_join(slots_join(a, b), c);
    let y = slots_join(a, slots_join(b, c));
    assert forall|k: Seq<u8>| x.dom().contains(k) implies x[k] == y[k] by {
        let ia = a.dom().contains(k);
        let ib = b.dom().contains(k);
        let ic = c.dom().contains(k);
        if ia && ib {
            assert(coherent(a[k], b[k]));
        }
        if ib && ic {
            assert(coherent(b[k], c[k]));
        }
        if ia && ic {
            assert(coherent(a[k], c[k]));
        }
        if ia && ib && ic {
            law_slot_merge_associates(a[k], b[k], c[k]);
        } else {
            if ib {
                lemma_join_onto_nothing(b[k]);
            }
            if ic {
                lemma_join_onto_nothing(c[k]);
            }
        }
    }
    assert(x =~= y);
}

/// Merging a map with itself changes nothing.
pub proof fn law_map_merge_is_idempotent(a: Map<Seq<u8>, SlotV>)
    ensures
        slots_join(a, a) == a,
{
    assert forall|k: Seq<u8>| a.dom().contains(k) implies slots_join(a, a)[k] == a[k] by {
        law_slot_merge_is_idempotent(a[k]);
    }
    assert(slots_join(a, a) =~= a);
}

/// The later of two slots survives a merge, and what a key reads is what the later write
/// left there.
pub proof fn law_the_later_slot_survives_a_merge(a: SlotV, b: SlotV)
    requires
        coherent(a, b),
        stamp_lt(a.stamp, b.stamp),
    ensures
        slot_join(Some(a), b).value == b.value,
        slot_join(Some(b), a).value == b.value,
        slot_join(Some(a), b).stamp == b.stamp,
{
    lemma_join_picks_later(a, b);
    lemma_join_picks_later(b, a);
}

/// A merge has every key of either map, and a key only one has is as that one has it.
pub proof fn law_a_map_merge_keeps_every_key(
    a: Map<Seq<u8>, SlotV>,
    b: Map<Seq<u8>, SlotV>,
    key: Seq<u8>,
)
    ensures
        slots_join(a, b).dom().contains(key) <==> a.dom().contains(key) || b.dom().contains(key),
        a.dom().contains(key) && !b.dom().contains(key) ==> slots_join(a, b)[key] == a[key],
        b.dom().contains(key) && !a.dom().contains(key) ==> slots_join(a, b)[key] == b[key],
{
}

} // verus!
