//! What holds of every diff: equal replicas have none, runs are exactly what one side
//! lacks, changes come in path order, and swapping the sides mirrors them.

use crate::bytes::{lemma_bytes_lt_total, lemma_bytes_lt_trans};
use crate::changes::{ChangeV, SeqItemV};
use crate::counter::count_of;
use crate::diff::{
    both_keys, brings, by_path, change_before, change_keys, change_path, char_seq, depth_bound,
    diff_elements, diff_item, diff_items, diff_key, diff_keys, diff_lists, diff_seqs, diff_texts,
    diff_trees, item_path, item_seq, lemma_item_key_fits, list_deletes, list_inserts, live_keys,
    path_before, put_change, replaced_by, runs, shared_ids, text_deletes, text_inserts,
};
use crate::element::ElementV;
use crate::elementid::{ElementId, ElementKind};
use crate::format::{enc_stamp, fits_u32};
use crate::identity::root_element;
use crate::list::ListV;
use crate::list_state::empty_list;
use crate::map::{live_value, slot_at, MapV};
use crate::path::{enc_path, keys_fit, law_path_is_canonical, law_path_round_trip, read_path};
use crate::sequence::{lemma_live_in_items, list_live};
use crate::stamp::Stamp;
use crate::table::lemma_ordered_exists;
use crate::text::text_of;
use crate::tree::TreeV;
use crate::xml::{node_attrs_id, node_children_id};
use vstd::prelude::*;

verus! {

// --- nothing changed ---

proof fn lemma_no_runs<T>(s: Seq<(Stamp, T)>, present: Set<Stamp>)
    requires
        forall|i: int| 0 <= i < s.len() ==> present.contains((#[trigger] s[i]).0),
    ensures
        runs(s, present) == Seq::<(int, Seq<T>)>::empty(),
    decreases s.len(),
{
    if s.len() > 0 {
        assert forall|i: int| 0 <= i < s.drop_last().len() implies present.contains(
            (#[trigger] s.drop_last()[i]).0,
        ) by {
            assert(s.drop_last()[i] == s[i]);
        }
        lemma_no_runs(s.drop_last(), present);
    }
}

proof fn lemma_same_list(l: ListV, path: Seq<u8>)
    ensures
        diff_lists(l, l, path) == Seq::<ChangeV>::empty(),
        diff_texts(l, l, path) == Seq::<ChangeV>::empty(),
{
    reveal(diff_lists);
    reveal(diff_texts);
    let present = list_live(l).to_set();
    assert forall|i: int| 0 <= i < list_live(l).len() implies present.contains(
        #[trigger] list_live(l)[i],
    ) by {}
    lemma_no_runs(item_seq(l), present);
    lemma_no_runs(char_seq(l), present);
    assert(diff_lists(l, l, path) =~= Seq::empty());
    assert(diff_texts(l, l, path) =~= Seq::empty());
}

proof fn lemma_same_seq(t: TreeV, l: ListV, prefix: Seq<Seq<u8>>, fuel: nat)
    ensures
        diff_seqs(t, t, l, l, prefix, fuel) == Seq::<ChangeV>::empty(),
    decreases fuel, 0nat,
{
    lemma_same_list(l, enc_path(prefix));
    if fuel > 0 {
        lemma_same_items(t, l, shared_ids(l, l), prefix, (fuel - 1) as nat);
    }
    assert(diff_seqs(t, t, l, l, prefix, fuel) =~= Seq::empty());
}

proof fn lemma_same_items(
    t: TreeV,
    l: ListV,
    ids: Seq<Stamp>,
    prefix: Seq<Seq<u8>>,
    fuel: nat,
)
    ensures
        diff_items(t, t, l, l, ids, prefix, fuel) == Seq::<ChangeV>::empty(),
    decreases fuel, ids.len() + 3,
{
    if ids.len() > 0 {
        lemma_same_items(t, l, ids.drop_last(), prefix, fuel);
        let id = ids.last();
        lemma_same_element(t, l.items[id].value, item_path(prefix, id), fuel);
        assert(diff_item(t, t, l, l, id, prefix, fuel) =~= Seq::empty());
        assert(diff_items(t, t, l, l, ids, prefix, fuel) =~= Seq::empty());
    }
}

proof fn lemma_same_element(t: TreeV, e: ElementV, prefix: Seq<Seq<u8>>, fuel: nat)
    ensures
        diff_elements(t, t, e, e, prefix, fuel) == Seq::<ChangeV>::empty(),
    decreases fuel, 1nat,
{
    let path = enc_path(prefix);
    match e {
        ElementV::LwwMap(i) => {
            if fuel > 0 {
                let m = t.map_of(i);
                lemma_same_keys(t, m, both_keys(m, m), prefix, (fuel - 1) as nat);
            }
        },
        ElementV::List(i) => {
            lemma_same_seq(t, t.list_of(i), prefix, fuel);
        },
        ElementV::Text(i) => {
            lemma_same_list(t.text_seq(i), path);
        },
        ElementV::XmlElement(i) => {
            lemma_same_seq(t, t.list_of(node_children_id(i)), prefix, fuel);
            if fuel > 0 {
                let m = t.map_of(node_attrs_id(i));
                lemma_same_keys(t, m, both_keys(m, m), prefix, (fuel - 1) as nat);
                assert(diff_elements(t, t, e, e, prefix, fuel) =~= Seq::empty());
            }
        },
        ElementV::XmlFragment(i) => {
            lemma_same_seq(t, t.list_of(node_children_id(i)), prefix, fuel);
        },
        _ => {},
    }
}

proof fn lemma_same_keys(t: TreeV, m: MapV, keys: Seq<Seq<u8>>, prefix: Seq<Seq<u8>>, fuel: nat)
    ensures
        diff_keys(t, t, m, m, keys, prefix, fuel) == Seq::<ChangeV>::empty(),
    decreases fuel, keys.len() + 3,
{
    if keys.len() > 0 {
        lemma_same_keys(t, m, keys.drop_last(), prefix, fuel);
        let key = keys.last();
        if let Some(e) = live_value(slot_at(m.slots, key)) {
            lemma_same_element(t, e, prefix.push(key), fuel);
        }
        assert(diff_key(t, t, m, m, key, prefix, fuel) =~= Seq::empty());
        assert(diff_keys(t, t, m, m, keys, prefix, fuel) =~= Seq::empty());
    }
}

/// A replica does not differ from itself.
pub proof fn law_equal_replicas_have_no_diff(t: TreeV)
    ensures
        diff_trees(t, t) == Seq::<ChangeV>::empty(),
{
    lemma_same_element(t, ElementV::LwwMap(root_element()), Seq::empty(), depth_bound(t, t));
}

// --- runs ---

/// Whether a run is a maximal stretch of what is not present.
pub open spec fn is_run<T>(s: Seq<(Stamp, T)>, present: Set<Stamp>, r: (int, Seq<T>)) -> bool {
    &&& r.1.len() > 0
    &&& 0 <= r.0
    &&& r.0 + r.1.len() <= s.len()
    &&& forall|i: int|
        #![trigger s[i]]
        r.0 <= i < r.0 + r.1.len() ==> !present.contains(s[i].0) && r.1[i - r.0] == s[i].1
    &&& r.0 > 0 ==> present.contains(s[r.0 - 1].0)
    &&& r.0 + r.1.len() < s.len() ==> present.contains(s[r.0 + r.1.len()].0)
}

/// Whether a run covers a place.
pub open spec fn spans<T>(r: (int, Seq<T>), i: int) -> bool {
    r.0 <= i < r.0 + r.1.len()
}

/// The runs of a sequence are its maximal stretches of what is not present, in order, and
/// everything not present is in one.
pub proof fn law_runs_are_what_is_missing<T>(s: Seq<(Stamp, T)>, present: Set<Stamp>)
    ensures
        forall|k: int|
            0 <= k < runs(s, present).len() ==> is_run(s, present, #[trigger] runs(s, present)[k]),
        forall|j: int, k: int|
            #![trigger runs(s, present)[j], runs(s, present)[k]]
            0 <= j < k < runs(s, present).len() ==> runs(s, present)[j].0 + runs(
                s,
                present,
            )[j].1.len() < runs(s, present)[k].0,
        forall|i: int|
            0 <= i < s.len() && !present.contains((#[trigger] s[i]).0) ==> exists|k: int|
                0 <= k < runs(s, present).len() && spans(#[trigger] runs(s, present)[k], i),
        s.len() > 0 && !present.contains(s.last().0) ==> runs(s, present).len() > 0 && runs(
            s,
            present,
        ).last().0 + runs(s, present).last().1.len() == s.len(),
        s.len() > 0 && present.contains(s.last().0) ==> forall|k: int|
            0 <= k < runs(s, present).len() ==> (#[trigger] runs(s, present)[k]).0 + runs(
                s,
                present,
            )[k].1.len() < s.len(),
    decreases s.len(),
{
    if s.len() > 0 {
        let t = s.drop_last();
        law_runs_are_what_is_missing(t, present);
        let r = runs(t, present);
        let q = runs(s, present);
        let n = s.len() - 1;
        assert forall|i: int| 0 <= i < n implies #[trigger] t[i] == s[i] by {}
        assert forall|k: int| 0 <= k < q.len() implies is_run(s, present, #[trigger] q[k]) by {
            if k < r.len() {
                assert(is_run(t, present, r[k]));
                assert forall|i: int|
                    #![trigger s[i]]
                    q[k].0 <= i < q[k].0 + q[k].1.len() implies !present.contains(s[i].0)
                    && q[k].1[i - q[k].0] == s[i].1 by {
                    if i < n {
                        assert(t[i] == s[i]);
                    }
                }
                if q[k].0 > 0 {
                    assert(t[q[k].0 - 1] == s[q[k].0 - 1]);
                }
                if r[k].0 + r[k].1.len() < n {
                    assert(t[r[k].0 + r[k].1.len()] == s[r[k].0 + r[k].1.len()]);
                }
                if k < r.len() - 1 {
                    assert(r[k].0 + r[k].1.len() < r[r.len() - 1].0);
                }
            }
        }
        assert forall|i: int| 0 <= i < s.len() && !present.contains((#[trigger] s[i]).0)
            implies exists|
            k: int,
        | 0 <= k < q.len() && spans(#[trigger] q[k], i) by {
            if i < n {
                assert(t[i] == s[i]);
                let k = choose|k: int| 0 <= k < r.len() && spans(#[trigger] r[k], i);
                assert(spans(q[k], i));
            } else {
                assert(spans(q[q.len() - 1], i));
            }
        }
        assert forall|j: int, k: int|
            #![trigger q[j], q[k]]
            0 <= j < k < q.len() implies q[j].0 + q[j].1.len() < q[k].0 by {
            if k < r.len() {
                assert(r[j].0 + r[j].1.len() < r[k].0);
            } else {
                assert(is_run(t, present, r[j]));
                if n > 0 {
                    assert(t.last() == s[n - 1]);
                }
            }
        }
    }
}

// --- path order ---

/// Whether `ps` are the paths of some changes, and never go back.
pub open spec fn in_path_order(changes: Seq<ChangeV>, ps: Seq<Seq<Seq<u8>>>) -> bool {
    &&& ps.len() == changes.len()
    &&& forall|i: int|
        0 <= i < changes.len() ==> change_path(#[trigger] changes[i]) == enc_path(ps[i])
    &&& forall|i: int, j: int|
        #![trigger ps[i], ps[j]]
        0 <= i < j < ps.len() ==> ps[i] == ps[j] || path_before(ps[i], ps[j])
}

/// The order of paths is total.
pub(crate) proof fn lemma_path_total(p: Seq<Seq<u8>>, q: Seq<Seq<u8>>)
    ensures
        p == q || path_before(p, q) || path_before(q, p),
        p == q ==> !path_before(p, q),
    decreases p.len(),
{
    if p.len() == 0 || q.len() == 0 {
        if p.len() == 0 && q.len() == 0 {
            assert(p =~= q);
        }
    } else if p[0] == q[0] {
        lemma_path_total(p.skip(1), q.skip(1));
        assert(p =~= seq![p[0]] + p.skip(1));
        assert(q =~= seq![q[0]] + q.skip(1));
    } else {
        lemma_bytes_lt_total(p[0], q[0]);
    }
}

proof fn lemma_path_trans(p: Seq<Seq<u8>>, q: Seq<Seq<u8>>, r: Seq<Seq<u8>>)
    requires
        path_before(p, q),
        path_before(q, r),
    ensures
        path_before(p, r),
    decreases p.len(),
{
    if p.len() > 0 {
        if p[0] == q[0] && q[0] == r[0] {
            lemma_path_trans(p.skip(1), q.skip(1), r.skip(1));
        } else if p[0] != q[0] && q[0] != r[0] {
            lemma_bytes_lt_trans(p[0], q[0], r[0]);
            lemma_bytes_lt_total(p[0], r[0]);
        }
    }
}

/// Whether a change may stand before another.
spec fn in_turn(c: ChangeV, d: ChangeV) -> bool {
    path_before(change_keys(c), change_keys(d)) || (change_keys(c) == change_keys(d) && (brings(c)
        ==> brings(d)))
}

/// Whether changes are in the order of their paths' keys, and at one path what brings
/// something comes last.
spec fn ascending(s: Seq<ChangeV>) -> bool {
    forall|i: int, j: int|
        0 <= i < j < s.len() ==> in_turn(#[trigger] s[i], #[trigger] s[j])
}

proof fn lemma_put_change(s: Seq<ChangeV>, c: ChangeV)
    requires
        ascending(s),
    ensures
        ascending(put_change(s, c)),
        put_change(s, c).to_multiset() == s.push(c).to_multiset(),
        forall|x: ChangeV| #[trigger] put_change(s, c).contains(x) ==> x == c || s.contains(x),
    decreases s.len(),
{
    broadcast use vstd::seq_lib::group_to_multiset_ensures;

    let u = put_change(s, c);
    if s.len() == 0 || !change_before(c, s.last()) {
        assert forall|i: int, j: int| 0 <= i < j < u.len() implies in_turn(
            #[trigger] u[i],
            #[trigger] u[j],
        ) by {
            if j < s.len() {
                assert(u[i] == s[i] && u[j] == s[j]);
            } else {
                lemma_path_total(change_keys(c), change_keys(s.last()));
                assert(u[i] == s[i] && s.last() == s[s.len() - 1]);
                if i < s.len() - 1 && path_before(change_keys(s[i]), change_keys(s.last()))
                    && path_before(change_keys(s.last()), change_keys(c)) {
                    lemma_path_trans(
                        change_keys(s[i]),
                        change_keys(s.last()),
                        change_keys(c),
                    );
                }
            }
        }
        assert forall|x: ChangeV| #[trigger] u.contains(x) implies x == c || s.contains(x) by {
            let i = u.index_of(x);
            if i < s.len() {
                assert(s[i] == x);
            }
        }
    } else {
        let h = s.drop_last();
        let e = s.last();
        assert forall|i: int, j: int| 0 <= i < j < h.len() implies in_turn(
            #[trigger] h[i],
            #[trigger] h[j],
        ) by {
            assert(h[i] == s[i] && h[j] == s[j]);
        }
        lemma_put_change(h, c);
        let w = put_change(h, c);
        assert(u == w.push(e));
        assert forall|i: int, j: int| 0 <= i < j < u.len() implies in_turn(
            #[trigger] u[i],
            #[trigger] u[j],
        ) by {
            if j < w.len() {
                assert(u[i] == w[i] && u[j] == w[j]);
            } else {
                assert(w.contains(w[i]));
                if w[i] != c {
                    let k = h.index_of(w[i]);
                    assert(s[k] == w[i] && s[s.len() - 1] == e);
                    assert(in_turn(s[k], s[s.len() - 1]));
                }
            }
        }
        assert(s =~= h.push(e));
        assert(u.to_multiset() =~= s.push(c).to_multiset());
        assert forall|x: ChangeV| #[trigger] u.contains(x) implies x == c || s.contains(x) by {
            let i = u.index_of(x);
            if i < w.len() {
                assert(w.contains(w[i]));
                if x != c {
                    let k = h.index_of(x);
                    assert(s[k] == x);
                }
            } else {
                assert(s[s.len() - 1] == x);
            }
        }
    }
}

proof fn lemma_by_path(s: Seq<ChangeV>)
    ensures
        ascending(by_path(s)),
        by_path(s).to_multiset() == s.to_multiset(),
        forall|x: ChangeV| #[trigger] by_path(s).contains(x) ==> s.contains(x),
    decreases s.len(),
{
    broadcast use vstd::seq_lib::group_to_multiset_ensures;

    if s.len() > 0 {
        let h = s.drop_last();
        lemma_by_path(h);
        lemma_put_change(by_path(h), s.last());
        assert(s =~= h.push(s.last()));
        assert forall|x: ChangeV| #[trigger] by_path(s).contains(x) implies s.contains(x) by {
            if x == s.last() {
                assert(s[s.len() - 1] == x);
            } else {
                let k = h.index_of(x);
                assert(s[k] == x);
            }
        }
    }
}

/// Whether every change is at a path that can be read.
pub open spec fn told(s: Seq<ChangeV>) -> bool {
    forall|i: int| 0 <= i < s.len() ==> read_path(change_path(#[trigger] s[i])) is Some
}

proof fn lemma_told_concat(s: Seq<ChangeV>, t: Seq<ChangeV>)
    requires
        told(s),
        told(t),
    ensures
        told(s + t),
{
    assert forall|i: int| 0 <= i < (s + t).len() implies read_path(
        change_path(#[trigger] (s + t)[i]),
    ) is Some by {
        if i < s.len() {
            assert((s + t)[i] == s[i]);
        } else {
            assert((s + t)[i] == t[i - s.len()]);
        }
    }
}

proof fn lemma_told_seqs(
    a: TreeV,
    b: TreeV,
    l: ListV,
    m: ListV,
    prefix: Seq<Seq<u8>>,
    fuel: nat,
)
    requires
        a.diffable(),
        b.diffable(),
        keys_fit(prefix),
    ensures
        told(diff_seqs(a, b, l, m, prefix, fuel)),
        told(diff_texts(l, m, enc_path(prefix))),
    decreases fuel, 0nat,
{
    reveal(diff_lists);
    reveal(diff_texts);
    law_path_round_trip(prefix);
    let runs = diff_lists(l, m, enc_path(prefix));
    assert(told(runs));
    if fuel > 0 {
        let f = (fuel - 1) as nat;
        lemma_told_items(a, b, l, m, shared_ids(l, m), prefix, f);
        lemma_told_concat(runs, diff_items(a, b, l, m, shared_ids(l, m), prefix, f));
    } else {
        lemma_told_concat(runs, Seq::empty());
    }
}

proof fn lemma_told_items(
    a: TreeV,
    b: TreeV,
    l: ListV,
    m: ListV,
    ids: Seq<Stamp>,
    prefix: Seq<Seq<u8>>,
    fuel: nat,
)
    requires
        a.diffable(),
        b.diffable(),
        keys_fit(prefix),
    ensures
        told(diff_items(a, b, l, m, ids, prefix, fuel)),
    decreases fuel, ids.len() + 3,
{
    if ids.len() > 0 {
        lemma_told_items(a, b, l, m, ids.drop_last(), prefix, fuel);
        let id = ids.last();
        let at = item_path(prefix, id);
        lemma_item_key_fits(id);
        assert forall|k: int| 0 <= k < at.len() implies fits_u32((#[trigger] at[k]).len()) by {
            if k < prefix.len() {
                assert(at[k] == prefix[k]);
            }
        }
        lemma_told(a, b, l.items[id].value, m.items[id].value, at, fuel);
        lemma_told_concat(
            diff_items(a, b, l, m, ids.drop_last(), prefix, fuel),
            diff_item(a, b, l, m, id, prefix, fuel),
        );
    }
}

proof fn lemma_told(
    a: TreeV,
    b: TreeV,
    x: ElementV,
    y: ElementV,
    prefix: Seq<Seq<u8>>,
    fuel: nat,
)
    requires
        a.diffable(),
        b.diffable(),
        keys_fit(prefix),
    ensures
        told(diff_elements(a, b, x, y, prefix, fuel)),
    decreases fuel, 1nat,
{
    law_path_round_trip(prefix);
    match (x, y) {
        (ElementV::LwwMap(i), ElementV::LwwMap(j)) => {
            if fuel > 0 {
                lemma_told_keys(
                    a,
                    b,
                    i,
                    j,
                    both_keys(a.map_of(i), b.map_of(j)),
                    prefix,
                    (fuel - 1) as nat,
                );
            }
        },
        (ElementV::List(i), ElementV::List(j)) => {
            lemma_told_seqs(a, b, a.list_of(i), b.list_of(j), prefix, fuel);
        },
        (ElementV::Text(i), ElementV::Text(j)) => {
            lemma_told_seqs(a, b, a.text_seq(i), b.text_seq(j), prefix, fuel);
        },
        (ElementV::XmlElement(i), ElementV::XmlElement(j)) => {
            let l = a.list_of(node_children_id(i));
            let m = b.list_of(node_children_id(j));
            lemma_told_seqs(a, b, l, m, prefix, fuel);
            if fuel > 0 {
                let p = node_attrs_id(i);
                let q = node_attrs_id(j);
                let keys = both_keys(a.map_of(p), b.map_of(q));
                let f = (fuel - 1) as nat;
                lemma_told_keys(a, b, p, q, keys, prefix, f);
                lemma_told_concat(
                    diff_seqs(a, b, l, m, prefix, fuel),
                    diff_keys(a, b, a.map_of(p), b.map_of(q), keys, prefix, f),
                );
            }
        },
        (ElementV::XmlFragment(i), ElementV::XmlFragment(j)) => {
            lemma_told_seqs(
                a,
                b,
                a.list_of(node_children_id(i)),
                b.list_of(node_children_id(j)),
                prefix,
                fuel,
            );
        },
        _ => {},
    }
}

proof fn lemma_told_keys(
    a: TreeV,
    b: TreeV,
    i: ElementId,
    j: ElementId,
    keys: Seq<Seq<u8>>,
    prefix: Seq<Seq<u8>>,
    fuel: nat,
)
    requires
        a.diffable(),
        b.diffable(),
        keys_fit(prefix),
    ensures
        told(diff_keys(a, b, a.map_of(i), b.map_of(j), keys, prefix, fuel)),
    decreases fuel, keys.len() + 3,
{
    if keys.len() > 0 {
        let m = a.map_of(i);
        let n = b.map_of(j);
        let key = keys.last();
        let at = prefix.push(key);
        lemma_told_keys(a, b, i, j, keys.drop_last(), prefix, fuel);
        let one = diff_key(a, b, m, n, key, prefix, fuel);
        let x = live_value(slot_at(m.slots, key));
        let y = live_value(slot_at(n.slots, key));
        if x is Some || y is Some {
            assert(fits_u32(key.len())) by {
                if x is Some {
                    assert(a.maps[i].slots.dom().contains(key));
                } else {
                    assert(b.maps[j].slots.dom().contains(key));
                }
            }
            assert(keys_fit(at)) by {
                assert forall|k: int| 0 <= k < at.len() implies fits_u32(
                    (#[trigger] at[k]).len(),
                ) by {
                    if k < prefix.len() {
                        assert(at[k] == prefix[k]);
                    }
                }
            }
            law_path_round_trip(at);
            if x is Some && y is Some {
                lemma_told(a, b, x->Some_0, y->Some_0, at, fuel);
            }
        }
        assert(told(one));
        lemma_told_concat(diff_keys(a, b, m, n, keys.drop_last(), prefix, fuel), one);
    }
}

/// The changes of a diff come in path order.
pub proof fn law_a_diff_is_ordered_by_path(a: TreeV, b: TreeV)
    requires
        a.diffable(),
        b.diffable(),
    ensures
        exists|ps: Seq<Seq<Seq<u8>>>| #[trigger] in_path_order(diff_trees(a, b), ps),
{
    let root = ElementV::LwwMap(root_element());
    let raw = diff_elements(a, b, root, root, Seq::empty(), depth_bound(a, b));
    let d = diff_trees(a, b);
    lemma_told(a, b, root, root, Seq::empty(), depth_bound(a, b));
    lemma_by_path(raw);
    let ps = d.map_values(|c: ChangeV| change_keys(c));
    assert forall|i: int| 0 <= i < d.len() implies change_path(#[trigger] d[i]) == enc_path(
        ps[i],
    ) by {
        assert(d.contains(d[i]));
        let k = raw.index_of(d[i]);
        assert(read_path(change_path(raw[k])) is Some);
        law_path_is_canonical(change_path(d[i]));
    }
    assert forall|i: int, j: int|
        #![trigger ps[i], ps[j]]
        0 <= i < j < ps.len() implies ps[i] == ps[j] || path_before(ps[i], ps[j]) by {
        assert(change_keys(d[i]) == ps[i] && change_keys(d[j]) == ps[j]);
    }
    assert(in_path_order(d, ps));
}

/// At one path a diff tells what goes before what is new.
pub proof fn law_a_diff_removes_before_it_brings(a: TreeV, b: TreeV)
    ensures
        ({
            let d = diff_trees(a, b);
            forall|i: int, j: int|
                0 <= i < j < d.len() && change_path(#[trigger] d[i]) == change_path(
                    #[trigger] d[j],
                ) && (d[j] is ListDelete || d[j] is TextDelete || d[j] is Removed) ==> !(
                d[i] is ListInsert || d[i] is TextInsert || d[i] is Added)
        }),
{
    let root = ElementV::LwwMap(root_element());
    let raw = diff_elements(a, b, root, root, Seq::empty(), depth_bound(a, b));
    let d = diff_trees(a, b);
    lemma_by_path(raw);
    assert forall|i: int, j: int|
        0 <= i < j < d.len() && change_path(#[trigger] d[i]) == change_path(#[trigger] d[j]) && (
        d[j] is ListDelete || d[j] is TextDelete || d[j] is Removed) implies !(
    d[i] is ListInsert || d[i] is TextInsert || d[i] is Added) by {
        assert(in_turn(d[i], d[j]));
        lemma_path_total(change_keys(d[i]), change_keys(d[j]));
    }
}

// --- the other way round ---

/// A change seen from the other side.
pub open spec fn mirrored(c: ChangeV) -> ChangeV {
    match c {
        ChangeV::Added { path, kind } => ChangeV::Removed { path, kind },
        ChangeV::Removed { path, kind } => ChangeV::Added { path, kind },
        ChangeV::Value { path, old, new } => ChangeV::Value { path, old: new, new: old },
        ChangeV::Counter { path, old, new } => ChangeV::Counter { path, old: new, new: old },
        ChangeV::ListInsert { path, index, items } => ChangeV::ListDelete { path, index, items },
        ChangeV::ListDelete { path, index, items } => ChangeV::ListInsert { path, index, items },
        ChangeV::TextInsert { path, index, text } => ChangeV::TextDelete { path, index, text },
        ChangeV::TextDelete { path, index, text } => ChangeV::TextInsert { path, index, text },
    }
}

/// Changes seen from the other side.
pub open spec fn all_mirrored(s: Seq<ChangeV>) -> Seq<ChangeV> {
    s.map_values(|c: ChangeV| mirrored(c))
}

/// Whether two lists of changes are one list seen from its two sides, in whatever order.
pub open spec fn mirror(s: Seq<ChangeV>, t: Seq<ChangeV>) -> bool {
    t.to_multiset() == all_mirrored(s).to_multiset()
}

proof fn lemma_mirror_concat(
    s: Seq<ChangeV>,
    t: Seq<ChangeV>,
    u: Seq<ChangeV>,
    v: Seq<ChangeV>,
)
    requires
        mirror(s, u),
        mirror(t, v),
    ensures
        mirror(s + t, u + v),
        mirror(s + t, v + u),
{
    assert(all_mirrored(s + t) =~= all_mirrored(s) + all_mirrored(t));
    vstd::seq_lib::lemma_multiset_commutative(all_mirrored(s), all_mirrored(t));
    vstd::seq_lib::lemma_multiset_commutative(u, v);
    vstd::seq_lib::lemma_multiset_commutative(v, u);
    assert(u.to_multiset().add(v.to_multiset()) =~= v.to_multiset().add(u.to_multiset()));
}

proof fn lemma_mirror_same(s: Seq<ChangeV>, t: Seq<ChangeV>)
    requires
        t == all_mirrored(s),
    ensures
        mirror(s, t),
{
}

proof fn lemma_mirror_lists(l: ListV, m: ListV, path: Seq<u8>)
    ensures
        mirror(diff_lists(l, m, path), diff_lists(m, l, path)),
        mirror(diff_texts(l, m, path), diff_texts(m, l, path)),
{
    reveal(diff_lists);
    reveal(diff_texts);
    let p = runs(item_seq(l), list_live(m).to_set());
    let q = runs(item_seq(m), list_live(l).to_set());
    assert(list_inserts(path, p) =~= all_mirrored(list_deletes(path, p)));
    assert(list_deletes(path, q) =~= all_mirrored(list_inserts(path, q)));
    lemma_mirror_same(list_deletes(path, p), list_inserts(path, p));
    lemma_mirror_same(list_inserts(path, q), list_deletes(path, q));
    lemma_mirror_concat(
        list_deletes(path, p),
        list_inserts(path, q),
        list_inserts(path, p),
        list_deletes(path, q),
    );
    let p = runs(char_seq(l), list_live(m).to_set());
    let q = runs(char_seq(m), list_live(l).to_set());
    assert(text_inserts(path, p) =~= all_mirrored(text_deletes(path, p)));
    assert(text_deletes(path, q) =~= all_mirrored(text_inserts(path, q)));
    lemma_mirror_same(text_deletes(path, p), text_inserts(path, p));
    lemma_mirror_same(text_inserts(path, q), text_deletes(path, q));
    lemma_mirror_concat(
        text_deletes(path, p),
        text_inserts(path, q),
        text_inserts(path, p),
        text_deletes(path, q),
    );
}

proof fn lemma_mirror_none()
    ensures
        mirror(Seq::empty(), Seq::empty()),
{
    assert(all_mirrored(Seq::empty()) =~= Seq::<ChangeV>::empty());
}

proof fn lemma_mirror_replaced(path: Seq<u8>, k: ElementKind, n: ElementKind)
    ensures
        mirror(replaced_by(path, k, n), replaced_by(path, n, k)),
{
    let x = ChangeV::Removed { path, kind: k };
    let y = ChangeV::Added { path, kind: n };
    assert(seq![mirrored(x)] =~= all_mirrored(seq![x]));
    assert(seq![mirrored(y)] =~= all_mirrored(seq![y]));
    lemma_mirror_concat(seq![x], seq![y], seq![mirrored(x)], seq![mirrored(y)]);
    assert(replaced_by(path, k, n) =~= seq![x] + seq![y]);
    assert(replaced_by(path, n, k) =~= seq![mirrored(y)] + seq![mirrored(x)]);
}

proof fn lemma_mirror_seqs(
    a: TreeV,
    b: TreeV,
    l: ListV,
    m: ListV,
    prefix: Seq<Seq<u8>>,
    fuel: nat,
)
    requires
        a.diffable(),
        b.diffable(),
    ensures
        mirror(diff_seqs(a, b, l, m, prefix, fuel), diff_seqs(b, a, m, l, prefix, fuel)),
    decreases fuel, 0nat,
{
    let path = enc_path(prefix);
    lemma_mirror_lists(l, m, path);
    assert(list_live(l).to_set().intersect(list_live(m).to_set()) =~= list_live(
        m,
    ).to_set().intersect(list_live(l).to_set()));
    lemma_mirror_none();
    if fuel > 0 {
        let f = (fuel - 1) as nat;
        let ids = shared_ids(l, m);
        lemma_mirror_items(a, b, l, m, ids, prefix, f);
        lemma_mirror_concat(
            diff_lists(l, m, path),
            diff_items(a, b, l, m, ids, prefix, f),
            diff_lists(m, l, path),
            diff_items(b, a, m, l, ids, prefix, f),
        );
    } else {
        lemma_mirror_concat(
            diff_lists(l, m, path),
            Seq::empty(),
            diff_lists(m, l, path),
            Seq::empty(),
        );
    }
}

proof fn lemma_mirror_items(
    a: TreeV,
    b: TreeV,
    l: ListV,
    m: ListV,
    ids: Seq<Stamp>,
    prefix: Seq<Seq<u8>>,
    fuel: nat,
)
    requires
        a.diffable(),
        b.diffable(),
    ensures
        mirror(
            diff_items(a, b, l, m, ids, prefix, fuel),
            diff_items(b, a, m, l, ids, prefix, fuel),
        ),
    decreases fuel, ids.len() + 3,
{
    lemma_mirror_none();
    if ids.len() > 0 {
        let id = ids.last();
        let h = ids.drop_last();
        lemma_mirror_items(a, b, l, m, h, prefix, fuel);
        lemma_mirror_elements(
            a,
            b,
            l.items[id].value,
            m.items[id].value,
            item_path(prefix, id),
            fuel,
        );
        lemma_mirror_concat(
            diff_items(a, b, l, m, h, prefix, fuel),
            diff_item(a, b, l, m, id, prefix, fuel),
            diff_items(b, a, m, l, h, prefix, fuel),
            diff_item(b, a, m, l, id, prefix, fuel),
        );
    }
}

proof fn lemma_mirror_elements(
    a: TreeV,
    b: TreeV,
    x: ElementV,
    y: ElementV,
    prefix: Seq<Seq<u8>>,
    fuel: nat,
)
    requires
        a.diffable(),
        b.diffable(),
    ensures
        mirror(
            diff_elements(a, b, x, y, prefix, fuel),
            diff_elements(b, a, y, x, prefix, fuel),
        ),
    decreases fuel, 1nat,
{
    let path = enc_path(prefix);
    let d = diff_elements(a, b, x, y, prefix, fuel);
    let e = diff_elements(b, a, y, x, prefix, fuel);
    lemma_mirror_none();
    if x.kind() != y.kind() {
        lemma_mirror_replaced(path, x.kind(), y.kind());
    } else {
        match (x, y) {
            (ElementV::LwwMap(i), ElementV::LwwMap(j)) => {
                if fuel > 0 {
                    let m = a.map_of(i);
                    let n = b.map_of(j);
                    lemma_mirror_maps(m, n);
                    lemma_mirror_keys(a, b, m, n, both_keys(m, n), prefix, (fuel - 1) as nat);
                }
            },
            (ElementV::List(i), ElementV::List(j)) => {
                lemma_mirror_seqs(a, b, a.list_of(i), b.list_of(j), prefix, fuel);
            },
            (ElementV::Text(i), ElementV::Text(j)) => {
                lemma_mirror_lists(a.text_seq(i), b.text_seq(j), path);
            },
            (ElementV::XmlElement(i), ElementV::XmlElement(j)) => {
                if a.tag_of(i) != b.tag_of(j) {
                    lemma_mirror_replaced(path, ElementKind::XmlElement, ElementKind::XmlElement);
                } else if fuel > 0 {
                    let l = a.list_of(node_children_id(i));
                    let m = b.list_of(node_children_id(j));
                    let p = a.map_of(node_attrs_id(i));
                    let q = b.map_of(node_attrs_id(j));
                    let f = (fuel - 1) as nat;
                    lemma_mirror_seqs(a, b, l, m, prefix, fuel);
                    lemma_mirror_maps(p, q);
                    lemma_mirror_keys(a, b, p, q, both_keys(p, q), prefix, f);
                    lemma_mirror_concat(
                        diff_seqs(a, b, l, m, prefix, fuel),
                        diff_keys(a, b, p, q, both_keys(p, q), prefix, f),
                        diff_seqs(b, a, m, l, prefix, fuel),
                        diff_keys(b, a, q, p, both_keys(q, p), prefix, f),
                    );
                }
            },
            (ElementV::XmlFragment(i), ElementV::XmlFragment(j)) => {
                lemma_mirror_seqs(
                    a,
                    b,
                    a.list_of(node_children_id(i)),
                    b.list_of(node_children_id(j)),
                    prefix,
                    fuel,
                );
            },
            _ => {
                assert(e =~= all_mirrored(d));
            },
        }
    }
}

proof fn lemma_mirror_maps(m: MapV, n: MapV)
    ensures
        both_keys(m, n) == both_keys(n, m),
{
    assert(live_keys(m).union(live_keys(n)) =~= live_keys(n).union(live_keys(m)));
}

proof fn lemma_mirror_keys(
    a: TreeV,
    b: TreeV,
    m: MapV,
    n: MapV,
    keys: Seq<Seq<u8>>,
    prefix: Seq<Seq<u8>>,
    fuel: nat,
)
    requires
        a.diffable(),
        b.diffable(),
    ensures
        mirror(
            diff_keys(a, b, m, n, keys, prefix, fuel),
            diff_keys(b, a, n, m, keys, prefix, fuel),
        ),
    decreases fuel, keys.len() + 3,
{
    lemma_mirror_none();
    if keys.len() > 0 {
        let key = keys.last();
        let h = keys.drop_last();
        let at = prefix.push(key);
        lemma_mirror_keys(a, b, m, n, h, prefix, fuel);
        let d = diff_key(a, b, m, n, key, prefix, fuel);
        let e = diff_key(b, a, n, m, key, prefix, fuel);
        match (live_value(slot_at(m.slots, key)), live_value(slot_at(n.slots, key))) {
            (Some(x), Some(y)) => {
                lemma_mirror_elements(a, b, x, y, at, fuel);
            },
            _ => {
                assert(e =~= all_mirrored(d));
            },
        }
        lemma_mirror_concat(
            diff_keys(a, b, m, n, h, prefix, fuel),
            d,
            diff_keys(b, a, n, m, h, prefix, fuel),
            e,
        );
    }
}

/// Swapping the two sides mirrors every change: what was added is removed, what was
/// inserted is deleted, and an old value is a new one.
pub proof fn law_swapping_sides_mirrors_a_diff(a: TreeV, b: TreeV)
    requires
        a.diffable(),
        b.diffable(),
    ensures
        mirror(diff_trees(a, b), diff_trees(b, a)),
{
    let root = ElementV::LwwMap(root_element());
    let f = depth_bound(a, b);
    let d = diff_elements(a, b, root, root, Seq::empty(), f);
    let e = diff_elements(b, a, root, root, Seq::empty(), f);
    lemma_mirror_elements(a, b, root, root, Seq::empty(), f);
    lemma_by_path(d);
    lemma_by_path(e);
    lemma_mapped_multiset(by_path(d), d);
}

/// The same changes in another order mirror to the same changes.
proof fn lemma_mapped_multiset(s: Seq<ChangeV>, t: Seq<ChangeV>)
    requires
        s.to_multiset() == t.to_multiset(),
    ensures
        all_mirrored(s).to_multiset() == all_mirrored(t).to_multiset(),
    decreases s.len(),
{
    broadcast use vstd::seq_lib::group_to_multiset_ensures;

    if s.len() == 0 {
        vstd::seq_lib::to_multiset_len(s);
        vstd::seq_lib::to_multiset_len(t);
        assert(s =~= t);
    } else {
        let c = s.last();
        let h = s.drop_last();
        assert(s =~= h.push(c));
        assert(s.to_multiset().contains(c)) by {
            assert(s[s.len() - 1] == c);
            assert(s.contains(c));
        }
        assert(t.contains(c));
        let k = t.index_of(c);
        let r = t.remove(k);
        assert(r.to_multiset() =~= t.to_multiset().remove(c));
        assert(h.to_multiset() =~= s.to_multiset().remove(c)) by {
            assert(s.remove(s.len() - 1) =~= h);
        }
        lemma_mapped_multiset(h, r);
        let mt = all_mirrored(t);
        assert(mt.remove(k) =~= all_mirrored(r));
        assert(mt[k] == mirrored(c));
        assert(all_mirrored(s) =~= all_mirrored(h).push(mirrored(c)));
        assert(mt.to_multiset() =~= all_mirrored(r).to_multiset().insert(mirrored(c)));
        assert(all_mirrored(s).to_multiset() =~= mt.to_multiset());
    }
}

// --- a diff leaves nothing out ---

/// One step into a container: to a key of a map or of an element's attributes, or to an item
/// of a sequence.
pub enum SegV {
    Key(Seq<u8>),
    Item(Stamp),
}

/// What a map has at a key.
pub open spec fn slot_reads(t: TreeV, map: ElementId, key: Seq<u8>) -> Option<ElementV> {
    if t.maps.dom().contains(map) && t.maps[map].slots.dom().contains(key) {
        t.maps[map].slots[key].value
    } else {
        None
    }
}

/// What a sequence shows at an id.
pub open spec fn item_reads(t: TreeV, list: ElementId, id: Stamp) -> Option<ElementV> {
    if t.lists.dom().contains(list) && list_live(t.lists[list]).contains(id) {
        Some(t.lists[list].items[id].value)
    } else {
        None
    }
}

/// What a counter reads.
pub open spec fn count_reads(t: TreeV, id: ElementId) -> int {
    if t.counters.dom().contains(id) {
        count_of(t.counters[id].tallies)
    } else {
        0
    }
}

/// The tag an element has.
pub open spec fn tag_reads(t: TreeV, id: ElementId) -> Seq<u8> {
    if t.xml_elements.dom().contains(id) {
        t.xml_elements[id].tag
    } else {
        Seq::empty()
    }
}

/// The sequence that is a list, a text, or a node's children.
pub open spec fn seq_reads(t: TreeV, e: ElementV) -> ListV {
    match e {
        ElementV::List(id) => listed(t.lists, id),
        ElementV::XmlElement(id) => listed(t.lists, node_children_id(id)),
        ElementV::XmlFragment(id) => listed(t.lists, node_children_id(id)),
        ElementV::Text(id) => listed(t.texts, id),
        _ => empty_list(root_element()),
    }
}

pub open spec fn listed(lists: Map<ElementId, ListV>, id: ElementId) -> ListV {
    if lists.dom().contains(id) {
        lists[id]
    } else {
        empty_list(id)
    }
}

/// What is one step inside an element.
pub open spec fn step_in(t: TreeV, e: ElementV, s: SegV) -> Option<ElementV> {
    match (e, s) {
        (ElementV::LwwMap(id), SegV::Key(k)) => slot_reads(t, id, k),
        (ElementV::XmlElement(id), SegV::Key(k)) => slot_reads(t, node_attrs_id(id), k),
        (ElementV::List(id), SegV::Item(s)) => item_reads(t, id, s),
        (ElementV::XmlElement(id), SegV::Item(s)) => item_reads(t, node_children_id(id), s),
        (ElementV::XmlFragment(id), SegV::Item(s)) => item_reads(t, node_children_id(id), s),
        _ => None,
    }
}

/// What a replica reads at the end of some steps from its root.
pub open spec fn reads_at(t: TreeV, segs: Seq<SegV>) -> Option<ElementV>
    decreases segs.len(),
{
    if segs.len() == 0 {
        Some(ElementV::LwwMap(root_element()))
    } else {
        match reads_at(t, segs.drop_last()) {
            Some(e) => step_in(t, e, segs.last()),
            None => None,
        }
    }
}

/// The keys of a path of steps.
pub open spec fn seg_keys(segs: Seq<SegV>) -> Seq<Seq<u8>> {
    segs.map_values(
        |s: SegV|
            match s {
                SegV::Key(k) => k,
                SegV::Item(id) => enc_stamp(id),
            },
    )
}

/// Whether two elements are containers of one kind, and of one tag if they have one.
pub open spec fn same_shape(a: TreeV, b: TreeV, x: ElementV, y: ElementV) -> bool {
    match (x, y) {
        (ElementV::LwwMap(_), ElementV::LwwMap(_)) => true,
        (ElementV::List(_), ElementV::List(_)) => true,
        (ElementV::XmlFragment(_), ElementV::XmlFragment(_)) => true,
        (ElementV::XmlElement(i), ElementV::XmlElement(j)) => tag_reads(a, i) == tag_reads(b, j),
        _ => false,
    }
}

/// Whether two replicas have containers of one shape all along some steps.
pub open spec fn shared(a: TreeV, b: TreeV, segs: Seq<SegV>) -> bool
    decreases segs.len(),
{
    reads_at(a, segs) is Some && reads_at(b, segs) is Some && same_shape(
        a,
        b,
        reads_at(a, segs)->Some_0,
        reads_at(b, segs)->Some_0,
    ) && (segs.len() > 0 ==> shared(a, b, segs.drop_last()))
}

/// Whether every change of one sequence is in another.
spec fn within(s: Seq<ChangeV>, d: Seq<ChangeV>) -> bool {
    forall|c: ChangeV| #[trigger] s.contains(c) ==> d.contains(c)
}

proof fn lemma_within_concat(x: Seq<ChangeV>, y: Seq<ChangeV>, d: Seq<ChangeV>)
    requires
        within(x + y, d),
    ensures
        within(x, d),
        within(y, d),
{
    assert forall|c: ChangeV| #[trigger] x.contains(c) implies d.contains(c) by {
        assert((x + y)[x.index_of(c)] == c);
        assert((x + y).contains(c));
    }
    assert forall|c: ChangeV| #[trigger] y.contains(c) implies d.contains(c) by {
        assert((x + y)[x.len() + y.index_of(c)] == c);
        assert((x + y).contains(c));
    }
}

proof fn lemma_keys_within(
    a: TreeV,
    b: TreeV,
    m: MapV,
    n: MapV,
    keys: Seq<Seq<u8>>,
    prefix: Seq<Seq<u8>>,
    fuel: nat,
    key: Seq<u8>,
    d: Seq<ChangeV>,
)
    requires
        within(diff_keys(a, b, m, n, keys, prefix, fuel), d),
        keys.contains(key),
    ensures
        within(diff_key(a, b, m, n, key, prefix, fuel), d),
    decreases keys.len(),
{
    let h = keys.drop_last();
    lemma_within_concat(
        diff_keys(a, b, m, n, h, prefix, fuel),
        diff_key(a, b, m, n, keys.last(), prefix, fuel),
        d,
    );
    if key != keys.last() {
        assert(h[keys.index_of(key)] == key);
        lemma_keys_within(a, b, m, n, h, prefix, fuel, key, d);
    }
}

proof fn lemma_items_within(
    a: TreeV,
    b: TreeV,
    l: ListV,
    m: ListV,
    ids: Seq<Stamp>,
    prefix: Seq<Seq<u8>>,
    fuel: nat,
    id: Stamp,
    d: Seq<ChangeV>,
)
    requires
        within(diff_items(a, b, l, m, ids, prefix, fuel), d),
        ids.contains(id),
    ensures
        within(diff_item(a, b, l, m, id, prefix, fuel), d),
    decreases ids.len(),
{
    let h = ids.drop_last();
    lemma_within_concat(
        diff_items(a, b, l, m, h, prefix, fuel),
        diff_item(a, b, l, m, ids.last(), prefix, fuel),
        d,
    );
    if id != ids.last() {
        assert(h[ids.index_of(id)] == id);
        lemma_items_within(a, b, l, m, h, prefix, fuel, id, d);
    }
}

/// A map's finite keys are all walked.
proof fn lemma_key_walked(m: MapV, n: MapV, key: Seq<u8>)
    requires
        m.slots.dom().finite(),
        n.slots.dom().finite(),
        live_value(slot_at(m.slots, key)) is Some || live_value(slot_at(n.slots, key)) is Some,
    ensures
        both_keys(m, n).contains(key),
{
    let all = live_keys(m).union(live_keys(n));
    assert(live_keys(m).subset_of(m.slots.dom()));
    assert(live_keys(n).subset_of(n.slots.dom()));
    vstd::set_lib::lemma_set_subset_finite(m.slots.dom(), live_keys(m));
    vstd::set_lib::lemma_set_subset_finite(n.slots.dom(), live_keys(n));
    lemma_ordered_exists::<Vec<u8>>(all);
    assert(all.contains(key));
    assert(both_keys(m, n).to_set().contains(key));
}

/// Whether every map holds finitely many slots.
pub open spec fn slots_finite(t: TreeV) -> bool {
    forall|m: ElementId| #[trigger] t.maps.dom().contains(m) ==> t.maps[m].slots.dom().finite()
}

proof fn lemma_slot_within(
    a: TreeV,
    b: TreeV,
    i: ElementId,
    j: ElementId,
    prefix: Seq<Seq<u8>>,
    fuel: nat,
    key: Seq<u8>,
    d: Seq<ChangeV>,
)
    requires
        slots_finite(a),
        slots_finite(b),
        within(
            diff_keys(
                a,
                b,
                a.map_of(i),
                b.map_of(j),
                both_keys(a.map_of(i), b.map_of(j)),
                prefix,
                fuel,
            ),
            d,
        ),
        slot_reads(a, i, key) is Some || slot_reads(b, j, key) is Some,
    ensures
        live_value(slot_at(a.map_of(i).slots, key)) == slot_reads(a, i, key),
        live_value(slot_at(b.map_of(j).slots, key)) == slot_reads(b, j, key),
        within(diff_key(a, b, a.map_of(i), b.map_of(j), key, prefix, fuel), d),
{
    let m = a.map_of(i);
    let n = b.map_of(j);
    lemma_key_walked(m, n, key);
    lemma_keys_within(a, b, m, n, both_keys(m, n), prefix, fuel, key, d);
}

proof fn lemma_item_within(
    a: TreeV,
    b: TreeV,
    i: ElementId,
    j: ElementId,
    prefix: Seq<Seq<u8>>,
    fuel: nat,
    id: Stamp,
    d: Seq<ChangeV>,
)
    requires
        fuel > 0,
        within(diff_seqs(a, b, a.list_of(i), b.list_of(j), prefix, fuel), d),
        item_reads(a, i, id) is Some && item_reads(b, j, id) is Some,
    ensures
        within(diff_item(a, b, a.lists[i], b.lists[j], id, prefix, (fuel - 1) as nat), d),
{
    let l = a.list_of(i);
    let m = b.list_of(j);
    let ids = shared_ids(l, m);
    lemma_within_concat(
        diff_lists(l, m, enc_path(prefix)),
        diff_items(a, b, l, m, ids, prefix, (fuel - 1) as nat),
        d,
    );
    let both = list_live(l).to_set().intersect(list_live(m).to_set());
    vstd::seq_lib::seq_to_set_is_finite(list_live(l));
    lemma_ordered_exists::<Stamp>(both);
    assert(both.contains(id));
    assert(ids.to_set().contains(id));
    lemma_items_within(a, b, l, m, ids, prefix, (fuel - 1) as nat, id, d);
}

/// What is walked together is compared: every change between the elements at the end of
/// shared steps is in the diff.
proof fn lemma_walked(a: TreeV, b: TreeV, segs: Seq<SegV>)
    requires
        slots_finite(a),
        slots_finite(b),
        segs.len() <= depth_bound(a, b),
        segs.len() > 0 ==> shared(a, b, segs.drop_last()),
        reads_at(a, segs) is Some,
        reads_at(b, segs) is Some,
        segs.len() > 0 && segs.last() is Item ==> reads_at(a, segs)->Some_0.is_handle()
            && reads_at(b, segs)->Some_0.is_handle(),
    ensures
        within(
            diff_elements(
                a,
                b,
                reads_at(a, segs)->Some_0,
                reads_at(b, segs)->Some_0,
                seg_keys(segs),
                (depth_bound(a, b) - segs.len()) as nat,
            ),
            diff_trees(a, b),
        ),
    decreases segs.len(),
{
    let d = diff_trees(a, b);
    let f = depth_bound(a, b);
    if segs.len() == 0 {
        let root = ElementV::LwwMap(root_element());
        let raw = diff_elements(a, b, root, root, Seq::empty(), f);
        lemma_by_path(raw);
        assert(seg_keys(segs) =~= Seq::empty());
        assert forall|c: ChangeV| #[trigger] raw.contains(c) implies d.contains(c) by {
            assert(raw.to_multiset().contains(c)) by {
                raw.to_multiset_ensures();
            }
            by_path(raw).to_multiset_ensures();
        }
    } else {
        let h = segs.drop_last();
        let x = reads_at(a, h)->Some_0;
        let y = reads_at(b, h)->Some_0;
        let g = (f - h.len()) as nat;
        assert(g > 0);
        lemma_shared_handles(a, b, h);
        lemma_walked(a, b, h);
        let keys = seg_keys(h);
        let path = enc_path(keys);
        assert(x.kind() == y.kind());
        match segs.last() {
            SegV::Key(k) => {
                assert(seg_keys(segs) =~= keys.push(k));
                match (x, y) {
                    (ElementV::LwwMap(i), ElementV::LwwMap(j)) => {
                        lemma_slot_within(a, b, i, j, keys, (g - 1) as nat, k, d);
                    },
                    (ElementV::XmlElement(i), ElementV::XmlElement(j)) => {
                        let m = a.map_of(node_attrs_id(i));
                        let n = b.map_of(node_attrs_id(j));
                        lemma_within_concat(
                            diff_seqs(
                                a,
                                b,
                                a.list_of(node_children_id(i)),
                                b.list_of(node_children_id(j)),
                                keys,
                                g,
                            ),
                            diff_keys(a, b, m, n, both_keys(m, n), keys, (g - 1) as nat),
                            d,
                        );
                        lemma_slot_within(
                            a,
                            b,
                            node_attrs_id(i),
                            node_attrs_id(j),
                            keys,
                            (g - 1) as nat,
                            k,
                            d,
                        );
                    },
                    _ => {},
                }
            },
            SegV::Item(id) => {
                assert(seg_keys(segs) =~= item_path(keys, id));
                match (x, y) {
                    (ElementV::List(i), ElementV::List(j)) => {
                        lemma_item_within(a, b, i, j, keys, g, id, d);
                        lemma_live_items(a.lists[i], id);
                        lemma_live_items(b.lists[j], id);
                    },
                    (ElementV::XmlFragment(i), ElementV::XmlFragment(j)) => {
                        let l = node_children_id(i);
                        let m = node_children_id(j);
                        lemma_item_within(a, b, l, m, keys, g, id, d);
                        lemma_live_items(a.lists[l], id);
                        lemma_live_items(b.lists[m], id);
                    },
                    (ElementV::XmlElement(i), ElementV::XmlElement(j)) => {
                        let l = node_children_id(i);
                        let m = node_children_id(j);
                        let p = a.map_of(node_attrs_id(i));
                        let q = b.map_of(node_attrs_id(j));
                        lemma_within_concat(
                            diff_seqs(a, b, a.list_of(l), b.list_of(m), keys, g),
                            diff_keys(a, b, p, q, both_keys(p, q), keys, (g - 1) as nat),
                            d,
                        );
                        lemma_item_within(a, b, l, m, keys, g, id, d);
                        lemma_live_items(a.lists[l], id);
                        lemma_live_items(b.lists[m], id);
                    },
                    _ => {},
                }
            },
        }
    }
}

/// What a list shows, it has.
proof fn lemma_live_items(l: ListV, id: Stamp)
    requires
        list_live(l).contains(id),
    ensures
        l.items.dom().contains(id),
{
    lemma_live_in_items(l, crate::order::order(l.places), list_live(l).index_of(id));
}

proof fn lemma_shared_handles(a: TreeV, b: TreeV, segs: Seq<SegV>)
    requires
        shared(a, b, segs),
    ensures
        reads_at(a, segs)->Some_0.is_handle(),
        reads_at(b, segs)->Some_0.is_handle(),
{
}

/// How deep two replicas can nest, at most: no more than they have maps and sequences.
pub open spec fn nests_within(a: TreeV, b: TreeV, n: nat) -> bool {
    n <= a.maps.dom().len() + b.maps.dom().len() + a.lists.dom().len() + b.lists.dom().len() + 1
}

/// A diff is complete on leaves: where two replicas have, at one key of a container they
/// share, a scalar each or a register each, and the two read differently, the diff holds a
/// change of value there, from just what the one reads to just what the other does.
pub proof fn law_a_diff_reports_every_leaf(a: TreeV, b: TreeV, segs: Seq<SegV>, key: Seq<u8>)
    requires
        slots_finite(a),
        slots_finite(b),
        shared(a, b, segs),
        nests_within(a, b, segs.len() + 1),
    ensures
        ({
            let at = segs.push(SegV::Key(key));
            let path = enc_path(seg_keys(at));
            match (reads_at(a, at), reads_at(b, at)) {
                (Some(ElementV::Scalar(v)), Some(ElementV::Scalar(w))) => v != w ==> diff_trees(
                    a,
                    b,
                ).contains(ChangeV::Value { path, old: v, new: w }),
                (Some(ElementV::Register(r)), Some(ElementV::Register(s))) => r.value != s.value
                    ==> diff_trees(a, b).contains(
                    ChangeV::Value { path, old: r.value, new: s.value },
                ),
                _ => true,
            }
        }),
{
    let at = segs.push(SegV::Key(key));
    assert(at.drop_last() =~= segs);
    if reads_at(a, at) is Some && reads_at(b, at) is Some {
        lemma_walked(a, b, at);
        let x = reads_at(a, at)->Some_0;
        let y = reads_at(b, at)->Some_0;
        let f = (depth_bound(a, b) - at.len()) as nat;
        let s = diff_elements(a, b, x, y, seg_keys(at), f);
        if s.len() > 0 {
            assert(s.contains(s[0]));
        }
    }
}

/// A diff is complete on counters, on what came and went at a key, and on what was replaced
/// by something of another kind.
pub proof fn law_a_diff_reports_every_slot(a: TreeV, b: TreeV, segs: Seq<SegV>, key: Seq<u8>)
    requires
        slots_finite(a),
        slots_finite(b),
        shared(a, b, segs),
        nests_within(a, b, segs.len() + 1),
    ensures
        ({
            let at = segs.push(SegV::Key(key));
            let path = enc_path(seg_keys(at));
            let d = diff_trees(a, b);
            match (reads_at(a, at), reads_at(b, at)) {
                (None, Some(e)) => d.contains(ChangeV::Added { path, kind: e.kind() }),
                (Some(e), None) => d.contains(ChangeV::Removed { path, kind: e.kind() }),
                (Some(ElementV::Counter(i)), Some(ElementV::Counter(j))) => count_reads(a, i)
                    != count_reads(b, j) ==> d.contains(
                    ChangeV::Counter {
                        path,
                        old: count_reads(a, i) as i64,
                        new: count_reads(b, j) as i64,
                    },
                ),
                (Some(x), Some(y)) => x.kind() != y.kind() ==> d.contains(
                    ChangeV::Removed { path, kind: x.kind() },
                ) && d.contains(ChangeV::Added { path, kind: y.kind() }),
                (None, None) => true,
            }
        }),
{
    let at = segs.push(SegV::Key(key));
    assert(at.drop_last() =~= segs);
    let d = diff_trees(a, b);
    let f = (depth_bound(a, b) - at.len()) as nat;
    let path = enc_path(seg_keys(at));
    if reads_at(a, at) is Some && reads_at(b, at) is Some {
        lemma_walked(a, b, at);
        let x = reads_at(a, at)->Some_0;
        let y = reads_at(b, at)->Some_0;
        let s = diff_elements(a, b, x, y, seg_keys(at), f);
        if s.len() > 0 {
            assert(s.contains(s[0]));
        }
        if x.kind() != y.kind() {
            assert(s.contains(s[1]));
        }
    } else if reads_at(a, at) is Some || reads_at(b, at) is Some {
        lemma_shared_handles(a, b, segs);
        lemma_walked(a, b, segs);
        let x = reads_at(a, segs)->Some_0;
        let y = reads_at(b, segs)->Some_0;
        let keys = seg_keys(segs);
        let g = (depth_bound(a, b) - segs.len()) as nat;
        assert(seg_keys(at) =~= keys.push(key));
        assert(x.kind() == y.kind());
        match (x, y) {
            (ElementV::LwwMap(i), ElementV::LwwMap(j)) => {
                lemma_slot_within(a, b, i, j, keys, (g - 1) as nat, key, d);
                let s = diff_key(a, b, a.map_of(i), b.map_of(j), key, keys, (g - 1) as nat);
                assert(s.contains(s[0]));
            },
            (ElementV::XmlElement(i), ElementV::XmlElement(j)) => {
                let m = a.map_of(node_attrs_id(i));
                let n = b.map_of(node_attrs_id(j));
                lemma_within_concat(
                    diff_seqs(
                        a,
                        b,
                        a.list_of(node_children_id(i)),
                        b.list_of(node_children_id(j)),
                        keys,
                        g,
                    ),
                    diff_keys(a, b, m, n, both_keys(m, n), keys, (g - 1) as nat),
                    d,
                );
                lemma_slot_within(
                    a,
                    b,
                    node_attrs_id(i),
                    node_attrs_id(j),
                    keys,
                    (g - 1) as nat,
                    key,
                    d,
                );
                let s = diff_key(a, b, m, n, key, keys, (g - 1) as nat);
                assert(s.contains(s[0]));
            },
            _ => {},
        }
    }
}

/// An empty diff means that every leaf reads the same on both sides: at each key of what
/// the two share, both read the same scalar, the same register value, or nothing.
pub proof fn law_an_empty_diff_means_equal_leaves(
    a: TreeV,
    b: TreeV,
    segs: Seq<SegV>,
    key: Seq<u8>,
)
    requires
        slots_finite(a),
        slots_finite(b),
        shared(a, b, segs),
        nests_within(a, b, segs.len() + 1),
        diff_trees(a, b).len() == 0,
    ensures
        ({
            let at = segs.push(SegV::Key(key));
            match (reads_at(a, at), reads_at(b, at)) {
                (None, None) => true,
                (Some(ElementV::Scalar(v)), Some(y)) => y == ElementV::Scalar(v),
                (Some(ElementV::Register(r)), Some(y)) => y matches ElementV::Register(s) && s.value
                    == r.value,
                (Some(ElementV::Counter(i)), Some(y)) => y matches ElementV::Counter(j)
                    && count_reads(a, i) == count_reads(b, j),
                (Some(x), Some(y)) => x.kind() == y.kind(),
                _ => false,
            }
        }),
{
    law_a_diff_reports_every_leaf(a, b, segs, key);
    law_a_diff_reports_every_slot(a, b, segs, key);
}

// --- a diff makes nothing up ---

/// An item as it is told: a scalar or a register by its value, a container by its kind.
pub open spec fn told_item(e: ElementV) -> SeqItemV {
    match e {
        ElementV::Scalar(v) => SeqItemV::Scalar(v),
        ElementV::Register(r) => SeqItemV::Scalar(r.value),
        ElementV::Counter(_) => SeqItemV::Composite(ElementKind::Counter),
        ElementV::LwwMap(_) => SeqItemV::Composite(ElementKind::LwwMap),
        ElementV::List(_) => SeqItemV::Composite(ElementKind::List),
        ElementV::Text(_) => SeqItemV::Composite(ElementKind::Text),
        ElementV::XmlElement(_) => SeqItemV::Composite(ElementKind::XmlElement),
        ElementV::XmlFragment(_) => SeqItemV::Composite(ElementKind::XmlFragment),
    }
}

/// Whether some items stand in a sequence from an index on, and none of them is live in
/// another.
pub open spec fn only_in(m: ListV, l: ListV, index: int, items: Seq<SeqItemV>) -> bool {
    &&& items.len() > 0
    &&& 0 <= index
    &&& index + items.len() <= list_live(m).len()
    &&& forall|i: int|
        index <= i < index + items.len() ==> !list_live(l).contains(#[trigger] list_live(m)[i])
            && items[i - index] == told_item(m.items[list_live(m)[i]].value)
}

/// Whether some codepoints stand in a text from an index on, and none of them is live in
/// another.
pub open spec fn text_only_in(m: ListV, l: ListV, index: int, s: Seq<char>) -> bool {
    &&& s.len() > 0
    &&& 0 <= index
    &&& index + s.len() <= list_live(m).len()
    &&& forall|i: int|
        index <= i < index + s.len() ==> !list_live(l).contains(#[trigger] list_live(m)[i])
            && s[i - index] == text_of(m)[i]
}

/// Whether two elements are not one thing: only one is there, or they differ in kind or tag.
pub open spec fn unlike(a: TreeV, b: TreeV, x: Option<ElementV>, y: Option<ElementV>) -> bool {
    match (x, y) {
        (Some(ElementV::XmlElement(i)), Some(ElementV::XmlElement(j))) => tag_reads(a, i)
            != tag_reads(b, j),
        (Some(e), Some(f)) => e.kind() != f.kind(),
        (None, None) => false,
        _ => true,
    }
}

/// Whether a change tells a difference that is there, at the end of some steps.
pub open spec fn is_there(a: TreeV, b: TreeV, segs: Seq<SegV>, c: ChangeV) -> bool {
    let x = reads_at(a, segs);
    let y = reads_at(b, segs);
    change_path(c) == enc_path(seg_keys(segs)) && match c {
        ChangeV::Added { kind, .. } => (y matches Some(e) && e.kind() == kind) && unlike(a, b, x, y),
        ChangeV::Removed { kind, .. } => (x matches Some(e) && e.kind() == kind) && unlike(
            a,
            b,
            x,
            y,
        ),
        ChangeV::Value { old, new, .. } => old != new && match (x, y) {
            (Some(ElementV::Scalar(v)), Some(ElementV::Scalar(w))) => v == old && w == new,
            (Some(ElementV::Register(r)), Some(ElementV::Register(s))) => r.value == old && s.value
                == new,
            _ => false,
        },
        ChangeV::Counter { old, new, .. } => match (x, y) {
            (Some(ElementV::Counter(i)), Some(ElementV::Counter(j))) => count_reads(a, i)
                != count_reads(b, j) && old == count_reads(a, i) as i64 && new == count_reads(
                b,
                j,
            ) as i64,
            _ => false,
        },
        ChangeV::ListInsert { index, items, .. } => x is Some && y is Some && only_in(
            seq_reads(b, y->Some_0),
            seq_reads(a, x->Some_0),
            index as int,
            items,
        ),
        ChangeV::ListDelete { index, items, .. } => x is Some && y is Some && only_in(
            seq_reads(a, x->Some_0),
            seq_reads(b, y->Some_0),
            index as int,
            items,
        ),
        ChangeV::TextInsert { index, text, .. } => x is Some && y is Some && text_only_in(
            seq_reads(b, y->Some_0),
            seq_reads(a, x->Some_0),
            index as int,
            text,
        ),
        ChangeV::TextDelete { index, text, .. } => x is Some && y is Some && text_only_in(
            seq_reads(a, x->Some_0),
            seq_reads(b, y->Some_0),
            index as int,
            text,
        ),
    }
}

/// Whether every change tells a difference that is there somewhere.
spec fn all_there(a: TreeV, b: TreeV, s: Seq<ChangeV>) -> bool {
    forall|c: ChangeV| #[trigger]
        s.contains(c) ==> exists|segs: Seq<SegV>| #[trigger] is_there(a, b, segs, c)
}

proof fn lemma_there_concat(a: TreeV, b: TreeV, s: Seq<ChangeV>, t: Seq<ChangeV>)
    requires
        all_there(a, b, s),
        all_there(a, b, t),
    ensures
        all_there(a, b, s + t),
{
    assert forall|c: ChangeV| #[trigger] (s + t).contains(c) implies exists|segs: Seq<SegV>|
        #[trigger] is_there(a, b, segs, c) by {
        let i = (s + t).index_of(c);
        if i < s.len() {
            assert(s[i] == c);
            assert(s.contains(c));
        } else {
            assert(t[i - s.len()] == c);
            assert(t.contains(c));
        }
    }
}

/// Whether no sequence of a replica is longer than an index can tell.
pub open spec fn lengths_fit(t: TreeV) -> bool {
    &&& forall|l: ElementId| #[trigger]
        t.lists.dom().contains(l) ==> list_live(t.lists[l]).len() <= usize::MAX
    &&& forall|l: ElementId| #[trigger]
        t.texts.dom().contains(l) ==> list_live(t.texts[l]).len() <= usize::MAX
}

proof fn lemma_empty_live(id: ElementId)
    ensures
        list_live(empty_list(id)) == Seq::<Stamp>::empty(),
{
    let l = empty_list(id);
    let live = list_live(l);
    if live.len() > 0 {
        lemma_live_in_items(l, crate::order::order(l.places), 0);
    }
    assert(live =~= Seq::empty());
}

proof fn lemma_item_told(l: ListV, i: int)
    requires
        0 <= i < list_live(l).len(),
    ensures
        item_seq(l)[i] == (list_live(l)[i], told_item(l.items[list_live(l)[i]].value)),
{
}

/// What a run of items says is so.
proof fn lemma_runs_there(l: ListV, m: ListV, k: int)
    requires
        list_live(m).len() <= usize::MAX,
        0 <= k < runs(item_seq(m), list_live(l).to_set()).len(),
    ensures
        ({
            let r = runs(item_seq(m), list_live(l).to_set())[k];
            only_in(m, l, (r.0 as usize) as int, r.1)
        }),
{
    let present = list_live(l).to_set();
    let s = item_seq(m);
    law_runs_are_what_is_missing(s, present);
    let r = runs(s, present)[k];
    assert(is_run(s, present, r));
    assert forall|i: int| r.0 <= i < r.0 + r.1.len() implies !list_live(l).contains(
        #[trigger] list_live(m)[i],
    ) && r.1[i - r.0] == told_item(m.items[list_live(m)[i]].value) by {
        assert(!present.contains(s[i].0) && r.1[i - r.0] == s[i].1);
        lemma_item_told(m, i);
    }
}

proof fn lemma_text_runs_there(l: ListV, m: ListV, k: int)
    requires
        list_live(m).len() <= usize::MAX,
        0 <= k < runs(char_seq(m), list_live(l).to_set()).len(),
    ensures
        ({
            let r = runs(char_seq(m), list_live(l).to_set())[k];
            text_only_in(m, l, (r.0 as usize) as int, r.1)
        }),
{
    let present = list_live(l).to_set();
    let s = char_seq(m);
    law_runs_are_what_is_missing(s, present);
    let r = runs(s, present)[k];
    assert(is_run(s, present, r));
    assert forall|i: int| r.0 <= i < r.0 + r.1.len() implies !list_live(l).contains(
        #[trigger] list_live(m)[i],
    ) && r.1[i - r.0] == text_of(m)[i] by {
        assert(!present.contains(s[i].0) && r.1[i - r.0] == s[i].1);
    }
}

/// What is said of two sequences is so.
proof fn lemma_lists_there(a: TreeV, b: TreeV, segs: Seq<SegV>)
    requires
        reads_at(a, segs) is Some,
        reads_at(b, segs) is Some,
        list_live(seq_reads(a, reads_at(a, segs)->Some_0)).len() <= usize::MAX,
        list_live(seq_reads(b, reads_at(b, segs)->Some_0)).len() <= usize::MAX,
    ensures
        ({
            let l = seq_reads(a, reads_at(a, segs)->Some_0);
            let m = seq_reads(b, reads_at(b, segs)->Some_0);
            all_there(a, b, diff_lists(l, m, enc_path(seg_keys(segs)))) && all_there(
                a,
                b,
                diff_texts(l, m, enc_path(seg_keys(segs))),
            )
        }),
{
    let l = seq_reads(a, reads_at(a, segs)->Some_0);
    let m = seq_reads(b, reads_at(b, segs)->Some_0);
    let path = enc_path(seg_keys(segs));
    reveal(diff_lists);
    reveal(diff_texts);
    let gone = list_deletes(path, runs(item_seq(l), list_live(m).to_set()));
    let come = list_inserts(path, runs(item_seq(m), list_live(l).to_set()));
    assert forall|c: ChangeV| #[trigger] gone.contains(c) implies exists|t: Seq<SegV>|
        #[trigger] is_there(a, b, t, c) by {
        let k = gone.index_of(c);
        lemma_runs_there(m, l, k);
        assert(is_there(a, b, segs, c));
    }
    assert forall|c: ChangeV| #[trigger] come.contains(c) implies exists|t: Seq<SegV>|
        #[trigger] is_there(a, b, t, c) by {
        let k = come.index_of(c);
        lemma_runs_there(l, m, k);
        assert(is_there(a, b, segs, c));
    }
    lemma_there_concat(a, b, gone, come);
    let cut = text_deletes(path, runs(char_seq(l), list_live(m).to_set()));
    let put = text_inserts(path, runs(char_seq(m), list_live(l).to_set()));
    assert forall|c: ChangeV| #[trigger] cut.contains(c) implies exists|t: Seq<SegV>|
        #[trigger] is_there(a, b, t, c) by {
        let k = cut.index_of(c);
        lemma_text_runs_there(m, l, k);
        assert(is_there(a, b, segs, c));
    }
    assert forall|c: ChangeV| #[trigger] put.contains(c) implies exists|t: Seq<SegV>|
        #[trigger] is_there(a, b, t, c) by {
        let k = put.index_of(c);
        lemma_text_runs_there(l, m, k);
        assert(is_there(a, b, segs, c));
    }
    lemma_there_concat(a, b, cut, put);
}

proof fn lemma_length_fits(t: TreeV, e: ElementV)
    requires
        lengths_fit(t),
    ensures
        list_live(seq_reads(t, e)).len() <= usize::MAX,
{
    lemma_empty_live(root_element());
    match e {
        ElementV::List(id) => lemma_empty_live(id),
        ElementV::XmlElement(id) => lemma_empty_live(node_children_id(id)),
        ElementV::XmlFragment(id) => lemma_empty_live(node_children_id(id)),
        ElementV::Text(id) => lemma_empty_live(id),
        _ => {},
    }
}

/// What is said inside the items two sequences share is so.
proof fn lemma_items_there(
    a: TreeV,
    b: TreeV,
    segs: Seq<SegV>,
    ids: Seq<Stamp>,
    fuel: nat,
)
    requires
        lengths_fit(a),
        lengths_fit(b),
        reads_at(a, segs) is Some,
        reads_at(b, segs) is Some,
        !(reads_at(a, segs)->Some_0 is Text),
        !(reads_at(b, segs)->Some_0 is Text),
        forall|i: int|
            0 <= i < ids.len() ==> list_live(
                seq_reads(a, reads_at(a, segs)->Some_0),
            ).contains(#[trigger] ids[i]) && list_live(
                seq_reads(b, reads_at(b, segs)->Some_0),
            ).contains(ids[i]),
    ensures
        all_there(
            a,
            b,
            diff_items(
                a,
                b,
                seq_reads(a, reads_at(a, segs)->Some_0),
                seq_reads(b, reads_at(b, segs)->Some_0),
                ids,
                seg_keys(segs),
                fuel,
            ),
        ),
    decreases fuel, ids.len() + 3,
{
    let x = reads_at(a, segs)->Some_0;
    let y = reads_at(b, segs)->Some_0;
    let l = seq_reads(a, x);
    let m = seq_reads(b, y);
    let keys = seg_keys(segs);
    if ids.len() > 0 {
        let h = ids.drop_last();
        let id = ids.last();
        assert(ids[ids.len() - 1] == id);
        assert forall|i: int| 0 <= i < h.len() implies list_live(l).contains(#[trigger] h[i])
            && list_live(m).contains(h[i]) by {
            assert(h[i] == ids[i]);
        }
        lemma_items_there(a, b, segs, h, fuel);
        let at = segs.push(SegV::Item(id));
        assert(at.drop_last() =~= segs);
        assert(seg_keys(at) =~= item_path(keys, id));
        lemma_step_item(a, x, id);
        lemma_step_item(b, y, id);
        let e = diff_item(a, b, l, m, id, keys, fuel);
        if l.items[id].value.is_handle() && m.items[id].value.is_handle() {
            lemma_element_there(a, b, at, fuel);
        }
        assert(all_there(a, b, e));
        lemma_there_concat(a, b, diff_items(a, b, l, m, h, keys, fuel), e);
    }
}

/// A live item is one step inside.
proof fn lemma_step_item(t: TreeV, e: ElementV, id: Stamp)
    requires
        list_live(seq_reads(t, e)).contains(id),
        !(e is Text),
    ensures
        step_in(t, e, SegV::Item(id)) == Some(seq_reads(t, e).items[id].value),
{
    lemma_empty_live(root_element());
    match e {
        ElementV::List(i) => lemma_empty_live(i),
        ElementV::XmlElement(i) => lemma_empty_live(node_children_id(i)),
        ElementV::XmlFragment(i) => lemma_empty_live(node_children_id(i)),
        _ => {},
    }
}

proof fn lemma_keys_there(
    a: TreeV,
    b: TreeV,
    segs: Seq<SegV>,
    i: ElementId,
    j: ElementId,
    keys: Seq<Seq<u8>>,
    fuel: nat,
)
    requires
        lengths_fit(a),
        lengths_fit(b),
        forall|k: Seq<u8>| #[trigger] reads_at(a, segs.push(SegV::Key(k))) == slot_reads(a, i, k),
        forall|k: Seq<u8>| #[trigger] reads_at(b, segs.push(SegV::Key(k))) == slot_reads(b, j, k),
    ensures
        all_there(a, b, diff_keys(a, b, a.map_of(i), b.map_of(j), keys, seg_keys(segs), fuel)),
    decreases fuel, keys.len() + 3,
{
    let m = a.map_of(i);
    let n = b.map_of(j);
    let prefix = seg_keys(segs);
    if keys.len() > 0 {
        let h = keys.drop_last();
        let k = keys.last();
        lemma_keys_there(a, b, segs, i, j, h, fuel);
        let at = segs.push(SegV::Key(k));
        assert(seg_keys(at) =~= prefix.push(k));
        assert(reads_at(a, at) == slot_reads(a, i, k));
        assert(reads_at(b, at) == slot_reads(b, j, k));
        let e = diff_key(a, b, m, n, k, prefix, fuel);
        assert(live_value(slot_at(m.slots, k)) == slot_reads(a, i, k));
        assert(live_value(slot_at(n.slots, k)) == slot_reads(b, j, k));
        match (slot_reads(a, i, k), slot_reads(b, j, k)) {
            (Some(x), Some(y)) => {
                lemma_element_there(a, b, at, fuel);
            },
            (None, None) => {},
            _ => {
                assert forall|c: ChangeV| #[trigger] e.contains(c) implies exists|t: Seq<SegV>|
                    #[trigger] is_there(a, b, t, c) by {
                    assert(c == e[0]);
                    assert(is_there(a, b, at, c));
                }
            },
        }
        assert(all_there(a, b, e));
        lemma_there_concat(a, b, diff_keys(a, b, m, n, h, prefix, fuel), e);
    }
}

/// What is said of two sequences and inside them is so.
proof fn lemma_seqs_there(a: TreeV, b: TreeV, segs: Seq<SegV>, fuel: nat)
    requires
        lengths_fit(a),
        lengths_fit(b),
        reads_at(a, segs) is Some,
        reads_at(b, segs) is Some,
        !(reads_at(a, segs)->Some_0 is Text),
        !(reads_at(b, segs)->Some_0 is Text),
    ensures
        all_there(
            a,
            b,
            diff_seqs(
                a,
                b,
                seq_reads(a, reads_at(a, segs)->Some_0),
                seq_reads(b, reads_at(b, segs)->Some_0),
                seg_keys(segs),
                fuel,
            ),
        ),
    decreases fuel, 0nat,
{
    let x = reads_at(a, segs)->Some_0;
    let y = reads_at(b, segs)->Some_0;
    let l = seq_reads(a, x);
    let m = seq_reads(b, y);
    let keys = seg_keys(segs);
    lemma_length_fits(a, x);
    lemma_length_fits(b, y);
    lemma_lists_there(a, b, segs);
    let runs = diff_lists(l, m, enc_path(keys));
    if fuel > 0 {
        let ids = shared_ids(l, m);
        let both = list_live(l).to_set().intersect(list_live(m).to_set());
        vstd::seq_lib::seq_to_set_is_finite(list_live(l));
        lemma_ordered_exists::<Stamp>(both);
        assert forall|i: int| 0 <= i < ids.len() implies list_live(l).contains(#[trigger] ids[i])
            && list_live(m).contains(ids[i]) by {
            assert(ids.to_set().contains(ids[i]));
        }
        lemma_items_there(a, b, segs, ids, (fuel - 1) as nat);
        lemma_there_concat(a, b, runs, diff_items(a, b, l, m, ids, keys, (fuel - 1) as nat));
    } else {
        lemma_there_concat(a, b, runs, Seq::empty());
    }
}

/// What is said of two elements is so.
proof fn lemma_element_there(a: TreeV, b: TreeV, segs: Seq<SegV>, fuel: nat)
    requires
        lengths_fit(a),
        lengths_fit(b),
        reads_at(a, segs) is Some,
        reads_at(b, segs) is Some,
    ensures
        all_there(
            a,
            b,
            diff_elements(
                a,
                b,
                reads_at(a, segs)->Some_0,
                reads_at(b, segs)->Some_0,
                seg_keys(segs),
                fuel,
            ),
        ),
    decreases fuel, 1nat,
{
    let x = reads_at(a, segs)->Some_0;
    let y = reads_at(b, segs)->Some_0;
    let keys = seg_keys(segs);
    let e = diff_elements(a, b, x, y, keys, fuel);
    assert forall|t: TreeV, k: Seq<u8>| #[trigger]
        reads_at(t, segs.push(SegV::Key(k))) == match reads_at(t, segs) {
            Some(v) => step_in(t, v, SegV::Key(k)),
            None => None,
        } by {
        assert(segs.push(SegV::Key(k)).drop_last() =~= segs);
    }
    match (x, y) {
        (ElementV::LwwMap(i), ElementV::LwwMap(j)) => {
            if fuel > 0 {
                lemma_keys_there(
                    a,
                    b,
                    segs,
                    i,
                    j,
                    both_keys(a.map_of(i), b.map_of(j)),
                    (fuel - 1) as nat,
                );
            }
        },
        (ElementV::List(i), ElementV::List(j)) => {
            lemma_seqs_there(a, b, segs, fuel);
        },
        (ElementV::XmlFragment(i), ElementV::XmlFragment(j)) => {
            lemma_seqs_there(a, b, segs, fuel);
        },
        (ElementV::Text(i), ElementV::Text(j)) => {
            lemma_length_fits(a, x);
            lemma_length_fits(b, y);
            lemma_lists_there(a, b, segs);
        },
        (ElementV::XmlElement(i), ElementV::XmlElement(j)) => {
            if a.tag_of(i) != b.tag_of(j) {
                lemma_replaced_there(a, b, segs);
            } else if fuel > 0 {
                lemma_seqs_there(a, b, segs, fuel);
                let p = node_attrs_id(i);
                let q = node_attrs_id(j);
                let ks = both_keys(a.map_of(p), b.map_of(q));
                lemma_keys_there(a, b, segs, p, q, ks, (fuel - 1) as nat);
                lemma_there_concat(
                    a,
                    b,
                    diff_seqs(a, b, seq_reads(a, x), seq_reads(b, y), keys, fuel),
                    diff_keys(a, b, a.map_of(p), b.map_of(q), ks, keys, (fuel - 1) as nat),
                );
            }
        },
        _ => {
            if x.kind() != y.kind() {
                lemma_replaced_there(a, b, segs);
            } else {
                assert forall|c: ChangeV| #[trigger] e.contains(c) implies exists|t: Seq<SegV>|
                    #[trigger] is_there(a, b, t, c) by {
                    assert(c == e[0]);
                    assert(is_there(a, b, segs, c));
                }
            }
        },
    }
}

proof fn lemma_replaced_there(a: TreeV, b: TreeV, segs: Seq<SegV>)
    requires
        reads_at(a, segs) is Some,
        reads_at(b, segs) is Some,
        unlike(a, b, reads_at(a, segs), reads_at(b, segs)),
    ensures
        all_there(
            a,
            b,
            replaced_by(
                enc_path(seg_keys(segs)),
                reads_at(a, segs)->Some_0.kind(),
                reads_at(b, segs)->Some_0.kind(),
            ),
        ),
{
    let e = replaced_by(
        enc_path(seg_keys(segs)),
        reads_at(a, segs)->Some_0.kind(),
        reads_at(b, segs)->Some_0.kind(),
    );
    assert forall|c: ChangeV| #[trigger] e.contains(c) implies exists|t: Seq<SegV>| #[trigger]
        is_there(a, b, t, c) by {
        let i = e.index_of(c);
        assert(c == e[0] || c == e[1]);
        assert(is_there(a, b, segs, c));
    }
}

/// A diff makes nothing up: every change it holds tells a difference that is there, at the
/// path it names. What is added or removed is there on one side and not, or as something
/// else, on the other; a value or a count changed from what the one reads to what the other
/// does; and what a sequence gained or lost stands there from the index told on, and not in
/// the other.
pub proof fn law_a_diff_makes_nothing_up(a: TreeV, b: TreeV, c: ChangeV)
    requires
        lengths_fit(a),
        lengths_fit(b),
        diff_trees(a, b).contains(c),
    ensures
        exists|segs: Seq<SegV>| #[trigger] is_there(a, b, segs, c),
{
    let segs = Seq::<SegV>::empty();
    assert(seg_keys(segs) =~= Seq::empty());
    let root = ElementV::LwwMap(root_element());
    let raw = diff_elements(a, b, root, root, Seq::empty(), depth_bound(a, b));
    lemma_by_path(raw);
    lemma_element_there(a, b, segs, depth_bound(a, b));
}

// --- a diff leaves nothing out of a sequence ---

/// Whether a change tells what came or went at a place of a sequence.
pub open spec fn tells_of(c: ChangeV, path: Seq<u8>, came: bool, pos: int) -> bool {
    match c {
        ChangeV::ListInsert { path: p, index, items } => came && p == path && index <= pos < index
            + items.len(),
        ChangeV::TextInsert { path: p, index, text } => came && p == path && index <= pos < index
            + text.len(),
        ChangeV::ListDelete { path: p, index, items } => !came && p == path && index <= pos < index
            + items.len(),
        ChangeV::TextDelete { path: p, index, text } => !came && p == path && index <= pos < index
            + text.len(),
        _ => false,
    }
}

/// Every place of a sequence whose id another does not show is told.
proof fn lemma_places_told(l: ListV, m: ListV, path: Seq<u8>, pos: int)
    requires
        list_live(l).len() <= usize::MAX,
        list_live(m).len() <= usize::MAX,
    ensures
        0 <= pos < list_live(m).len() && !list_live(l).contains(list_live(m)[pos]) ==> (exists|
            c: ChangeV,
        | #[trigger]
            diff_lists(l, m, path).contains(c) && tells_of(c, path, true, pos)) && (exists|
            c: ChangeV,
        | #[trigger]
            diff_texts(l, m, path).contains(c) && tells_of(c, path, true, pos)),
        0 <= pos < list_live(l).len() && !list_live(m).contains(list_live(l)[pos]) ==> (exists|
            c: ChangeV,
        | #[trigger]
            diff_lists(l, m, path).contains(c) && tells_of(c, path, false, pos)) && (exists|
            c: ChangeV,
        | #[trigger]
            diff_texts(l, m, path).contains(c) && tells_of(c, path, false, pos)),
{
    reveal(diff_lists);
    reveal(diff_texts);
    let gone = runs(item_seq(l), list_live(m).to_set());
    let come = runs(item_seq(m), list_live(l).to_set());
    let cut = runs(char_seq(l), list_live(m).to_set());
    let put = runs(char_seq(m), list_live(l).to_set());
    law_runs_are_what_is_missing(item_seq(l), list_live(m).to_set());
    law_runs_are_what_is_missing(item_seq(m), list_live(l).to_set());
    law_runs_are_what_is_missing(char_seq(l), list_live(m).to_set());
    law_runs_are_what_is_missing(char_seq(m), list_live(l).to_set());
    if 0 <= pos < list_live(m).len() && !list_live(l).contains(list_live(m)[pos]) {
        assert(item_seq(m)[pos].0 == list_live(m)[pos]);
        assert(char_seq(m)[pos].0 == list_live(m)[pos]);
        let k = choose|k: int| 0 <= k < come.len() && spans(#[trigger] come[k], pos);
        let j = choose|j: int| 0 <= j < put.len() && spans(#[trigger] put[j], pos);
        assert(is_run(item_seq(m), list_live(l).to_set(), come[k]));
        assert(is_run(char_seq(m), list_live(l).to_set(), put[j]));
        let c = list_inserts(path, come)[k];
        let t = text_inserts(path, put)[j];
        assert(diff_lists(l, m, path)[list_deletes(path, gone).len() + k] == c);
        assert(diff_texts(l, m, path)[text_deletes(path, cut).len() + j] == t);
        assert(diff_lists(l, m, path).contains(c) && tells_of(c, path, true, pos));
        assert(diff_texts(l, m, path).contains(t) && tells_of(t, path, true, pos));
    }
    if 0 <= pos < list_live(l).len() && !list_live(m).contains(list_live(l)[pos]) {
        assert(item_seq(l)[pos].0 == list_live(l)[pos]);
        assert(char_seq(l)[pos].0 == list_live(l)[pos]);
        let k = choose|k: int| 0 <= k < gone.len() && spans(#[trigger] gone[k], pos);
        let j = choose|j: int| 0 <= j < cut.len() && spans(#[trigger] cut[j], pos);
        assert(is_run(item_seq(l), list_live(m).to_set(), gone[k]));
        assert(is_run(char_seq(l), list_live(m).to_set(), cut[j]));
        let c = list_deletes(path, gone)[k];
        let t = text_deletes(path, cut)[j];
        assert(diff_lists(l, m, path)[k] == c);
        assert(diff_texts(l, m, path)[j] == t);
        assert(diff_lists(l, m, path).contains(c) && tells_of(c, path, false, pos));
        assert(diff_texts(l, m, path).contains(t) && tells_of(t, path, false, pos));
    }
}

/// A diff is complete on sequences: where two replicas have one list, one text or one node's
/// children at a place both reach, every item the second shows and the first does not is in
/// what came, at the index it stands at, and every item the first shows and the second does
/// not is in what went.
pub proof fn law_a_diff_reports_every_item(a: TreeV, b: TreeV, segs: Seq<SegV>, pos: int)
    requires
        slots_finite(a),
        slots_finite(b),
        lengths_fit(a),
        lengths_fit(b),
        segs.len() > 0,
        shared(a, b, segs) || shared(a, b, segs.drop_last()) && (reads_at(a, segs) matches Some(
            ElementV::Text(_),
        )) && (reads_at(b, segs) matches Some(ElementV::Text(_))),
        nests_within(a, b, segs.len() + 1),
    ensures
        ({
            let l = list_live(seq_reads(a, reads_at(a, segs)->Some_0));
            let m = list_live(seq_reads(b, reads_at(b, segs)->Some_0));
            let path = enc_path(seg_keys(segs));
            &&& 0 <= pos < m.len() && !l.contains(m[pos]) ==> exists|c: ChangeV| #[trigger]
                diff_trees(a, b).contains(c) && tells_of(c, path, true, pos)
            &&& 0 <= pos < l.len() && !m.contains(l[pos]) ==> exists|c: ChangeV| #[trigger]
                diff_trees(a, b).contains(c) && tells_of(c, path, false, pos)
        }),
{
    let x = reads_at(a, segs)->Some_0;
    let y = reads_at(b, segs)->Some_0;
    let l = seq_reads(a, x);
    let m = seq_reads(b, y);
    let d = diff_trees(a, b);
    let keys = seg_keys(segs);
    let path = enc_path(keys);
    let f = (depth_bound(a, b) - segs.len()) as nat;
    lemma_length_fits(a, x);
    lemma_length_fits(b, y);
    lemma_empty_live(root_element());
    lemma_walked(a, b, segs);
    lemma_places_told(l, m, path, pos);
    let e = diff_elements(a, b, x, y, keys, f);
    match (x, y) {
        (ElementV::Text(i), ElementV::Text(j)) => {
            assert(e == diff_texts(l, m, path));
        },
        (ElementV::XmlElement(i), ElementV::XmlElement(j)) => {
            let p = a.map_of(node_attrs_id(i));
            let q = b.map_of(node_attrs_id(j));
            let attrs = diff_keys(a, b, p, q, both_keys(p, q), keys, (f - 1) as nat);
            lemma_within_concat(diff_seqs(a, b, l, m, keys, f), attrs, d);
            lemma_seq_within(a, b, l, m, keys, f, d);
        },
        (ElementV::LwwMap(i), ElementV::LwwMap(j)) => {},
        _ => {
            assert(e == diff_seqs(a, b, l, m, keys, f));
            lemma_seq_within(a, b, l, m, keys, f, d);
        },
    }
}

/// What two sequences show is in what is said of them.
proof fn lemma_seq_within(
    a: TreeV,
    b: TreeV,
    l: ListV,
    m: ListV,
    keys: Seq<Seq<u8>>,
    fuel: nat,
    d: Seq<ChangeV>,
)
    requires
        within(diff_seqs(a, b, l, m, keys, fuel), d),
    ensures
        within(diff_lists(l, m, enc_path(keys)), d),
{
    let e = diff_lists(l, m, enc_path(keys));
    if fuel > 0 {
        lemma_within_concat(
            e,
            diff_items(a, b, l, m, shared_ids(l, m), keys, (fuel - 1) as nat),
            d,
        );
    } else {
        assert(e + Seq::<ChangeV>::empty() =~= e);
    }
}

} // verus!
