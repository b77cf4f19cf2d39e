//! What holds of every sequence: each id once, an insert where it was asked for, deletes
//! that touch nothing else, and merges in any order.

use crate::anchor::{Anchor, Side};
use crate::element::ElementV;
use crate::elementid::ElementId;
use crate::list::{list_delete, list_insert, list_join, ListV};
use crate::list_state::empty_list;
use crate::order::{
    ascends, at_depth, kid_set, kids, lemma_ascends_unique, lemma_depth_bounded, lemma_in_order, lemma_kids,
    lemma_no_kids, lemma_one_kid, lemma_walk_none, lemma_walk_one, order, walk, walk_all,
};
use crate::sequence::{
    counts, gap_at, has_right, lemma_live_ids_concat, lemma_live_in_items, list_live, list_place,
    list_values, live_ids, live_set, placement_at, position_at, rank_in, resolved,
};
use crate::stamp::{stamp_lt, Stamp};
use vstd::prelude::*;

verus! {

// --- what hangs where ---

/// Whether `z` is `y` or hangs under it, `k` levels down.
spec fn under(places: Map<Stamp, Anchor>, z: Stamp, y: Stamp, k: nat) -> bool
    decreases k,
{
    if k == 0 {
        z == y
    } else {
        places.dom().contains(z) && (places[z].parent matches Some(p) && under(
            places,
            p,
            y,
            (k - 1) as nat,
        ))
    }
}

/// An id has one ancestor at each level.
proof fn lemma_under_unique(places: Map<Stamp, Anchor>, z: Stamp, a: Stamp, b: Stamp, k: nat)
    requires
        under(places, z, a, k),
        under(places, z, b, k),
    ensures
        a == b,
    decreases k,
{
    if k > 0 {
        lemma_under_unique(places, places[z].parent->Some_0, a, b, (k - 1) as nat);
    }
}

/// What hangs under an id is that much deeper.
proof fn lemma_under_depth(places: Map<Stamp, Anchor>, z: Stamp, y: Stamp, k: nat, d: nat)
    requires
        under(places, z, y, k),
        at_depth(places, y, d),
    ensures
        at_depth(places, z, d + k),
    decreases k,
{
    if k > 0 {
        lemma_under_depth(places, places[z].parent->Some_0, y, (k - 1) as nat, d);
    }
}

proof fn lemma_depth_is_one(places: Map<Stamp, Anchor>, x: Stamp, a: nat, b: nat)
    requires
        at_depth(places, x, a),
        at_depth(places, x, b),
    ensures
        a == b,
    decreases a,
{
    if let Some(p) = places[x].parent {
        lemma_depth_is_one(places, p, (a - 1) as nat, (b - 1) as nat);
    }
}

/// Hanging under something that hangs under something else.
proof fn lemma_under_step(places: Map<Stamp, Anchor>, z: Stamp, y: Stamp, p: Stamp, k: nat)
    requires
        under(places, z, y, k),
        places.dom().contains(y),
        places[y].parent == Some(p),
    ensures
        under(places, z, p, k + 1),
    decreases k,
{
    if k > 0 {
        lemma_under_step(places, places[z].parent->Some_0, y, p, (k - 1) as nat);
    } else {
        assert(under(places, p, p, 0));
    }
}

/// Everything in a subtree hangs under its root.
proof fn lemma_walk_under(places: Map<Stamp, Anchor>, y: Stamp, fuel: nat, z: Stamp)
    requires
        places.dom().finite(),
        walk(places, y, fuel).contains(z),
    ensures
        exists|k: nat| #[trigger] under(places, z, y, k),
        z == y || exists|c: Stamp, k: nat|
            places.dom().contains(c) && places[c].parent == Some(y) && #[trigger] under(
                places,
                z,
                c,
                k,
            ),
    decreases fuel, 0nat,
{
    let f = (fuel - 1) as nat;
    let l = kids(places, Some(y), Side::Left);
    let r = kids(places, Some(y), Side::Right);
    lemma_kids(places, Some(y), Side::Left);
    lemma_kids(places, Some(y), Side::Right);
    let w = walk(places, y, fuel);
    let i = w.index_of(z);
    let a = walk_all(places, l, f);
    let b = walk_all(places, r, f);
    if i < a.len() {
        assert(a[i] == z);
        let c = lemma_walk_all_under(places, l, f, z);
        let k = choose|k: nat| #[trigger] under(places, z, c, k);
        lemma_under_step(places, z, c, y, k);
        assert(under(places, z, y, k + 1));
        assert(under(places, z, c, k));
    } else if i == a.len() {
        assert(under(places, z, y, 0));
    } else {
        assert(b[i - a.len() - 1] == z);
        let c = lemma_walk_all_under(places, r, f, z);
        let k = choose|k: nat| #[trigger] under(places, z, c, k);
        lemma_under_step(places, z, c, y, k);
        assert(under(places, z, y, k + 1));
        assert(under(places, z, c, k));
    }
}

/// Everything in some subtrees hangs under one of their roots.
proof fn lemma_walk_all_under(
    places: Map<Stamp, Anchor>,
    xs: Seq<Stamp>,
    fuel: nat,
    z: Stamp,
) -> (c: Stamp)
    requires
        places.dom().finite(),
        walk_all(places, xs, fuel).contains(z),
    ensures
        xs.contains(c),
        walk(places, c, fuel).contains(z),
        exists|k: nat| #[trigger] under(places, z, c, k),
    decreases fuel, xs.len() + 1,
{
    let w = walk_all(places, xs, fuel);
    let i = w.index_of(z);
    let a = walk(places, xs[0], fuel);
    let b = walk_all(places, xs.skip(1), fuel);
    if i < a.len() {
        assert(a[i] == z);
        lemma_walk_under(places, xs[0], fuel, z);
        xs[0]
    } else {
        assert(b[i - a.len()] == z);
        let c = lemma_walk_all_under(places, xs.skip(1), fuel, z);
        let j = xs.skip(1).index_of(c);
        assert(xs[j + 1] == c);
        c
    }
}

proof fn lemma_no_dup_concat(a: Seq<Stamp>, b: Seq<Stamp>)
    requires
        a.no_duplicates(),
        b.no_duplicates(),
        forall|x: Stamp| #[trigger] a.contains(x) ==> !b.contains(x),
    ensures
        (a + b).no_duplicates(),
{
    let c = a + b;
    assert forall|i: int, j: int| 0 <= i < c.len() && 0 <= j < c.len() && i != j implies c[i]
        != c[j] by {
        if i < a.len() && j >= a.len() {
            assert(a.contains(a[i]));
            assert(b.contains(b[j - a.len()]));
        } else if j < a.len() && i >= a.len() {
            assert(a.contains(a[j]));
            assert(b.contains(b[i - a.len()]));
        } else if i < a.len() {
            assert(a[i] != a[j]);
        } else {
            assert(b[i - a.len()] != b[j - a.len()]);
        }
    }
}

/// Two ids at one depth share nothing under them.
proof fn lemma_disjoint(
    places: Map<Stamp, Anchor>,
    a: Stamp,
    b: Stamp,
    d: nat,
    fa: nat,
    fb: nat,
    z: Stamp,
)
    requires
        places.dom().finite(),
        at_depth(places, a, d),
        at_depth(places, b, d),
        a != b,
        walk(places, a, fa).contains(z),
    ensures
        !walk(places, b, fb).contains(z),
{
    if walk(places, b, fb).contains(z) {
        lemma_walk_under(places, a, fa, z);
        lemma_walk_under(places, b, fb, z);
        let i = choose|k: nat| #[trigger] under(places, z, a, k);
        let j = choose|k: nat| #[trigger] under(places, z, b, k);
        lemma_under_depth(places, z, a, i, d);
        lemma_under_depth(places, z, b, j, d);
        lemma_depth_is_one(places, z, d + i, d + j);
        lemma_under_unique(places, z, a, b, i);
    }
}

/// A subtree has each id once.
proof fn lemma_walk_no_dup(places: Map<Stamp, Anchor>, y: Stamp, d: nat, fuel: nat)
    requires
        places.dom().finite(),
        at_depth(places, y, d),
    ensures
        walk(places, y, fuel).no_duplicates(),
    decreases fuel, 0nat,
{
    if fuel > 0 {
        let f = (fuel - 1) as nat;
        let l = kids(places, Some(y), Side::Left);
        let r = kids(places, Some(y), Side::Right);
        lemma_kids_at(places, Some(y), Side::Left, d);
        lemma_kids_at(places, Some(y), Side::Right, d);
        lemma_walk_all_no_dup(places, l, d + 1, f);
        lemma_walk_all_no_dup(places, r, d + 1, f);
        let a = walk_all(places, l, f);
        let b = walk_all(places, r, f);
        assert(seq![y].no_duplicates());
        assert forall|z: Stamp| #[trigger] a.contains(z) implies z != y && !b.contains(z) by {
            let c = lemma_walk_all_under(places, l, f, z);
            lemma_below(places, c, d + 1, z, f, y, d);
            if b.contains(z) {
                let e = lemma_walk_all_under(places, r, f, z);
                assert(l.contains(c) && r.contains(e));
                let i = l.index_of(c);
                let j = r.index_of(e);
                assert(places[l[i]].side != places[r[j]].side);
                lemma_disjoint(places, c, e, d + 1, f, f, z);
            }
        }
        assert forall|z: Stamp| #[trigger] b.contains(z) implies z != y by {
            let c = lemma_walk_all_under(places, r, f, z);
            lemma_below(places, c, d + 1, z, f, y, d);
        }
        lemma_no_dup_concat(a, seq![y]);
        assert forall|z: Stamp| #[trigger] (a + seq![y]).contains(z) implies !b.contains(z) by {
            let i = (a + seq![y]).index_of(z);
            if i < a.len() {
                assert(a[i] == z);
                assert(a.contains(z));
            } else {
                assert(z == y);
            }
        }
        lemma_no_dup_concat(a + seq![y], b);
    }
}

/// What hangs under something deeper is not something shallower.
proof fn lemma_below(
    places: Map<Stamp, Anchor>,
    c: Stamp,
    dc: nat,
    z: Stamp,
    fuel: nat,
    y: Stamp,
    d: nat,
)
    requires
        places.dom().finite(),
        at_depth(places, c, dc),
        at_depth(places, y, d),
        d < dc,
        walk(places, c, fuel).contains(z),
    ensures
        z != y,
{
    lemma_walk_under(places, c, fuel, z);
    let k = choose|k: nat| #[trigger] under(places, z, c, k);
    lemma_under_depth(places, z, c, k, dc);
    if z == y {
        lemma_depth_is_one(places, z, dc + k, d);
    }
}

/// The children of an id hang one deeper; those of the root hang one deep.
proof fn lemma_kids_at(places: Map<Stamp, Anchor>, parent: Option<Stamp>, side: Side, d: nat)
    requires
        places.dom().finite(),
        match parent {
            Some(p) => at_depth(places, p, d),
            None => d == 0,
        },
    ensures
        forall|i: int|
            0 <= i < kids(places, parent, side).len() ==> at_depth(
                places,
                #[trigger] kids(places, parent, side)[i],
                d + 1,
            ),
        kids(places, parent, side).no_duplicates(),
        forall|i: int|
            0 <= i < kids(places, parent, side).len() ==> places[#[trigger] kids(
                places,
                parent,
                side,
            )[i]].side == side,
{
    lemma_kids(places, parent, side);
    let q = kids(places, parent, side);
    assert forall|i: int| 0 <= i < q.len() implies at_depth(places, #[trigger] q[i], d + 1) by {
        assert(places[q[i]].parent == parent);
    }
    assert forall|i: int, j: int| 0 <= i < q.len() && 0 <= j < q.len() && i != j implies q[i]
        != q[j] by {
        if i < j {
            assert(crate::stamp::stamp_lt(q[i], q[j]));
        } else {
            assert(crate::stamp::stamp_lt(q[j], q[i]));
        }
    }
}

/// Subtrees at one depth have each id once between them.
proof fn lemma_walk_all_no_dup(places: Map<Stamp, Anchor>, xs: Seq<Stamp>, d: nat, fuel: nat)
    requires
        places.dom().finite(),
        xs.no_duplicates(),
        forall|i: int| 0 <= i < xs.len() ==> at_depth(places, #[trigger] xs[i], d),
    ensures
        walk_all(places, xs, fuel).no_duplicates(),
    decreases fuel, xs.len() + 1,
{
    if xs.len() > 0 {
        let t = xs.skip(1);
        assert forall|i: int| 0 <= i < t.len() implies at_depth(places, #[trigger] t[i], d) by {
            assert(t[i] == xs[i + 1]);
        }
        assert forall|i: int, j: int| 0 <= i < t.len() && 0 <= j < t.len() && i != j implies t[i]
            != t[j] by {
            assert(t[i] == xs[i + 1] && t[j] == xs[j + 1]);
        }
        assert(at_depth(places, xs[0], d));
        lemma_walk_no_dup(places, xs[0], d, fuel);
        lemma_walk_all_no_dup(places, t, d, fuel);
        let a = walk(places, xs[0], fuel);
        let b = walk_all(places, t, fuel);
        assert forall|z: Stamp| #[trigger] a.contains(z) implies !b.contains(z) by {
            if b.contains(z) {
                let c = lemma_walk_all_under(places, t, fuel, z);
                let j = t.index_of(c);
                assert(t[j] == xs[j + 1]);
                assert(at_depth(places, xs[j + 1], d));
                lemma_disjoint(places, xs[0], c, d, fuel, fuel, z);
            }
        }
        lemma_no_dup_concat(a, b);
    }
}

/// A sequence has each id at most once.
pub proof fn law_order_has_no_repeats(places: Map<Stamp, Anchor>)
    requires
        places.dom().finite(),
    ensures
        order(places).no_duplicates(),
{
    let n = places.dom().len();
    let l = kids(places, None, Side::Left);
    let r = kids(places, None, Side::Right);
    lemma_kids_at(places, None, Side::Left, 0);
    lemma_kids_at(places, None, Side::Right, 0);
    lemma_walk_all_no_dup(places, l, 1, n);
    lemma_walk_all_no_dup(places, r, 1, n);
    let a = walk_all(places, l, n);
    let b = walk_all(places, r, n);
    assert forall|z: Stamp| #[trigger] a.contains(z) implies !b.contains(z) by {
        if b.contains(z) {
            let c = lemma_walk_all_under(places, l, n, z);
            let e = lemma_walk_all_under(places, r, n, z);
            let i = l.index_of(c);
            let j = r.index_of(e);
            assert(places[l[i]].side != places[r[j]].side);
            lemma_disjoint(places, c, e, 1, n, n, z);
        }
    }
    lemma_no_dup_concat(a, b);
}

// --- fuel ---

/// More fuel than there are ids below changes nothing.
proof fn lemma_stable(places: Map<Stamp, Anchor>, y: Stamp, d: nat, fuel: nat)
    requires
        places.dom().finite(),
        at_depth(places, y, d),
        fuel + d >= places.dom().len() + 1,
    ensures
        walk(places, y, fuel) == walk(places, y, fuel + 1),
    decreases fuel, 0nat,
{
    lemma_depth_bounded(places, y, d);
    let f = (fuel - 1) as nat;
    lemma_kids_at(places, Some(y), Side::Left, d);
    lemma_kids_at(places, Some(y), Side::Right, d);
    lemma_stable_all(places, kids(places, Some(y), Side::Left), d + 1, f);
    lemma_stable_all(places, kids(places, Some(y), Side::Right), d + 1, f);
}

proof fn lemma_stable_all(places: Map<Stamp, Anchor>, xs: Seq<Stamp>, d: nat, fuel: nat)
    requires
        places.dom().finite(),
        forall|i: int| 0 <= i < xs.len() ==> at_depth(places, #[trigger] xs[i], d),
        fuel + d >= places.dom().len() + 1,
    ensures
        walk_all(places, xs, fuel) == walk_all(places, xs, fuel + 1),
    decreases fuel, xs.len() + 1,
{
    if xs.len() > 0 {
        assert(at_depth(places, xs[0], d));
        lemma_stable(places, xs[0], d, fuel);
        let t = xs.skip(1);
        assert forall|i: int| 0 <= i < t.len() implies at_depth(places, #[trigger] t[i], d) by {
            assert(t[i] == xs[i + 1]);
        }
        lemma_stable_all(places, t, d, fuel);
    }
}

// --- splicing ---

/// `s` with `x` put after (or before) every `p`.
pub open spec fn spliced(s: Seq<Stamp>, p: Stamp, x: Stamp, after: bool) -> Seq<Stamp>
    decreases s.len(),
{
    if s.len() == 0 {
        Seq::empty()
    } else {
        let e = s.last();
        spliced(s.drop_last(), p, x, after) + if e == p {
            if after {
                seq![p, x]
            } else {
                seq![x, p]
            }
        } else {
            seq![e]
        }
    }
}

proof fn lemma_spliced_concat(a: Seq<Stamp>, b: Seq<Stamp>, p: Stamp, x: Stamp, after: bool)
    ensures
        spliced(a + b, p, x, after) == spliced(a, p, x, after) + spliced(b, p, x, after),
    decreases b.len(),
{
    if b.len() == 0 {
        assert(a + b =~= a);
        assert(spliced(a, p, x, after) + Seq::<Stamp>::empty() =~= spliced(a, p, x, after));
    } else {
        assert((a + b).drop_last() =~= a + b.drop_last());
        lemma_spliced_concat(a, b.drop_last(), p, x, after);
        let e = if b.last() == p {
            if after {
                seq![p, x]
            } else {
                seq![x, p]
            }
        } else {
            seq![b.last()]
        };
        let u = spliced(a, p, x, after);
        let v = spliced(b.drop_last(), p, x, after);
        assert((u + v) + e =~= u + (v + e));
    }
}

proof fn lemma_spliced_absent(s: Seq<Stamp>, p: Stamp, x: Stamp, after: bool)
    requires
        !s.contains(p),
    ensures
        spliced(s, p, x, after) == s,
    decreases s.len(),
{
    if s.len() > 0 {
        let t = s.drop_last();
        if t.contains(p) {
            let i = t.index_of(p);
            assert(s[i] == p);
        }
        assert(s[s.len() - 1] != p);
        lemma_spliced_absent(t, p, x, after);
        assert(t + seq![s.last()] =~= s);
    } else {
        assert(spliced(s, p, x, after) =~= s);
    }
}

/// Spliced once: at the one place `p` is.
pub proof fn lemma_spliced_at(s: Seq<Stamp>, p: Stamp, x: Stamp, after: bool, i: int)
    requires
        s.no_duplicates(),
        0 <= i < s.len(),
        s[i] == p,
    ensures
        spliced(s, p, x, after) == s.insert(
            if after {
                i + 1
            } else {
                i
            },
            x,
        ),
{
    let a = s.take(i);
    let b = s.skip(i + 1);
    assert(s =~= (a + seq![p]) + b);
    lemma_spliced_concat(a + seq![p], b, p, x, after);
    lemma_spliced_concat(a, seq![p], p, x, after);
    assert(!a.contains(p)) by {
        if a.contains(p) {
            let j = a.index_of(p);
            assert(s[j] == s[i]);
        }
    }
    assert(!b.contains(p)) by {
        if b.contains(p) {
            let j = b.index_of(p);
            assert(s[j + i + 1] == s[i]);
        }
    }
    lemma_spliced_absent(a, p, x, after);
    lemma_spliced_absent(b, p, x, after);
    let e = if after {
        seq![p, x]
    } else {
        seq![x, p]
    };
    assert(seq![p].drop_last() =~= Seq::empty());
    assert(spliced(seq![p], p, x, after) =~= e) by {
        assert(spliced(Seq::empty(), p, x, after) =~= Seq::<Stamp>::empty());
        assert(seq![p].last() == p);
    }
    assert((a + e) + b =~= s.insert(
        if after {
            i + 1
        } else {
            i
        },
        x,
    ));
}

/// Whether `x` may be added at `anchor` as the only thing there: nothing attaches to `x`,
/// and nothing attaches at `anchor`.
pub open spec fn lone(places: Map<Stamp, Anchor>, x: Stamp, anchor: Anchor) -> bool {
    &&& places.dom().finite()
    &&& !places.dom().contains(x)
    &&& anchor.parent != Some(x)
    &&& forall|y: Stamp| #[trigger]
        places.dom().contains(y) ==> places[y].parent != Some(x) && places[y] != anchor
}

/// Whether `x` may be added at `anchor` next to its parent: nothing attaches to `x`, and
/// what attaches at `anchor` does so on the left, with earlier stamps.
pub open spec fn nearest(places: Map<Stamp, Anchor>, x: Stamp, anchor: Anchor) -> bool {
    &&& places.dom().finite()
    &&& !places.dom().contains(x)
    &&& anchor.parent != Some(x)
    &&& forall|y: Stamp| #[trigger]
        places.dom().contains(y) ==> places[y].parent != Some(x) && (places[y] == anchor
            ==> anchor.side == Side::Left && stamp_lt(y, x))
}

/// Children elsewhere are as they were.
proof fn lemma_kids_kept(
    places: Map<Stamp, Anchor>,
    x: Stamp,
    anchor: Anchor,
    parent: Option<Stamp>,
    side: Side,
)
    requires
        nearest(places, x, anchor),
        anchor != (Anchor { parent, side }),
    ensures
        kids(places.insert(x, anchor), parent, side) == kids(places, parent, side),
{
    assert(kid_set(places.insert(x, anchor), parent, side) =~= kid_set(places, parent, side));
}

/// A lone child's subtree is itself.
proof fn lemma_lone_walk(places: Map<Stamp, Anchor>, x: Stamp, anchor: Anchor, fuel: nat)
    requires
        lone(places, x, anchor),
        fuel > 0,
    ensures
        walk(places.insert(x, anchor), x, fuel) == seq![x],
        kids(places.insert(x, anchor), anchor.parent, anchor.side) == seq![x],
        kids(places, anchor.parent, anchor.side) == Seq::<Stamp>::empty(),
{
    let q = places.insert(x, anchor);
    lemma_no_kids(q, Some(x), Side::Left);
    lemma_no_kids(q, Some(x), Side::Right);
    lemma_walk_none(q, (fuel - 1) as nat);
    assert(Seq::<Stamp>::empty() + seq![x] + Seq::<Stamp>::empty() =~= seq![x]);
    lemma_one_kid(q, anchor.parent, anchor.side, x);
    lemma_no_kids(places, anchor.parent, anchor.side);
}

/// A child with the latest stamp is the last.
proof fn lemma_last_kid(places: Map<Stamp, Anchor>, x: Stamp, anchor: Anchor)
    requires
        nearest(places, x, anchor),
    ensures
        kids(places.insert(x, anchor), anchor.parent, anchor.side) == kids(
            places,
            anchor.parent,
            anchor.side,
        ).push(x),
        anchor.side == Side::Right ==> kids(places, anchor.parent, anchor.side)
            == Seq::<Stamp>::empty(),
{
    let q = places.insert(x, anchor);
    let l = kids(places, anchor.parent, anchor.side);
    let m = kids(q, anchor.parent, anchor.side);
    let old_kids = kid_set(places, anchor.parent, anchor.side);
    let new_kids = kid_set(q, anchor.parent, anchor.side);
    assert(q.dom().finite());
    assert(old_kids.subset_of(places.dom()));
    assert(new_kids.subset_of(q.dom()));
    vstd::set_lib::lemma_set_subset_finite(places.dom(), old_kids);
    vstd::set_lib::lemma_set_subset_finite(q.dom(), new_kids);
    lemma_in_order(old_kids);
    lemma_in_order(new_kids);
    let r = l.push(x);
    assert forall|i: int, j: int| 0 <= i < j < r.len() implies stamp_lt(
        #[trigger] r[i],
        #[trigger] r[j],
    ) by {
        assert(r[i] == l[i]);
        if j < l.len() {
            assert(r[j] == l[j]);
        } else {
            assert(l.to_set().contains(l[i]));
            assert(old_kids.contains(l[i]));
            assert(places.dom().contains(l[i]));
        }
    }
    assert(r.to_set() =~= new_kids) by {
        assert forall|y: Stamp| r.to_set().contains(y) <==> new_kids.contains(y) by {
            if r.contains(y) && y != x {
                let i = r.index_of(y);
                assert(l[i] == y);
                assert(l.to_set().contains(y));
            }
            if y == x {
                assert(r[l.len() as int] == x);
            }
            if new_kids.contains(y) && y != x {
                assert(old_kids.contains(y));
                assert(l.to_set().contains(y));
                assert(r[l.index_of(y)] == y);
            }
        }
    }
    lemma_ascends_unique(r, m);
    if anchor.side == Side::Right {
        lemma_no_kids(places, anchor.parent, anchor.side);
    }
}

proof fn lemma_walk_all_push(places: Map<Stamp, Anchor>, xs: Seq<Stamp>, x: Stamp, fuel: nat)
    ensures
        walk_all(places, xs.push(x), fuel) == walk_all(places, xs, fuel) + walk(places, x, fuel),
    decreases xs.len(),
{
    if xs.len() == 0 {
        assert(xs.push(x) =~= seq![x]);
        lemma_walk_one(places, x, fuel);
        assert(walk_all(places, xs, fuel) =~= Seq::empty());
        assert(Seq::<Stamp>::empty() + walk(places, x, fuel) =~= walk(places, x, fuel));
    } else {
        assert(xs.push(x).skip(1) =~= xs.skip(1).push(x));
        assert(xs.push(x)[0] == xs[0]);
        lemma_walk_all_push(places, xs.skip(1), x, fuel);
        let a = walk(places, xs[0], fuel);
        let b = walk_all(places, xs.skip(1), fuel);
        let c = walk(places, x, fuel);
        assert(a + (b + c) =~= (a + b) + c);
    }
}

/// Adding a nearest child splices it next to its parent.
proof fn lemma_walk_spliced(
    places: Map<Stamp, Anchor>,
    x: Stamp,
    anchor: Anchor,
    y: Stamp,
    d: nat,
    fuel: nat,
)
    requires
        nearest(places, x, anchor),
        anchor.parent is Some,
        at_depth(places, y, d),
        fuel + d >= places.dom().len() + 2,
    ensures
        walk(places.insert(x, anchor), y, fuel) == spliced(
            walk(places, y, fuel),
            anchor.parent->Some_0,
            x,
            anchor.side == Side::Right,
        ),
    decreases fuel, 0nat,
{
    let q = places.insert(x, anchor);
    let p = anchor.parent->Some_0;
    let after = anchor.side == Side::Right;
    let f = (fuel - 1) as nat;
    lemma_depth_bounded(places, y, d);
    let l = kids(places, Some(y), Side::Left);
    let r = kids(places, Some(y), Side::Right);
    lemma_kids_at(places, Some(y), Side::Left, d);
    lemma_kids_at(places, Some(y), Side::Right, d);
    lemma_walk_all_spliced(places, x, anchor, l, d + 1, f);
    lemma_walk_all_spliced(places, x, anchor, r, d + 1, f);
    let a = walk_all(places, l, f);
    let b = walk_all(places, r, f);
    lemma_spliced_concat(a + seq![y], b, p, x, after);
    lemma_spliced_concat(a, seq![y], p, x, after);
    assert(seq![y].drop_last() =~= Seq::empty());
    assert(spliced(Seq::empty(), p, x, after) =~= Seq::<Stamp>::empty());
    assert(seq![y].last() == y);
    let sa = spliced(a, p, x, after);
    let sb = spliced(b, p, x, after);
    if y != p {
        lemma_kids_kept(places, x, anchor, Some(y), Side::Left);
        lemma_kids_kept(places, x, anchor, Some(y), Side::Right);
        assert(spliced(seq![y], p, x, after) =~= seq![y]);
    } else {
        lemma_last_kid(places, x, anchor);
        lemma_no_kids(q, Some(x), Side::Left);
        lemma_no_kids(q, Some(x), Side::Right);
        lemma_walk_none(q, (f - 1) as nat);
        assert(walk(q, x, f) =~= seq![x]);
        lemma_walk_none(places, f);
        if after {
            lemma_kids_kept(places, x, anchor, Some(y), Side::Left);
            lemma_walk_all_push(q, r, x, f);
            lemma_walk_none(q, f);
            assert(spliced(seq![y], p, x, after) =~= seq![y, x]);
            assert(sa + seq![y] + (Seq::<Stamp>::empty() + seq![x]) =~= sa + seq![y, x]
                + Seq::<Stamp>::empty());
        } else {
            lemma_kids_kept(places, x, anchor, Some(y), Side::Right);
            lemma_walk_all_push(q, l, x, f);
            assert(spliced(seq![y], p, x, after) =~= seq![x, y]);
            assert((sa + seq![x]) + seq![y] + sb =~= sa + seq![x, y] + sb);
        }
    }
}

proof fn lemma_walk_all_spliced(
    places: Map<Stamp, Anchor>,
    x: Stamp,
    anchor: Anchor,
    xs: Seq<Stamp>,
    d: nat,
    fuel: nat,
)
    requires
        nearest(places, x, anchor),
        anchor.parent is Some,
        forall|i: int| 0 <= i < xs.len() ==> at_depth(places, #[trigger] xs[i], d),
        fuel + d >= places.dom().len() + 2,
    ensures
        walk_all(places.insert(x, anchor), xs, fuel) == spliced(
            walk_all(places, xs, fuel),
            anchor.parent->Some_0,
            x,
            anchor.side == Side::Right,
        ),
    decreases fuel, xs.len() + 1,
{
    let p = anchor.parent->Some_0;
    let after = anchor.side == Side::Right;
    if xs.len() > 0 {
        assert(at_depth(places, xs[0], d));
        lemma_walk_spliced(places, x, anchor, xs[0], d, fuel);
        let t = xs.skip(1);
        assert forall|i: int| 0 <= i < t.len() implies at_depth(places, #[trigger] t[i], d) by {
            assert(t[i] == xs[i + 1]);
        }
        lemma_walk_all_spliced(places, x, anchor, t, d, fuel);
        lemma_spliced_concat(
            walk(places, xs[0], fuel),
            walk_all(places, t, fuel),
            p,
            x,
            after,
        );
    } else {
        assert(spliced(Seq::empty(), p, x, after) =~= Seq::<Stamp>::empty());
    }
}

/// Adding a nearest child splices it into the order next to its parent.
pub proof fn lemma_order_spliced(places: Map<Stamp, Anchor>, x: Stamp, anchor: Anchor)
    requires
        nearest(places, x, anchor),
        anchor.parent is Some,
    ensures
        order(places.insert(x, anchor)) == spliced(
            order(places),
            anchor.parent->Some_0,
            x,
            anchor.side == Side::Right,
        ),
{
    let q = places.insert(x, anchor);
    let n = places.dom().len();
    assert(q.dom() =~= places.dom().insert(x));
    let l = kids(places, None, Side::Left);
    let r = kids(places, None, Side::Right);
    lemma_kids_kept(places, x, anchor, None, Side::Left);
    lemma_kids_kept(places, x, anchor, None, Side::Right);
    lemma_kids_at(places, None, Side::Left, 0);
    lemma_kids_at(places, None, Side::Right, 0);
    lemma_stable_all(places, l, 1, n);
    lemma_stable_all(places, r, 1, n);
    lemma_walk_all_spliced(places, x, anchor, l, 1, n + 1);
    lemma_walk_all_spliced(places, x, anchor, r, 1, n + 1);
    lemma_spliced_concat(
        walk_all(places, l, n),
        walk_all(places, r, n),
        anchor.parent->Some_0,
        x,
        anchor.side == Side::Right,
    );
}

// --- neighbours ---

/// Where a subtree stands among subtrees laid end to end.
proof fn lemma_part_of_all(places: Map<Stamp, Anchor>, xs: Seq<Stamp>, fuel: nat, y: Stamp) -> (r: (
    Seq<Stamp>,
    Seq<Stamp>,
))
    requires
        xs.contains(y),
    ensures
        walk_all(places, xs, fuel) == r.0 + walk(places, y, fuel) + r.1,
    decreases xs.len(),
{
    let w = walk(places, y, fuel);
    if xs[0] == y {
        let b = walk_all(places, xs.skip(1), fuel);
        assert(Seq::<Stamp>::empty() + w + b =~= w + b);
        (Seq::empty(), b)
    } else {
        let i = xs.index_of(y);
        assert(xs.skip(1)[i - 1] == y);
        let (a, b) = lemma_part_of_all(places, xs.skip(1), fuel, y);
        let h = walk(places, xs[0], fuel);
        assert((h + a) + w + b =~= h + (a + w + b));
        (h + a, b)
    }
}

/// Where a subtree stands in the whole order.
proof fn lemma_part_of_order(places: Map<Stamp, Anchor>, y: Stamp, d: nat) -> (r: (
    Seq<Stamp>,
    Seq<Stamp>,
))
    requires
        places.dom().finite(),
        at_depth(places, y, d),
    ensures
        order(places) == r.0 + walk(places, y, (places.dom().len() + 1 - d) as nat) + r.1,
    decreases d,
{
    let n = places.dom().len();
    let fuel = (n + 1 - d) as nat;
    lemma_depth_bounded(places, y, d);
    let w = walk(places, y, fuel);
    let side = places[y].side;
    match places[y].parent {
        None => {
            let l = kids(places, None, Side::Left);
            let r = kids(places, None, Side::Right);
            lemma_kids(places, None, side);
            assert(kid_set(places, None, side).contains(y));
            assert(kids(places, None, side).to_set().contains(y));
            let (a, b) = lemma_part_of_all(places, kids(places, None, side), n, y);
            let wl = walk_all(places, l, n);
            let wr = walk_all(places, r, n);
            if side == Side::Left {
                assert(a + w + (b + wr) =~= (a + w + b) + wr);
                (a, b + wr)
            } else {
                assert((wl + a) + w + b =~= wl + (a + w + b));
                (wl + a, b)
            }
        },
        Some(p) => {
            let (a, b) = lemma_part_of_order(places, p, (d - 1) as nat);
            lemma_kids(places, Some(p), side);
            assert(kid_set(places, Some(p), side).contains(y));
            assert(kids(places, Some(p), side).to_set().contains(y));
            let (u, v) = lemma_part_of_all(places, kids(places, Some(p), side), fuel, y);
            let wl = walk_all(places, kids(places, Some(p), Side::Left), fuel);
            let wr = walk_all(places, kids(places, Some(p), Side::Right), fuel);
            if side == Side::Left {
                assert((a + u) + w + (v + seq![p] + wr + b) =~= a + ((u + w + v) + seq![p] + wr)
                    + b);
                (a + u, v + seq![p] + wr + b)
            } else {
                assert((a + wl + seq![p] + u) + w + (v + b) =~= a + (wl + seq![p] + (u + w + v))
                    + b);
                (a + wl + seq![p] + u, v + b)
            }
        },
    }
}

/// Everything in the order hangs off the root.
pub proof fn lemma_order_depth(places: Map<Stamp, Anchor>, y: Stamp) -> (d: nat)
    requires
        places.dom().finite(),
        order(places).contains(y),
    ensures
        at_depth(places, y, d),
{
    let n = places.dom().len();
    let l = kids(places, None, Side::Left);
    let r = kids(places, None, Side::Right);
    let a = walk_all(places, l, n);
    let b = walk_all(places, r, n);
    lemma_kids_at(places, None, Side::Left, 0);
    lemma_kids_at(places, None, Side::Right, 0);
    let i = order(places).index_of(y);
    let c = if i < a.len() {
        assert(a[i] == y);
        let c = lemma_walk_all_under(places, l, n, y);
        let j = l.index_of(c);
        assert(at_depth(places, l[j], 1));
        c
    } else {
        assert(b[i - a.len()] == y);
        let c = lemma_walk_all_under(places, r, n, y);
        let j = r.index_of(c);
        assert(at_depth(places, r[j], 1));
        c
    };
    let k = choose|k: nat| #[trigger] under(places, y, c, k);
    lemma_under_depth(places, y, c, k, 1);
    1 + k
}

/// What hangs to the right of an id starts right after it; what hangs to its left ends
/// right before it.
proof fn lemma_neighbours(places: Map<Stamp, Anchor>, y: Stamp, i: int)
    requires
        places.dom().finite(),
        0 <= i < order(places).len(),
        order(places)[i] == y,
    ensures
        has_right(places, y) ==> i + 1 < order(places).len() && exists|k: nat|
            k > 0 && #[trigger] under(places, order(places)[i + 1], y, k),
        (exists|x: Stamp| #[trigger]
            places.dom().contains(x) && places[x] == (Anchor {
                parent: Some(y),
                side: Side::Left,
            })) ==> i > 0 && exists|k: nat|
            k > 0 && #[trigger] under(places, order(places)[i - 1], y, k),
{
    let s = order(places);
    let n = places.dom().len();
    assert(s.contains(y));
    let d = lemma_order_depth(places, y);
    lemma_depth_bounded(places, y, d);
    let fuel = (n + 1 - d) as nat;
    let f = (fuel - 1) as nat;
    let (a, b) = lemma_part_of_order(places, y, d);
    let l = kids(places, Some(y), Side::Left);
    let r = kids(places, Some(y), Side::Right);
    lemma_kids(places, Some(y), Side::Left);
    lemma_kids(places, Some(y), Side::Right);
    lemma_kids_at(places, Some(y), Side::Left, d);
    lemma_kids_at(places, Some(y), Side::Right, d);
    let wl = walk_all(places, l, f);
    let wr = walk_all(places, r, f);
    law_order_has_no_repeats(places);
    let at = a.len() + wl.len();
    assert(s[at as int] == y);
    assert(i == at);
    if has_right(places, y) {
        let x = choose|x: Stamp| #[trigger]
            places.dom().contains(x) && places[x] == (Anchor {
                parent: Some(y),
                side: Side::Right,
            });
        assert(kid_set(places, Some(y), Side::Right).contains(x));
        assert(r.to_set().contains(x));
        lemma_nonempty(places, r, d + 1, f);
        assert(s[i + 1] == wr[0]);
        let z = wr[0];
        assert(wr.contains(z));
        let c = lemma_walk_all_under(places, r, f, z);
        let k = choose|k: nat| #[trigger] under(places, z, c, k);
        let j = r.index_of(c);
        assert(places[r[j]].parent == Some(y));
        lemma_under_step(places, z, c, y, k);
        assert(under(places, z, y, k + 1));
    }
    if exists|x: Stamp| #[trigger]
        places.dom().contains(x) && places[x] == (Anchor { parent: Some(y), side: Side::Left }) {
        let x = choose|x: Stamp| #[trigger]
            places.dom().contains(x) && places[x] == (Anchor {
                parent: Some(y),
                side: Side::Left,
            });
        assert(kid_set(places, Some(y), Side::Left).contains(x));
        assert(l.to_set().contains(x));
        lemma_nonempty(places, l, d + 1, f);
        assert(s[i - 1] == wl[wl.len() - 1]);
        let z = wl[wl.len() - 1];
        assert(wl.contains(z));
        let c = lemma_walk_all_under(places, l, f, z);
        let k = choose|k: nat| #[trigger] under(places, z, c, k);
        let j = l.index_of(c);
        assert(places[l[j]].parent == Some(y));
        lemma_under_step(places, z, c, y, k);
        assert(under(places, z, y, k + 1));
    }
}

/// Subtrees that hang in reach are not empty.
proof fn lemma_nonempty(places: Map<Stamp, Anchor>, xs: Seq<Stamp>, d: nat, fuel: nat)
    requires
        places.dom().finite(),
        xs.len() > 0,
        forall|i: int| 0 <= i < xs.len() ==> at_depth(places, #[trigger] xs[i], d),
        fuel + d >= places.dom().len() + 1,
    ensures
        walk_all(places, xs, fuel).len() > 0,
{
    assert(at_depth(places, xs[0], d));
    lemma_depth_bounded(places, xs[0], d);
    assert(walk(places, xs[0], fuel).len() > 0);
}

/// Nothing hangs at the place an insert picks.
proof fn lemma_placement_is_free(places: Map<Stamp, Anchor>, b: int, y: Stamp)
    requires
        places.dom().finite(),
        0 <= b <= order(places).len(),
        places.dom().contains(y),
        order(places).len() > 0,
    ensures
        places[y] != placement_at(places, order(places), b),
{
    let s = order(places);
    let a = placement_at(places, s, b);
    if places[y] == a {
        if b > 0 && a.side == Side::Right {
            let l = s[b - 1];
            // The last id with something to its right would not be the last.
            assert(has_right(places, l));
            lemma_neighbours(places, l, b - 1);
        } else {
            let r = s[b];
            lemma_neighbours(places, r, b);
            let l = s[b - 1];
            let k = choose|k: nat| k > 0 && #[trigger] under(places, s[b - 1], r, k);
            if has_right(places, l) {
                lemma_neighbours(places, l, b - 1);
                let j = choose|k: nat| k > 0 && #[trigger] under(places, s[b], l, k);
                assert(s.contains(l));
                let d = lemma_order_depth(places, l);
                lemma_under_depth(places, r, l, j, d);
                lemma_under_depth(places, l, r, k, d + j);
                lemma_depth_is_one(places, l, d, d + j + k);
            }
        }
    }
}

/// Adding an id where an insert picks puts it at that place of the order and moves
/// nothing else.
pub proof fn law_placement_lands(places: Map<Stamp, Anchor>, b: int, x: Stamp)
    requires
        places.dom().finite(),
        0 <= b <= order(places).len(),
        !places.dom().contains(x),
        forall|y: Stamp| #[trigger] places.dom().contains(y) ==> places[y].parent != Some(x),
    ensures
        order(places.insert(x, placement_at(places, order(places), b))) == order(places).insert(
            b,
            x,
        ),
{
    let s = order(places);
    let a = placement_at(places, s, b);
    let q = places.insert(x, a);
    if s.len() == 0 {
        lemma_empty_order(places);
        lemma_one_kid(q, None, Side::Right, x);
        lemma_no_kids(q, None, Side::Left);
        assert(q.dom() =~= places.dom().insert(x));
        let n = q.dom().len();
        assert(lone(places, x, a));
        lemma_lone_walk(places, x, a, n);
        lemma_walk_one(q, x, n);
        lemma_walk_none(q, n);
        assert(Seq::<Stamp>::empty() + seq![x] =~= s.insert(b, x));
    } else {
        let p = a.parent->Some_0;
        assert(s.contains(p)) by {
            if b > 0 && p == s[b - 1] {
                assert(s[b - 1] == p);
            } else {
                assert(s[b] == p);
            }
        }
        lemma_order_depth(places, p);
        assert(places.dom().contains(p));
        assert forall|y: Stamp| #[trigger] places.dom().contains(y) implies places[y] != a by {
            lemma_placement_is_free(places, b, y);
        }
        assert(lone(places, x, a));
        lemma_order_spliced(places, x, a);
        law_order_has_no_repeats(places);
        if a.side == Side::Right {
            assert(p == s[b - 1]);
            lemma_spliced_at(s, p, x, true, b - 1);
        } else {
            assert(p == s[b]);
            lemma_spliced_at(s, p, x, false, b);
        }
    }
}

/// Where nothing is in order, nothing hangs off the root.
proof fn lemma_empty_order(places: Map<Stamp, Anchor>)
    requires
        places.dom().finite(),
        order(places).len() == 0,
    ensures
        forall|y: Stamp| #[trigger] places.dom().contains(y) ==> places[y].parent is Some,
{
    assert forall|y: Stamp| #[trigger] places.dom().contains(y) implies places[y].parent is Some by {
        if places[y].parent is None {
            assert(at_depth(places, y, 1));
            lemma_depth_bounded(places, y, 1);
            let (a, b) = lemma_part_of_order(places, y, 1);
            assert(walk(places, y, places.dom().len()).len() > 0);
        }
    }
}

// --- laws of reading ---

/// The gap before live position `index` has `index` live ids before it.
pub proof fn lemma_gap(l: ListV, s: Seq<Stamp>, index: nat)
    requires
        index <= live_ids(l, s).len(),
    ensures
        gap_at(l, s, index, None) <= s.len(),
        live_ids(l, s.take(gap_at(l, s, index, None) as int)) == live_ids(l, s).take(index as int),
    decreases s.len(),
{
    let g = gap_at(l, s, index, None);
    if index == 0 || s.len() == 0 {
        assert(s.take(0) =~= Seq::empty());
        assert(live_ids(l, s).take(0) =~= Seq::empty());
        if s.len() == 0 {
            assert(live_ids(l, s).take(index as int) =~= Seq::empty());
        }
    } else {
        let t = s.skip(1);
        assert(s =~= seq![s[0]] + t);
        lemma_live_ids_concat(l, seq![s[0]], t);
        lemma_live_one(l, s[0]);
        let rest = if counts(l, s[0], None) {
            (index - 1) as nat
        } else {
            index
        };
        lemma_gap(l, t, rest);
        let h = gap_at(l, t, rest, None);
        assert(s.take(g as int) =~= seq![s[0]] + t.take(h as int));
        lemma_live_ids_concat(l, seq![s[0]], t.take(h as int));
        assert(live_ids(l, s).take(index as int) =~= live_ids(l, seq![s[0]]) + live_ids(l, t).take(
            rest as int,
        ));
    }
}

pub proof fn lemma_live_one(l: ListV, x: Stamp)
    ensures
        live_ids(l, seq![x]) == if l.is_live(x) {
            seq![x]
        } else {
            Seq::<Stamp>::empty()
        },
{
    assert(seq![x].drop_last() =~= Seq::empty());
    assert(live_ids(l, Seq::empty()) =~= Seq::<Stamp>::empty());
    assert(seq![x].last() == x);
    assert(live_ids(l, seq![x]) =~= if l.is_live(x) {
        seq![x]
    } else {
        Seq::<Stamp>::empty()
    });
}

pub proof fn lemma_live_same(a: ListV, b: ListV, s: Seq<Stamp>)
    requires
        forall|i: int| 0 <= i < s.len() ==> a.is_live(#[trigger] s[i]) == b.is_live(s[i]),
    ensures
        live_ids(a, s) == live_ids(b, s),
    decreases s.len(),
{
    if s.len() > 0 {
        let t = s.drop_last();
        assert forall|i: int| 0 <= i < t.len()
            implies a.is_live(#[trigger] t[i]) == b.is_live(t[i]) by {
            assert(t[i] == s[i]);
        }
        assert(a.is_live(s[s.len() - 1]) == b.is_live(s[s.len() - 1]));
        lemma_live_same(a, b, t);
    }
}

/// An insert at a live index puts the item at that index and moves nothing else: the live
/// ids, and so the values, are the old ones with the new one in that place. The id is one
/// the list has never seen, not even as something to attach to.
pub proof fn law_insert_lands_at_its_index(l: ListV, id: Stamp, value: ElementV, index: nat)
    requires
        l.places.dom().finite(),
        index <= list_live(l).len(),
        !l.places.dom().contains(id),
        !l.items.dom().contains(id),
        forall|y: Stamp| #[trigger] l.places.dom().contains(y) ==> l.places[y].parent != Some(id),
    ensures
        list_live(list_insert(l, id, value, list_place(l, index, None))) == list_live(l).insert(
            index as int,
            id,
        ),
        list_values(list_insert(l, id, value, list_place(l, index, None))) == list_values(l).insert(
            index as int,
            value,
        ),
{
    let s = order(l.places);
    let b = gap_at(l, s, index, None) as int;
    let a = list_place(l, index, None);
    let m = list_insert(l, id, value, a);
    lemma_gap(l, s, index);
    law_placement_lands(l.places, b, id);
    let t = s.insert(b, id);
    assert(order(m.places) == t);
    let x = s.take(b);
    let y = s.skip(b);
    assert(s =~= x + y);
    assert(t =~= (x + seq![id]) + y);
    assert(!s.contains(id)) by {
        if s.contains(id) {
            lemma_order_depth(l.places, id);
        }
    }
    assert forall|i: int| 0 <= i < x.len() implies m.is_live(#[trigger] x[i]) == l.is_live(x[i]) by {
        assert(s[i] == x[i]);
    }
    assert forall|i: int| 0 <= i < y.len() implies m.is_live(#[trigger] y[i]) == l.is_live(y[i]) by {
        assert(s[i + b] == y[i]);
    }
    lemma_live_same(m, l, x);
    lemma_live_same(m, l, y);
    lemma_live_ids_concat(m, x + seq![id], y);
    lemma_live_ids_concat(m, x, seq![id]);
    lemma_live_ids_concat(l, x, y);
    lemma_live_one(m, id);
    let lx = live_ids(l, x);
    let ly = live_ids(l, y);
    assert(lx == list_live(l).take(index as int));
    assert((lx + seq![id]) + ly =~= list_live(l).insert(index as int, id));
    let u = list_live(m);
    assert(u == list_live(l).insert(index as int, id));
    assert forall|i: int| 0 <= i < u.len() implies list_values(m)[i] == list_values(l).insert(
        index as int,
        value,
    )[i] by {
        if i < index {
            lemma_live_in_items(l, s, i);
            assert(u[i] == list_live(l)[i]);
        } else if i > index {
            lemma_live_in_items(l, s, i - 1);
            assert(u[i] == list_live(l)[i - 1]);
        }
    }
    assert(list_values(m) =~= list_values(l).insert(index as int, value));
}

/// An item that stands in for one just deleted takes its place: it attaches to the left of
/// what was deleted, with a stamp later than what attached there before.
pub proof fn law_revival_takes_its_place(l: ListV, i: int, id: Stamp, value: ElementV)
    requires
        l.places.dom().finite(),
        0 <= i < list_live(l).len(),
        !l.places.dom().contains(id),
        !l.items.dom().contains(id),
        forall|y: Stamp| #[trigger]
            l.places.dom().contains(y) ==> l.places[y].parent != Some(id) && stamp_lt(y, id),
    ensures
        ({
            let gone = list_live(l)[i];
            let n = list_insert(
                list_delete(l, gone),
                id,
                value,
                Anchor { parent: Some(gone), side: Side::Left },
            );
            &&& list_live(n) == list_live(l).update(i, id)
            &&& list_values(n) == list_values(l).update(i, value)
        }),
{
    let s = order(l.places);
    let gone = list_live(l)[i];
    let a = Anchor { parent: Some(gone), side: Side::Left };
    let n = list_insert(list_delete(l, gone), id, value, a);
    lemma_live_in_items(l, s, i);
    let k = s.index_of(gone);
    lemma_order_depth(l.places, gone);
    law_order_has_no_repeats(l.places);
    lemma_order_spliced(l.places, id, a);
    lemma_spliced_at(s, gone, id, false, k);
    let x = s.take(k);
    let y = s.skip(k + 1);
    let t = s.insert(k, id);
    assert(order(n.places) == t);
    assert(s =~= (x + seq![gone]) + y);
    assert(t =~= ((x + seq![id]) + seq![gone]) + y);
    assert(!s.contains(id)) by {
        if s.contains(id) {
            lemma_order_depth(l.places, id);
        }
    }
    assert forall|j: int| 0 <= j < x.len() implies n.is_live(#[trigger] x[j]) == l.is_live(x[j]) by {
        assert(s[j] == x[j]);
    }
    assert forall|j: int| 0 <= j < y.len() implies n.is_live(#[trigger] y[j]) == l.is_live(y[j]) by {
        assert(s[j + k + 1] == y[j]);
    }
    lemma_live_same(n, l, x);
    lemma_live_same(n, l, y);
    lemma_live_ids_concat(n, (x + seq![id]) + seq![gone], y);
    lemma_live_ids_concat(n, x + seq![id], seq![gone]);
    lemma_live_ids_concat(n, x, seq![id]);
    lemma_live_ids_concat(l, x + seq![gone], y);
    lemma_live_ids_concat(l, x, seq![gone]);
    lemma_live_one(n, id);
    lemma_live_one(n, gone);
    lemma_live_one(l, gone);
    let lx = live_ids(l, x);
    let ly = live_ids(l, y);
    let u = list_live(l);
    assert(u == (lx + seq![gone]) + ly);
    lemma_live_no_dup(l, s);
    assert(u[lx.len() as int] == gone);
    assert(lx.len() == i);
    let v = list_live(n);
    assert(v =~= u.update(i, id));
    assert forall|j: int| 0 <= j < v.len() implies list_values(n)[j] == list_values(l).update(
        i,
        value,
    )[j] by {
        if j != i {
            lemma_live_in_items(l, s, j);
            assert(v[j] == u[j]);
            assert(u[j] != u[i]);
        }
    }
    assert(list_values(n) =~= list_values(l).update(i, value));
}

/// The live ids with one taken out.
pub open spec fn without(s: Seq<Stamp>, id: Stamp) -> Seq<Stamp> {
    s.filter(|x: Stamp| x != id)
}

/// Deleting an item takes it out of the sequence and moves nothing else.
pub proof fn law_delete_removes_only_its_item(l: ListV, i: int)
    requires
        l.places.dom().finite(),
        0 <= i < list_live(l).len(),
    ensures
        list_live(list_delete(l, list_live(l)[i])) == list_live(l).remove(i),
{
    let id = list_live(l)[i];
    let s = order(l.places);
    law_order_has_no_repeats(l.places);
    lemma_delete_live(l, id, s);
    lemma_live_no_dup(l, s);
    lemma_filter_one(list_live(l), i);
}

proof fn lemma_delete_live(l: ListV, id: Stamp, s: Seq<Stamp>)
    ensures
        live_ids(list_delete(l, id), s) == without(live_ids(l, s), id),
    decreases s.len(),
{
    reveal(Seq::filter);
    if s.len() > 0 {
        let t = s.drop_last();
        lemma_delete_live(l, id, t);
        let r = live_ids(l, t);
        if l.is_live(s.last()) {
            assert(r.push(s.last()).drop_last() =~= r);
        }
    }
}

pub(crate) proof fn lemma_live_no_dup(l: ListV, s: Seq<Stamp>)
    requires
        s.no_duplicates(),
    ensures
        live_ids(l, s).no_duplicates(),
        forall|x: Stamp| #[trigger] live_ids(l, s).contains(x) ==> s.contains(x),
    decreases s.len(),
{
    if s.len() > 0 {
        let t = s.drop_last();
        assert(t.no_duplicates());
        lemma_live_no_dup(l, t);
        let r = live_ids(l, t);
        let u = live_ids(l, s);
        assert(!t.contains(s.last())) by {
            if t.contains(s.last()) {
                let i = t.index_of(s.last());
                assert(s[i] == s[s.len() - 1]);
            }
        }
        assert forall|x: Stamp| #[trigger] u.contains(x) implies s.contains(x) by {
            let i = u.index_of(x);
            if i < r.len() {
                assert(r[i] == x);
                assert(r.contains(x));
                let j = t.index_of(x);
                assert(s[j] == x);
            } else {
                assert(s[s.len() - 1] == x);
            }
        }
        assert forall|i: int, j: int| 0 <= i < u.len() && 0 <= j < u.len() && i != j implies u[i]
            != u[j] by {
            if i < r.len() {
                assert(r.contains(r[i]));
            }
            if j < r.len() {
                assert(r.contains(r[j]));
            }
        }
    }
}

proof fn lemma_filter_one(s: Seq<Stamp>, i: int)
    requires
        s.no_duplicates(),
        0 <= i < s.len(),
    ensures
        without(s, s[i]) == s.remove(i),
    decreases s.len(),
{
    reveal(Seq::filter);
    let t = s.drop_last();
    if i == s.len() - 1 {
        lemma_filter_all(t, s[i]);
        assert(s.remove(i) =~= t);
    } else {
        lemma_filter_one(t, i);
        assert(t[i] == s[i]);
        assert(s.last() != s[i]);
        assert(t.remove(i).push(s.last()) =~= s.remove(i));
    }
}

proof fn lemma_filter_all(s: Seq<Stamp>, id: Stamp)
    requires
        !s.contains(id),
    ensures
        without(s, id) == s,
    decreases s.len(),
{
    reveal(Seq::filter);
    if s.len() > 0 {
        let t = s.drop_last();
        if t.contains(id) {
            let i = t.index_of(id);
            assert(s[i] == id);
        }
        assert(s[s.len() - 1] != id);
        lemma_filter_all(t, id);
        assert(t.push(s.last()) =~= s);
    } else {
        assert(without(s, id) =~= s);
    }
}

// --- lists whose items all hang off the root ---

proof fn lemma_under_first(places: Map<Stamp, Anchor>, y: Stamp, x: Stamp, k: nat) -> (c: Stamp)
    requires
        under(places, y, x, k),
        k > 0,
    ensures
        places.dom().contains(c),
        places[c].parent == Some(x),
        under(places, y, c, (k - 1) as nat),
    decreases k,
{
    let p = places[y].parent->Some_0;
    assert(under(places, p, x, (k - 1) as nat));
    if k == 1 {
        y
    } else {
        let c = lemma_under_first(places, p, x, (k - 1) as nat);
        assert(under(places, p, c, (k - 2) as nat));
        c
    }
}

proof fn lemma_walk_all_has(
    places: Map<Stamp, Anchor>,
    xs: Seq<Stamp>,
    fuel: nat,
    c: Stamp,
    y: Stamp,
)
    requires
        xs.contains(c),
        walk(places, c, fuel).contains(y),
    ensures
        walk_all(places, xs, fuel).contains(y),
    decreases xs.len(),
{
    let a = walk(places, xs[0], fuel);
    let b = walk_all(places, xs.skip(1), fuel);
    let w = walk_all(places, xs, fuel);
    if xs[0] == c {
        assert(w[a.index_of(y)] == y);
    } else {
        let t = xs.skip(1);
        assert(t[xs.index_of(c) - 1] == c);
        lemma_walk_all_has(places, t, fuel, c, y);
        assert(w[a.len() + b.index_of(y)] == y);
    }
}

/// A walk has everything under where it starts.
proof fn lemma_walk_has(places: Map<Stamp, Anchor>, x: Stamp, y: Stamp, k: nat, fuel: nat)
    requires
        places.dom().finite(),
        under(places, y, x, k),
        k < fuel,
    ensures
        walk(places, x, fuel).contains(y),
    decreases k,
{
    let f = (fuel - 1) as nat;
    let l = kids(places, Some(x), Side::Left);
    let r = kids(places, Some(x), Side::Right);
    let a = walk_all(places, l, f);
    let b = walk_all(places, r, f);
    let w = walk(places, x, fuel);
    assert(w == a + seq![x] + b);
    if k == 0 {
        assert(w[a.len() as int] == x);
    } else {
        let c = lemma_under_first(places, y, x, k);
        lemma_walk_has(places, c, y, (k - 1) as nat, f);
        lemma_kids(places, Some(x), Side::Left);
        lemma_kids(places, Some(x), Side::Right);
        if places[c].side == Side::Left {
            assert(l.to_set().contains(c));
            lemma_walk_all_has(places, l, f, c, y);
            assert(w[a.index_of(y)] == y);
        } else {
            assert(r.to_set().contains(c));
            lemma_walk_all_has(places, r, f, c, y);
            assert(w[a.len() + 1 + b.index_of(y)] == y);
        }
    }
}

proof fn lemma_depth_top(places: Map<Stamp, Anchor>, y: Stamp, d: nat) -> (r: Stamp)
    requires
        at_depth(places, y, d),
    ensures
        places.dom().contains(r),
        places[r].parent is None,
        under(places, y, r, (d - 1) as nat),
    decreases d,
{
    match places[y].parent {
        None => {
            assert(under(places, y, y, 0));
            y
        },
        Some(p) => {
            let r = lemma_depth_top(places, p, (d - 1) as nat);
            assert(under(places, p, r, (d - 2) as nat));
            assert(under(places, y, r, (d - 1) as nat));
            r
        },
    }
}

/// Everything that hangs off the root is in the order.
pub proof fn lemma_depth_ordered(places: Map<Stamp, Anchor>, y: Stamp, d: nat)
    requires
        places.dom().finite(),
        at_depth(places, y, d),
    ensures
        order(places).contains(y),
{
    let n = places.dom().len();
    let t = lemma_depth_top(places, y, d);
    lemma_depth_bounded(places, y, d);
    lemma_walk_has(places, t, y, (d - 1) as nat, n);
    let l = kids(places, None, Side::Left);
    let r = kids(places, None, Side::Right);
    let a = walk_all(places, l, n);
    let b = walk_all(places, r, n);
    lemma_kids(places, None, Side::Left);
    lemma_kids(places, None, Side::Right);
    if places[t].side == Side::Left {
        assert(l.to_set().contains(t));
        lemma_walk_all_has(places, l, n, t, y);
        assert(order(places)[a.index_of(y)] == y);
    } else {
        assert(r.to_set().contains(t));
        lemma_walk_all_has(places, r, n, t, y);
        assert(order(places)[a.len() + b.index_of(y)] == y);
    }
}

/// Whether an id hangs off the root, directly or not.
pub open spec fn rooted(places: Map<Stamp, Anchor>, y: Stamp) -> bool {
    exists|d: nat| #[trigger] at_depth(places, y, d)
}

/// Whether every item has a place, and every place hangs off the root.
pub open spec fn grounded(l: ListV) -> bool {
    &&& l.places.dom().finite()
    &&& l.items.dom().subset_of(l.places.dom())
    &&& forall|y: Stamp| #[trigger] l.places.dom().contains(y) ==> rooted(l.places, y)
}

/// A new list is grounded.
pub proof fn law_new_lists_are_grounded(id: ElementId)
    ensures
        grounded(empty_list(id)),
{
}

proof fn lemma_depth_more(places: Map<Stamp, Anchor>, x: Stamp, a: Anchor, y: Stamp, d: nat)
    requires
        at_depth(places, y, d),
        !places.dom().contains(x),
    ensures
        at_depth(places.insert(x, a), y, d),
    decreases d,
{
    if let Some(p) = places[y].parent {
        lemma_depth_more(places, x, a, p, (d - 1) as nat);
    }
}

/// An insert that attaches to the root or to something the list has keeps a list grounded.
pub proof fn law_inserts_stay_grounded(l: ListV, id: Stamp, value: ElementV, anchor: Anchor)
    requires
        grounded(l),
        anchor.parent matches Some(p) ==> l.places.dom().contains(p),
    ensures
        grounded(list_insert(l, id, value, anchor)),
{
    let m = list_insert(l, id, value, anchor);
    if !l.places.dom().contains(id) {
        assert forall|y: Stamp| #[trigger] m.places.dom().contains(y) implies rooted(
            m.places,
            y,
        ) by {
            if y != id {
                assert(l.places.dom().contains(y));
                let d = choose|d: nat| #[trigger] at_depth(l.places, y, d);
                lemma_depth_more(l.places, id, anchor, y, d);
            } else {
                match anchor.parent {
                    None => {
                        assert(at_depth(m.places, id, 1));
                    },
                    Some(p) => {
                        let d = choose|d: nat| #[trigger] at_depth(l.places, p, d);
                        lemma_depth_more(l.places, id, anchor, p, d);
                        assert(at_depth(m.places, id, d + 1));
                    },
                }
            }
        }
    }
}

/// An insert at an index attaches to the root or to something the list has.
pub proof fn law_indices_attach_to_what_is_there(l: ListV, index: nat)
    requires
        grounded(l),
        index <= list_live(l).len(),
    ensures
        list_place(l, index, None).parent matches Some(p) ==> l.places.dom().contains(p),
{
    let s = order(l.places);
    lemma_gap(l, s, index);
    let b = gap_at(l, s, index, None) as int;
    if b > 0 {
        assert(s.contains(s[b - 1]));
        let d = lemma_order_depth(l.places, s[b - 1]);
    }
    if b < s.len() {
        assert(s.contains(s[b]));
        let d = lemma_order_depth(l.places, s[b]);
    }
}

/// A delete keeps a list grounded.
pub proof fn law_deletes_stay_grounded(l: ListV, id: Stamp)
    requires
        grounded(l),
    ensures
        grounded(list_delete(l, id)),
{
}

/// In a grounded list every live item is in the order, once.
proof fn lemma_grounded_live(l: ListV)
    requires
        grounded(l),
    ensures
        live_set(l).finite(),
        list_live(l).len() == live_set(l).len(),
{
    let s = order(l.places);
    let live = list_live(l);
    law_order_has_no_repeats(l.places);
    lemma_live_no_dup(l, s);
    assert(live_set(l).subset_of(l.places.dom()));
    vstd::set_lib::lemma_set_subset_finite(l.places.dom(), live_set(l));
    assert forall|x: Stamp| #[trigger] live.to_set().contains(x) <==> live_set(l).contains(x) by {
        if l.is_live(x) {
            assert(l.places.dom().contains(x));
            let d = choose|d: nat| #[trigger] at_depth(l.places, x, d);
            lemma_depth_ordered(l.places, x, d);
        }
        lemma_live_iff(l, s, x);
    }
    assert(live.to_set() =~= live_set(l));
    live.unique_seq_to_set();
}

proof fn lemma_live_iff(l: ListV, s: Seq<Stamp>, x: Stamp)
    ensures
        live_ids(l, s).contains(x) <==> s.contains(x) && l.is_live(x),
    decreases s.len(),
{
    if s.len() > 0 {
        let t = s.drop_last();
        lemma_live_iff(l, t, x);
        let r = live_ids(l, t);
        let u = live_ids(l, s);
        if t.contains(x) {
            assert(s[t.index_of(x)] == x);
        }
        if s.contains(x) && x != s.last() {
            assert(t[s.index_of(x)] == x);
        }
        if r.contains(x) {
            assert(u[r.index_of(x)] == x);
        }
        if l.is_live(s.last()) {
            assert(u[r.len() as int] == s.last());
            if u.contains(x) && x != s.last() {
                assert(r[u.index_of(x)] == x);
            }
        }
        assert(s[s.len() - 1] == s.last());
    }
}

/// Nothing in a grounded list attaches to what the list does not have.
proof fn lemma_grounded_parents(l: ListV, id: Stamp)
    requires
        grounded(l),
        !l.places.dom().contains(id),
    ensures
        forall|y: Stamp| #[trigger] l.places.dom().contains(y) ==> l.places[y].parent != Some(id),
{
    assert forall|y: Stamp| #[trigger] l.places.dom().contains(y) implies l.places[y].parent
        != Some(id) by {
        let d = choose|d: nat| #[trigger] at_depth(l.places, y, d);
        if l.places[y].parent == Some(id) {
            assert(at_depth(l.places, id, (d - 1) as nat));
        }
    }
}

// --- one more id ---

/// A sequence with an id left out.
pub open spec fn omitting(s: Seq<Stamp>, x: Stamp) -> Seq<Stamp>
    decreases s.len(),
{
    if s.len() == 0 {
        s
    } else if s.last() == x {
        omitting(s.drop_last(), x)
    } else {
        omitting(s.drop_last(), x).push(s.last())
    }
}

proof fn lemma_omit_concat(a: Seq<Stamp>, b: Seq<Stamp>, x: Stamp)
    ensures
        omitting(a + b, x) == omitting(a, x) + omitting(b, x),
    decreases b.len(),
{
    if b.len() == 0 {
        assert(a + b =~= a);
        assert(omitting(a, x) + omitting(b, x) =~= omitting(a, x));
    } else {
        assert((a + b).drop_last() =~= a + b.drop_last());
        assert((a + b).last() == b.last());
        lemma_omit_concat(a, b.drop_last(), x);
        if b.last() != x {
            assert((omitting(a, x) + omitting(b.drop_last(), x)).push(b.last()) =~= omitting(a, x)
                + omitting(b, x));
        }
    }
}

pub(crate) proof fn lemma_omit_absent(s: Seq<Stamp>, x: Stamp)
    requires
        !s.contains(x),
    ensures
        omitting(s, x) == s,
    decreases s.len(),
{
    if s.len() > 0 {
        let h = s.drop_last();
        assert(s[s.len() - 1] == s.last());
        if h.contains(x) {
            assert(s[h.index_of(x)] == x);
        }
        lemma_omit_absent(h, x);
        assert(h.push(s.last()) =~= s);
    }
}

proof fn lemma_omit_ascends(s: Seq<Stamp>, x: Stamp)
    requires
        ascends(s),
    ensures
        ascends(omitting(s, x)),
        forall|y: Stamp| #[trigger] omitting(s, x).contains(y) <==> s.contains(y) && y != x,
    decreases s.len(),
{
    if s.len() > 0 {
        let h = s.drop_last();
        let l = s.last();
        assert(ascends(h)) by {
            assert forall|i: int, j: int| 0 <= i < j < h.len() implies stamp_lt(
                #[trigger] h[i],
                #[trigger] h[j],
            ) by {
                assert(h[i] == s[i] && h[j] == s[j]);
            }
        }
        lemma_omit_ascends(h, x);
        let r = omitting(h, x);
        let o = omitting(s, x);
        assert forall|y: Stamp| #[trigger] s.contains(y) <==> h.contains(y) || y == l by {
            if h.contains(y) {
                assert(s[h.index_of(y)] == y);
            }
            if s.contains(y) && y != l {
                assert(h[s.index_of(y)] == y);
            }
            assert(s[s.len() - 1] == l);
        }
        assert forall|y: Stamp| #[trigger] o.contains(y) <==> s.contains(y) && y != x by {
            if r.contains(y) && l != x {
                assert(o[r.index_of(y)] == y);
            }
            if l != x {
                assert(o[r.len() as int] == l);
                if o.contains(y) && y != l {
                    assert(r[o.index_of(y)] == y);
                }
            }
        }
        if l != x {
            assert forall|i: int, j: int| 0 <= i < j < o.len() implies stamp_lt(
                #[trigger] o[i],
                #[trigger] o[j],
            ) by {
                assert(o[i] == r[i]);
                if j < r.len() {
                    assert(o[j] == r[j]);
                } else {
                    assert(r.contains(r[i]));
                    assert(h.contains(r[i]));
                    let k = h.index_of(r[i]);
                    assert(s[k] == r[i] && s[s.len() - 1] == l);
                }
            }
        }
    }
}

/// Whether an id is new to a sequence: it has no place, and nothing attaches to it.
pub open spec fn is_new(places: Map<Stamp, Anchor>, x: Stamp) -> bool {
    !places.dom().contains(x) && forall|y: Stamp| #[trigger]
        places.dom().contains(y) ==> places[y].parent != Some(x)
}

proof fn lemma_new_kids(
    places: Map<Stamp, Anchor>,
    x: Stamp,
    a: Anchor,
    parent: Option<Stamp>,
    side: Side,
)
    requires
        places.dom().finite(),
        is_new(places, x),
    ensures
        omitting(kids(places.insert(x, a), parent, side), x) == kids(places, parent, side),
{
    let q = places.insert(x, a);
    lemma_kids(q, parent, side);
    lemma_kids(places, parent, side);
    let m = kids(q, parent, side);
    let l = kids(places, parent, side);
    lemma_omit_ascends(m, x);
    let o = omitting(m, x);
    assert(o.to_set() =~= l.to_set()) by {
        assert forall|y: Stamp| o.to_set().contains(y) <==> l.to_set().contains(y) by {
            assert(m.to_set().contains(y) <==> kid_set(q, parent, side).contains(y));
            assert(l.to_set().contains(y) <==> kid_set(places, parent, side).contains(y));
        }
    }
    lemma_ascends_unique(o, l);
}

/// A walk past an id that is new is the walk without it, with it somewhere in between.
proof fn lemma_new_walk(places: Map<Stamp, Anchor>, x: Stamp, a: Anchor, y: Stamp, fuel: nat)
    requires
        places.dom().finite(),
        is_new(places, x),
        a.parent != Some(x),
    ensures
        omitting(walk(places.insert(x, a), y, fuel), x) == if y == x {
            Seq::<Stamp>::empty()
        } else {
            walk(places, y, fuel)
        },
    decreases fuel, 0nat,
{
    let q = places.insert(x, a);
    if fuel > 0 {
        let f = (fuel - 1) as nat;
        let l = kids(q, Some(y), Side::Left);
        let r = kids(q, Some(y), Side::Right);
        lemma_new_kids(places, x, a, Some(y), Side::Left);
        lemma_new_kids(places, x, a, Some(y), Side::Right);
        lemma_new_walk_all(places, x, a, l, f);
        lemma_new_walk_all(places, x, a, r, f);
        lemma_omit_concat(walk_all(q, l, f) + seq![y], walk_all(q, r, f), x);
        lemma_omit_concat(walk_all(q, l, f), seq![y], x);
        assert(seq![y].drop_last() =~= Seq::empty());
        assert(omitting(Seq::<Stamp>::empty(), x) =~= Seq::<Stamp>::empty());
        if y == x {
            lemma_no_kids(q, Some(x), Side::Left);
            lemma_no_kids(q, Some(x), Side::Right);
            lemma_walk_none(q, f);
            assert(omitting(seq![y], x) =~= Seq::<Stamp>::empty());
            assert(omitting(walk(q, y, fuel), x) =~= Seq::<Stamp>::empty());
        } else {
            assert(omitting(seq![y], x) =~= seq![y]);
        }
    }
}

proof fn lemma_new_walk_all(
    places: Map<Stamp, Anchor>,
    x: Stamp,
    a: Anchor,
    xs: Seq<Stamp>,
    fuel: nat,
)
    requires
        places.dom().finite(),
        is_new(places, x),
        a.parent != Some(x),
    ensures
        omitting(walk_all(places.insert(x, a), xs, fuel), x) == walk_all(
            places,
            omitting(xs, x),
            fuel,
        ),
    decreases fuel, xs.len() + 1,
{
    let q = places.insert(x, a);
    if xs.len() == 0 {
        assert(omitting(xs, x) =~= xs);
    } else {
        let t = xs.skip(1);
        lemma_new_walk(places, x, a, xs[0], fuel);
        lemma_new_walk_all(places, x, a, t, fuel);
        lemma_omit_concat(walk(q, xs[0], fuel), walk_all(q, t, fuel), x);
        assert(seq![xs[0]] + t =~= xs);
        lemma_omit_concat(seq![xs[0]], t, x);
        assert(seq![xs[0]].drop_last() =~= Seq::empty());
        assert(omitting(Seq::<Stamp>::empty(), x) =~= Seq::<Stamp>::empty());
        if xs[0] == x {
            assert(omitting(seq![xs[0]], x) =~= Seq::<Stamp>::empty());
            assert(omitting(xs, x) =~= omitting(t, x));
            assert(omitting(walk_all(q, xs, fuel), x) =~= walk_all(places, omitting(t, x), fuel));
        } else {
            assert(omitting(seq![xs[0]], x) =~= seq![xs[0]]);
            let o = omitting(xs, x);
            assert(o =~= seq![xs[0]] + omitting(t, x));
            assert(o.skip(1) =~= omitting(t, x));
        }
    }
}

/// One more id, wherever it attaches, moves no other id: the order without it is the order
/// as it was.
pub proof fn law_a_new_id_moves_no_other(places: Map<Stamp, Anchor>, x: Stamp, a: Anchor)
    requires
        places.dom().finite(),
        is_new(places, x),
        a.parent != Some(x),
    ensures
        omitting(order(places.insert(x, a)), x) == order(places),
{
    let q = places.insert(x, a);
    let n = places.dom().len();
    assert(q.dom() =~= places.dom().insert(x));
    let l = kids(q, None, Side::Left);
    let r = kids(q, None, Side::Right);
    lemma_new_kids(places, x, a, None, Side::Left);
    lemma_new_kids(places, x, a, None, Side::Right);
    lemma_new_walk_all(places, x, a, l, n + 1);
    lemma_new_walk_all(places, x, a, r, n + 1);
    lemma_omit_concat(walk_all(q, l, n + 1), walk_all(q, r, n + 1), x);
    lemma_kids_at(places, None, Side::Left, 0);
    lemma_kids_at(places, None, Side::Right, 0);
    lemma_stable_all(places, kids(places, None, Side::Left), 1, n);
    lemma_stable_all(places, kids(places, None, Side::Right), 1, n);
}

/// What is not live does not show whether it is left out or not.
pub(crate) proof fn lemma_live_omitting(l: ListV, s: Seq<Stamp>, x: Stamp)
    requires
        !l.is_live(x),
    ensures
        live_ids(l, omitting(s, x)) == live_ids(l, s),
    decreases s.len(),
{
    if s.len() > 0 {
        lemma_live_omitting(l, s.drop_last(), x);
        if s.last() != x {
            let o = omitting(s.drop_last(), x);
            assert(o.push(s.last()).drop_last() =~= o);
        }
    }
}

/// Where an insert goes is told by which ids count.
pub(crate) proof fn lemma_gap_counts(
    l: ListV,
    w: ListV,
    s: Seq<Stamp>,
    index: nat,
    exclude: Option<Stamp>,
)
    requires
        forall|i: int| 0 <= i < s.len() ==> counts(l, #[trigger] s[i], exclude) == w.is_live(s[i]),
    ensures
        gap_at(l, s, index, exclude) == gap_at(w, s, index, None),
    decreases s.len(),
{
    if s.len() > 0 && index > 0 {
        let t = s.skip(1);
        assert forall|i: int| 0 <= i < t.len() implies counts(l, #[trigger] t[i], exclude)
            == w.is_live(t[i]) by {
            assert(t[i] == s[i + 1]);
        }
        assert(counts(l, s[0], exclude) == w.is_live(s[0]));
        lemma_gap_counts(
            l,
            w,
            t,
            if w.is_live(s[0]) {
                (index - 1) as nat
            } else {
                index
            },
            exclude,
        );
    }
}

/// A captured position resolves to the index it was captured at.
pub proof fn law_position_resolves_to_its_index(l: ListV, index: nat, side: Side)
    requires
        grounded(l),
        index <= list_live(l).len(),
    ensures
        resolved(l, position_at(l, index, side)) == Some(index),
{
    lemma_grounded_live(l);
    let s = order(l.places);
    let live = list_live(l);
    law_order_has_no_repeats(l.places);
    if side == Side::Left && index > 0 {
        lemma_rank_of_live(l, s, index - 1);
        lemma_live_in_items(l, s, index - 1);
    } else if side == Side::Right && index < live.len() {
        lemma_rank_of_live(l, s, index as int);
        lemma_live_in_items(l, s, index as int);
    }
}

/// A captured position keeps its place past a later insert: one before it moves it on, one
/// behind it does not, and one right at it does only where the position leans to the right.
pub proof fn law_position_keeps_its_place(
    l: ListV,
    index: nat,
    side: Side,
    id: Stamp,
    value: ElementV,
    at: nat,
)
    requires
        grounded(l),
        index <= list_live(l).len(),
        at <= list_live(l).len(),
        !l.places.dom().contains(id),
    ensures
        resolved(
            list_insert(l, id, value, list_place(l, at, None)),
            position_at(l, index, side),
        ) == Some(
            if at < index || (at == index && side == Side::Right) {
                index + 1
            } else {
                index
            },
        ),
{
    lemma_grounded_live(l);
    lemma_grounded_parents(l, id);
    let m = list_insert(l, id, value, list_place(l, at, None));
    let s = order(m.places);
    let live = list_live(l);
    law_insert_lands_at_its_index(l, id, value, at);
    assert(m.places.dom() =~= l.places.dom().insert(id));
    law_order_has_no_repeats(m.places);
    let u = list_live(m);
    assert(u == live.insert(at as int, id));
    if side == Side::Left && index > 0 {
        let i: int = if at < index {
            index as int
        } else {
            index - 1
        };
        assert(u[i] == live[index - 1]);
        lemma_rank_of_live(m, s, i);
    } else if side == Side::Right && index < live.len() {
        let i: int = if at <= index {
            index as int + 1
        } else {
            index as int
        };
        assert(u[i] == live[index as int]);
        lemma_rank_of_live(m, s, i);
    } else if side == Side::Right {
        assert(live_set(m) =~= live_set(l).insert(id)) by {
            assert forall|x: Stamp| live_set(m).contains(x) <==> live_set(l).insert(id).contains(
                x,
            ) by {
                assert(m.is_live(x) == (l.is_live(x) || x == id));
            }
        }
    }
}

/// The rank of a live id is its live index.
proof fn lemma_rank_of_live(l: ListV, s: Seq<Stamp>, i: int)
    requires
        s.no_duplicates(),
        0 <= i < live_ids(l, s).len(),
    ensures
        rank_in(l, s, live_ids(l, s)[i]) == Some((i as nat, true)),
    decreases s.len(),
{
    let id = live_ids(l, s)[i];
    lemma_live_in_items(l, s, i);
    let t = s.skip(1);
    assert(s =~= seq![s[0]] + t);
    lemma_live_ids_concat(l, seq![s[0]], t);
    lemma_live_one(l, s[0]);
    assert(t.no_duplicates()) by {
        assert forall|a: int, b: int| 0 <= a < t.len() && 0 <= b < t.len() && a != b implies t[a]
            != t[b] by {
            assert(t[a] == s[a + 1] && t[b] == s[b + 1]);
        }
    }
    lemma_live_no_dup(l, t);
    if l.is_live(s[0]) {
        if i == 0 {
            assert(id == s[0]);
        } else {
            assert(live_ids(l, t)[i - 1] == id);
            assert(live_ids(l, t).contains(id));
            let j = t.index_of(id);
            assert(s[j + 1] == id);
            assert(s[0] != id);
            lemma_rank_of_live(l, t, i - 1);
        }
    } else {
        assert(live_ids(l, t)[i] == id);
        assert(s[0] != id);
        lemma_rank_of_live(l, t, i);
    }
}

// --- laws of merging ---

/// An insert seen again changes nothing, and an id once deleted stays deleted.
pub proof fn law_insert_is_idempotent(l: ListV, id: Stamp, value: ElementV, anchor: Anchor)
    ensures
        list_insert(list_insert(l, id, value, anchor), id, value, anchor) == list_insert(
            l,
            id,
            value,
            anchor,
        ),
        l.is_dead(id) ==> list_insert(l, id, value, anchor) == l,
        l.places.dom().contains(id) ==> list_insert(list_delete(l, id), id, value, anchor)
            == list_delete(l, id),
{
}

/// Inserts of different ids commute.
pub proof fn law_inserts_commute(
    l: ListV,
    a: Stamp,
    va: ElementV,
    pa: Anchor,
    b: Stamp,
    vb: ElementV,
    pb: Anchor,
)
    requires
        a != b,
    ensures
        list_insert(list_insert(l, a, va, pa), b, vb, pb) == list_insert(
            list_insert(l, b, vb, pb),
            a,
            va,
            pa,
        ),
{
    let x = list_insert(list_insert(l, a, va, pa), b, vb, pb);
    let y = list_insert(list_insert(l, b, vb, pb), a, va, pa);
    assert(x.places =~= y.places);
    assert(x.items =~= y.items);
}

/// An insert and a delete of different ids commute.
pub proof fn law_insert_and_delete_commute(
    l: ListV,
    a: Stamp,
    va: ElementV,
    pa: Anchor,
    b: Stamp,
)
    requires
        a != b,
    ensures
        list_delete(list_insert(l, a, va, pa), b) == list_insert(list_delete(l, b), a, va, pa),
{
    let x = list_delete(list_insert(l, a, va, pa), b);
    let y = list_insert(list_delete(l, b), a, va, pa);
    assert(x.items =~= y.items);
}

/// Whether two replicas agree on every id they share: where it attaches and, where both
/// still hold it, what it holds. An id's place and value are fixed when it is minted.
pub open spec fn agree(a: ListV, b: ListV) -> bool {
    &&& forall|id: Stamp|
        a.places.dom().contains(id) && b.places.dom().contains(id) ==> #[trigger] a.places[id]
            == b.places[id]
    &&& forall|id: Stamp|
        a.items.dom().contains(id) && b.items.dom().contains(id) ==> #[trigger] a.items[id]
            == b.items[id]
    &&& a.items.dom().subset_of(a.places.dom())
    &&& b.items.dom().subset_of(b.places.dom())
}

/// Merging two replicas' lists gives the same ids, places and values either way round.
pub proof fn law_list_merge_commutes(a: ListV, b: ListV)
    requires
        agree(a, b),
    ensures
        list_join(a, b).places == list_join(b, a).places,
        list_join(a, b).items == list_join(b, a).items,
{
    let x = list_join(a, b);
    let y = list_join(b, a);
    assert(x.places =~= y.places);
    assert(x.items =~= y.items);
}

/// The grouping of list merges does not matter.
pub proof fn law_list_merge_associates(a: ListV, b: ListV, c: ListV)
    requires
        agree(a, b),
        agree(b, c),
        agree(a, c),
    ensures
        list_join(list_join(a, b), c).places == list_join(a, list_join(b, c)).places,
        list_join(list_join(a, b), c).items == list_join(a, list_join(b, c)).items,
{
    let x = list_join(list_join(a, b), c);
    let y = list_join(a, list_join(b, c));
    assert(x.places =~= y.places);
    assert(x.items =~= y.items);
}

/// Merging a list with itself changes nothing.
pub proof fn law_list_merge_is_idempotent(a: ListV)
    requires
        a.items.dom().subset_of(a.places.dom()),
    ensures
        list_join(a, a) == a,
{
    let x = list_join(a, a);
    assert(x.places =~= a.places);
    assert(x.items =~= a.items);
}

/// Delete wins: an id deleted on either side of a merge is deleted in it.
pub proof fn law_delete_wins_a_merge(a: ListV, b: ListV, id: Stamp)
    requires
        a.is_dead(id) || b.is_dead(id),
    ensures
        list_join(a, b).is_dead(id),
{
}

/// A merge has every id of either list, and an item that either has and neither deleted.
pub proof fn law_a_list_merge_keeps_every_id(a: ListV, b: ListV, id: Stamp)
    ensures
        list_join(a, b).places.dom().contains(id) <==> a.places.dom().contains(id)
            || b.places.dom().contains(id),
        list_join(a, b).items.dom().contains(id) <==> (a.items.dom().contains(id)
            || b.items.dom().contains(id)) && !a.is_dead(id) && !b.is_dead(id),
        a.places.dom().contains(id) ==> list_join(a, b).places[id] == a.places[id],
        b.places.dom().contains(id) && !a.places.dom().contains(id) ==> list_join(a, b).places[id]
            == b.places[id],
        list_join(a, b).items.dom().contains(id) ==> list_join(a, b).items[id]
            == if a.items.dom().contains(id) {
            a.items[id]
        } else {
            b.items[id]
        },
{
}

} // verus!
