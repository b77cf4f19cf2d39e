//! The order of a sequence: the in-order traversal of the tree its ids attach in, each
//! node after its left children and before its right ones, siblings by stamp.

use crate::anchor::{Anchor, Side};
use crate::list::{spec_covers, step};
use crate::stamp::{stamp_lt, Stamp};
use vstd::prelude::*;
use vstd::set_lib::lemma_len_subset;

verus! {

/// Whether stamps strictly ascend.
pub open spec fn ascends(s: Seq<Stamp>) -> bool {
    forall|i: int, j: int| 0 <= i < j < s.len() ==> stamp_lt(#[trigger] s[i], #[trigger] s[j])
}

/// A finite set of stamps in ascending order.
pub open spec fn in_order(s: Set<Stamp>) -> Seq<Stamp> {
    choose|q: Seq<Stamp>| #[trigger] ascends(q) && q.to_set() == s
}

/// Ascending sequences of the same stamps are equal.
pub proof fn lemma_ascends_unique(a: Seq<Stamp>, b: Seq<Stamp>)
    requires
        ascends(a),
        ascends(b),
        a.to_set() == b.to_set(),
    ensures
        a == b,
    decreases a.len(),
{
    if a.len() == 0 {
        if b.len() > 0 {
            assert(b.to_set().contains(b[0]));
            assert(a.to_set().contains(b[0]));
        }
        assert(a =~= b);
    } else {
        assert(a.to_set().contains(a.last()));
        assert(b.to_set().contains(a.last()));
        let j = b.index_of(a.last());
        assert(b.to_set().contains(b.last()));
        assert(a.to_set().contains(b.last()));
        let i = a.index_of(b.last());
        if i < a.len() - 1 {
            assert(stamp_lt(a[i], a[a.len() - 1]));
            if j < b.len() - 1 {
                assert(stamp_lt(b[j], b[b.len() - 1]));
            }
        }
        assert(a.last() == b.last());
        let x = a.drop_last();
        let y = b.drop_last();
        lemma_ascends_front(a);
        lemma_ascends_front(b);
        assert(x.to_set() =~= y.to_set()) by {
            assert forall|s: Stamp| x.to_set().contains(s) <==> y.to_set().contains(s) by {
                lemma_front_set(a, s);
                lemma_front_set(b, s);
            }
        }
        lemma_ascends_unique(x, y);
        assert(a =~= x.push(a.last()));
        assert(b =~= y.push(b.last()));
    }
}

proof fn lemma_ascends_front(a: Seq<Stamp>)
    requires
        ascends(a),
        a.len() > 0,
    ensures
        ascends(a.drop_last()),
{
    let x = a.drop_last();
    assert forall|i: int, j: int| 0 <= i < j < x.len() implies stamp_lt(
        #[trigger] x[i],
        #[trigger] x[j],
    ) by {
        assert(x[i] == a[i] && x[j] == a[j]);
    }
}

proof fn lemma_front_set(a: Seq<Stamp>, s: Stamp)
    requires
        ascends(a),
        a.len() > 0,
    ensures
        a.drop_last().to_set().contains(s) <==> a.to_set().contains(s) && s != a.last(),
{
    let x = a.drop_last();
    if x.contains(s) {
        let i = x.index_of(s);
        assert(a[i] == s);
        assert(stamp_lt(a[i], a[a.len() - 1]));
    }
    if a.contains(s) && s != a.last() {
        let i = a.index_of(s);
        assert(x[i] == s);
    }
}

/// A finite set of stamps has an ascending order.
pub proof fn lemma_in_order(s: Set<Stamp>)
    requires
        s.finite(),
    ensures
        ascends(in_order(s)),
        in_order(s).to_set() == s,
    decreases s.len(),
{
    if s.len() == 0 {
        let q = Seq::<Stamp>::empty();
        assert(q.to_set() =~= s);
        assert(ascends(q));
    } else {
        let m = lemma_highest(s);
        lemma_in_order(s.remove(m));
        let p = in_order(s.remove(m));
        let q = p.push(m);
        assert forall|i: int, j: int| 0 <= i < j < q.len() implies stamp_lt(
            #[trigger] q[i],
            #[trigger] q[j],
        ) by {
            if j == p.len() {
                assert(p.to_set().contains(p[i]));
                assert(s.remove(m).contains(p[i]));
            }
        }
        assert(q.to_set() =~= s) by {
            assert forall|x: Stamp| q.to_set().contains(x) <==> s.contains(x) by {
                if q.contains(x) {
                    let i = q.index_of(x);
                    if i < p.len() {
                        assert(p[i] == x);
                        assert(p.to_set().contains(x));
                    }
                }
                if s.contains(x) {
                    if x == m {
                        assert(q[p.len() as int] == m);
                    } else {
                        assert(p.to_set().contains(x));
                        let i = p.index_of(x);
                        assert(q[i] == x);
                    }
                }
            }
        }
        assert(ascends(q));
    }
}

/// A finite set of stamps that is not empty has a highest.
proof fn lemma_highest(s: Set<Stamp>) -> (m: Stamp)
    requires
        s.finite(),
        s.len() > 0,
    ensures
        s.contains(m),
        forall|x: Stamp| #[trigger] s.contains(x) && x != m ==> stamp_lt(x, m),
    decreases s.len(),
{
    let a = s.choose();
    if s.len() == 1 {
        assert forall|x: Stamp| #[trigger] s.contains(x) && x != a implies stamp_lt(x, a) by {
            assert(s.remove(a).contains(x));
            assert(s.remove(a).len() == 0);
        }
        a
    } else {
        let m = lemma_highest(s.remove(a));
        if stamp_lt(m, a) {
            assert forall|x: Stamp| #[trigger] s.contains(x) && x != a implies stamp_lt(x, a) by {
                assert(s.remove(a).contains(x));
            }
            a
        } else {
            assert forall|x: Stamp| #[trigger] s.contains(x) && x != m implies stamp_lt(x, m) by {
                if x != a {
                    assert(s.remove(a).contains(x));
                }
            }
            m
        }
    }
}

// --- the traversal ---

/// The ids that attach to `parent` on `side`.
pub open spec fn kid_set(places: Map<Stamp, Anchor>, parent: Option<Stamp>, side: Side) -> Set<
    Stamp,
> {
    Set::new(
        |x: Stamp| places.dom().contains(x) && places[x] == (Anchor { parent, side }),
    )
}

/// The ids that attach to `parent` on `side`, by stamp.
pub open spec fn kids(places: Map<Stamp, Anchor>, parent: Option<Stamp>, side: Side) -> Seq<Stamp> {
    in_order(kid_set(places, parent, side))
}

/// The subtree of `x`, in order, to depth `fuel`.
pub open spec fn walk(places: Map<Stamp, Anchor>, x: Stamp, fuel: nat) -> Seq<Stamp>
    decreases fuel, 0nat,
{
    if fuel == 0 {
        Seq::empty()
    } else {
        walk_all(places, kids(places, Some(x), Side::Left), (fuel - 1) as nat) + seq![x] + walk_all(
            places,
            kids(places, Some(x), Side::Right),
            (fuel - 1) as nat,
        )
    }
}

/// The subtrees of `xs`, one after the other.
pub open spec fn walk_all(places: Map<Stamp, Anchor>, xs: Seq<Stamp>, fuel: nat) -> Seq<Stamp>
    decreases fuel, xs.len() + 1,
{
    if xs.len() == 0 {
        Seq::empty()
    } else {
        walk(places, xs[0], fuel) + walk_all(places, xs.skip(1), fuel)
    }
}

/// The order of a sequence: every id that hangs off the root, directly or not. No id is
/// deeper than there are ids.
pub open spec fn order(places: Map<Stamp, Anchor>) -> Seq<Stamp> {
    let n = places.dom().len();
    walk_all(places, kids(places, None, Side::Left), n) + walk_all(
        places,
        kids(places, None, Side::Right),
        n,
    )
}

/// Whether `x` hangs `d` deep under the root.
pub open spec fn at_depth(places: Map<Stamp, Anchor>, x: Stamp, d: nat) -> bool
    decreases d,
{
    d > 0 && places.dom().contains(x) && match places[x].parent {
        None => d == 1,
        Some(p) => at_depth(places, p, (d - 1) as nat),
    }
}

/// The ids from `x` up to the root.
spec fn ancestry(places: Map<Stamp, Anchor>, x: Stamp, d: nat) -> Set<Stamp>
    decreases d,
{
    if d == 0 {
        Set::empty()
    } else {
        match places[x].parent {
            None => set![x],
            Some(p) => ancestry(places, p, (d - 1) as nat).insert(x),
        }
    }
}

proof fn lemma_depth_unique(places: Map<Stamp, Anchor>, x: Stamp, a: nat, b: nat)
    requires
        at_depth(places, x, a),
        at_depth(places, x, b),
    ensures
        a == b,
    decreases a,
{
    if let Some(p) = places[x].parent {
        lemma_depth_unique(places, p, (a - 1) as nat, (b - 1) as nat);
    }
}

proof fn lemma_ancestry(places: Map<Stamp, Anchor>, x: Stamp, d: nat)
    requires
        at_depth(places, x, d),
    ensures
        ancestry(places, x, d).finite(),
        ancestry(places, x, d).len() == d,
        ancestry(places, x, d).subset_of(places.dom()),
        forall|y: Stamp| #[trigger]
            ancestry(places, x, d).contains(y) ==> exists|e: nat|
                e <= d && #[trigger] at_depth(places, y, e),
    decreases d,
{
    match places[x].parent {
        None => {
            let s = ancestry(places, x, d);
            assert(s =~= Set::empty().insert(x));
            assert forall|y: Stamp| #[trigger] s.contains(y) implies exists|e: nat|
                e <= d && #[trigger] at_depth(places, y, e) by {
                assert(at_depth(places, x, d));
            }
        },
        Some(p) => {
            let e = (d - 1) as nat;
            lemma_ancestry(places, p, e);
            let s = ancestry(places, p, e);
            if s.contains(x) {
                let f = choose|f: nat| f <= e && #[trigger] at_depth(places, x, f);
                lemma_depth_unique(places, x, d, f);
            }
            let t = ancestry(places, x, d);
            assert forall|y: Stamp| #[trigger] t.contains(y) implies exists|g: nat|
                g <= d && #[trigger] at_depth(places, y, g) by {
                if y == x {
                    assert(at_depth(places, x, d));
                } else {
                    assert(s.contains(y));
                    let g = choose|g: nat| g <= e && #[trigger] at_depth(places, y, g);
                    assert(g <= d && at_depth(places, y, g));
                }
            }
        },
    }
}

/// No id hangs deeper than there are ids.
pub proof fn lemma_depth_bounded(places: Map<Stamp, Anchor>, x: Stamp, d: nat)
    requires
        places.dom().finite(),
        at_depth(places, x, d),
    ensures
        d <= places.dom().len(),
{
    lemma_ancestry(places, x, d);
    lemma_len_subset(ancestry(places, x, d), places.dom());
}

/// What attaches to a parent is a finite set, in ascending order.
pub proof fn lemma_kids(places: Map<Stamp, Anchor>, parent: Option<Stamp>, side: Side)
    requires
        places.dom().finite(),
    ensures
        kid_set(places, parent, side).finite(),
        ascends(kids(places, parent, side)),
        kids(places, parent, side).to_set() == kid_set(places, parent, side),
        forall|i: int|
            0 <= i < kids(places, parent, side).len() ==> places.dom().contains(
                #[trigger] kids(places, parent, side)[i],
            ) && places[kids(places, parent, side)[i]] == (Anchor { parent, side }),
{
    let s = kid_set(places, parent, side);
    assert(s.subset_of(places.dom()));
    vstd::set_lib::lemma_set_subset_finite(places.dom(), s);
    lemma_in_order(s);
    let q = kids(places, parent, side);
    assert forall|i: int| 0 <= i < q.len() implies places.dom().contains(#[trigger] q[i])
        && places[q[i]] == (Anchor { parent, side }) by {
        assert(q.to_set().contains(q[i]));
        assert(s.contains(q[i]));
    }
}

/// Nothing attaches where no place says so.
pub proof fn lemma_no_kids(places: Map<Stamp, Anchor>, parent: Option<Stamp>, side: Side)
    requires
        places.dom().finite(),
        forall|x: Stamp| #[trigger]
            places.dom().contains(x) ==> places[x] != (Anchor { parent, side }),
    ensures
        kids(places, parent, side) == Seq::<Stamp>::empty(),
{
    lemma_kids(places, parent, side);
    let q = kids(places, parent, side);
    if q.len() > 0 {
        assert(places.dom().contains(q[0]));
    }
    assert(q =~= Seq::empty());
}

/// A lone child is the only one.
pub proof fn lemma_one_kid(places: Map<Stamp, Anchor>, parent: Option<Stamp>, side: Side, k: Stamp)
    requires
        places.dom().finite(),
        places.dom().contains(k),
        forall|x: Stamp| #[trigger]
            places.dom().contains(x) ==> ((places[x] == (Anchor { parent, side })) <==> x == k),
    ensures
        kids(places, parent, side) == seq![k],
{
    lemma_kids(places, parent, side);
    let q = kids(places, parent, side);
    let s = kid_set(places, parent, side);
    let one = seq![k];
    assert(one.to_set() =~= s) by {
        assert forall|x: Stamp| one.to_set().contains(x) <==> s.contains(x) by {
            if s.contains(x) {
                assert(one[0] == x);
            }
        }
    }
    assert(ascends(one));
    lemma_ascends_unique(q, one);
}

// --- a stretch of ids that chain to the right ---

/// The `len` ids counting up from `head`.
pub open spec fn span_ids(head: Stamp, len: nat) -> Seq<Stamp> {
    Seq::new(len, |i: int| step(head, i))
}

/// Whether `len` ids from `head` form a piece: each after the first hangs to the right of
/// the one before, and nothing else attaches inside.
#[verifier::opaque]
pub open spec fn is_piece(places: Map<Stamp, Anchor>, head: Stamp, len: u64) -> bool {
    &&& len >= 1
    &&& head.lamport + len - 1 <= u64::MAX
    &&& forall|id: Stamp| #[trigger]
        spec_covers(head, len, id) ==> places.dom().contains(id) && (id != head ==> places[id] == (
        Anchor { parent: Some(step(id, -1)), side: Side::Right }))
    &&& forall|x: Stamp| #[trigger]
        places.dom().contains(x) ==> attaches_outside(places[x], x, head, len)
}

/// Whether `x`, at `place`, does not attach inside the piece: to its head on the left, to
/// its last on the right, or as the next id of the piece.
pub open spec fn attaches_outside(place: Anchor, x: Stamp, head: Stamp, len: u64) -> bool {
    match place.parent {
        None => true,
        Some(p) => spec_covers(head, len, p) ==> (place.side == Side::Left && p == head) || (
        place.side == Side::Right && (p == step(head, len - 1) || x == step(p, 1))),
    }
}

/// Past its head, a piece is a piece: the only thing to the right of the head, with
/// nothing to its left.
proof fn lemma_piece_tail(places: Map<Stamp, Anchor>, head: Stamp, len: u64)
    requires
        places.dom().finite(),
        is_piece(places, head, len),
        len > 1,
    ensures
        is_piece(places, step(head, 1), (len - 1) as u64),
        kids(places, Some(head), Side::Right) == seq![step(head, 1)],
        kids(places, Some(step(head, 1)), Side::Left) == Seq::<Stamp>::empty(),
{
    reveal(is_piece);
    let next = step(head, 1);
    let rest = (len - 1) as u64;
    assert(spec_covers(head, len, head));
    assert(spec_covers(head, len, next));
    assert(step(next, -1) == head);
    assert(step(head, len - 1) != head);
    assert forall|x: Stamp| #[trigger] places.dom().contains(x) implies ((places[x] == (Anchor {
        parent: Some(head),
        side: Side::Right,
    })) <==> x == next) by {
        assert(attaches_outside(places[x], x, head, len));
    }
    lemma_one_kid(places, Some(head), Side::Right, next);
    assert forall|id: Stamp| #[trigger] spec_covers(next, rest, id) implies places.dom().contains(id)
        && (id != next ==> places[id] == (Anchor {
        parent: Some(step(id, -1)),
        side: Side::Right,
    })) by {
        assert(spec_covers(head, len, id));
    }
    assert(step(next, rest - 1) == step(head, len - 1));
    assert forall|x: Stamp| #[trigger] places.dom().contains(x) implies attaches_outside(
        places[x],
        x,
        next,
        rest,
    ) && places[x] != (Anchor { parent: Some(next), side: Side::Left }) by {
        assert(attaches_outside(places[x], x, head, len));
        if let Some(p) = places[x].parent {
            if spec_covers(next, rest, p) {
                assert(spec_covers(head, len, p));
            }
        }
    }
    lemma_no_kids(places, Some(next), Side::Left);
}

/// A piece's subtree is what hangs to the left of its head, its ids, and what hangs to the
/// right of its last.
pub proof fn lemma_walk_piece(places: Map<Stamp, Anchor>, head: Stamp, len: u64, fuel: nat)
    requires
        places.dom().finite(),
        is_piece(places, head, len),
        fuel >= len,
        len >= 1,
        head.lamport + len - 1 <= u64::MAX,
    ensures
        walk(places, head, fuel) == walk_all(
            places,
            kids(places, Some(head), Side::Left),
            (fuel - 1) as nat,
        ) + span_ids(head, len as nat) + walk_all(
            places,
            kids(places, Some(step(head, len - 1)), Side::Right),
            (fuel - len) as nat,
        ),
    decreases len,
{
    let left = walk_all(places, kids(places, Some(head), Side::Left), (fuel - 1) as nat);
    if len == 1 {
        assert(step(head, 0) == head);
        assert(span_ids(head, 1) =~= seq![head]);
    } else {
        let next = step(head, 1);
        let rest = (len - 1) as u64;
        let f = (fuel - 1) as nat;
        lemma_piece_tail(places, head, len);
        lemma_walk_piece(places, next, rest, f);
        assert(step(next, rest - 1) == step(head, len - 1));
        let tail = walk_all(
            places,
            kids(places, Some(step(head, len - 1)), Side::Right),
            (fuel - len) as nat,
        );
        lemma_walk_one(places, next, f);
        let w = walk(places, next, f);
        let ids = span_ids(next, rest as nat);
        lemma_walk_none(places, (f - 1) as nat);
        assert(Seq::<Stamp>::empty() + ids + tail =~= ids + tail);
        assert(w == ids + tail);
        lemma_span_ids_cons(head, len as nat);
        assert(left + seq![head] + (ids + tail) =~= left + (seq![head] + ids) + tail);
    }
}

pub proof fn lemma_walk_none(places: Map<Stamp, Anchor>, fuel: nat)
    ensures
        walk_all(places, Seq::empty(), fuel) == Seq::<Stamp>::empty(),
{
}

/// One subtree walked is that subtree.
pub proof fn lemma_walk_one(places: Map<Stamp, Anchor>, x: Stamp, fuel: nat)
    ensures
        walk_all(places, seq![x], fuel) == walk(places, x, fuel),
{
    assert(seq![x].skip(1) =~= Seq::<Stamp>::empty());
    let none = walk_all(places, seq![x].skip(1), fuel);
    assert(none =~= Seq::empty());
    assert(walk(places, x, fuel) + none =~= walk(places, x, fuel));
}

proof fn lemma_span_ids_cons(head: Stamp, len: nat)
    requires
        len > 1,
        head.lamport + len - 1 <= u64::MAX,
    ensures
        seq![head] + span_ids(step(head, 1), (len - 1) as nat) == span_ids(head, len),
{
    let next = step(head, 1);
    let a = seq![head] + span_ids(next, (len - 1) as nat);
    let b = span_ids(head, len);
    assert(step(head, 0) == head);
    assert forall|i: int| 0 <= i < len implies a[i] == b[i] by {
        if i > 0 {
            assert(step(next, i - 1) == step(head, i));
        }
    }
    assert(a =~= b);
}

} // verus!
