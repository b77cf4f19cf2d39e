//! Runs of authored ops: what may be taken out of turn, and what a run is settled by.

use crate::authored::{
    authored_alone, lemma_runs_at, lemma_runs_once, lemma_runs_prefix, lemma_runs_push,
    runs_in_turn, same_standing,
};
use crate::clientid::ClientId;
use crate::doc::DocV;
use crate::grown::{lemma_congruent, lemma_pair};
use crate::op::OpV;
use vstd::prelude::*;

verus! {

/// Whether an op can apply after a run.
#[verifier::opaque]
pub open spec fn can_follow(c: ClientId, q: Seq<OpV>, a: OpV) -> bool {
    DocV::empty(c).ran(q).tree.ready(a)
}

/// Whether two runs end in the same standing.
#[verifier::opaque]
pub open spec fn alike(c: ClientId, s: Seq<OpV>, t: Seq<OpV>) -> bool {
    same_standing(DocV::empty(c).ran(s), DocV::empty(c).ran(t))
}

proof fn lemma_alike(c: ClientId, r: Seq<OpV>, s: Seq<OpV>, t: Seq<OpV>)
    ensures
        alike(c, r, r),
        alike(c, r, s) && alike(c, s, t) ==> alike(c, r, t),
        alike(c, r, s) ==> alike(c, s, r),
{
    reveal(alike);
}

proof fn lemma_last(c: ClientId, pool: Set<OpV>, q: Seq<OpV>, a: OpV)
    requires
        runs_in_turn(c, pool, q.push(a)),
    ensures
        runs_in_turn(c, pool, q),
        pool.contains(a),
        !q.contains(a),
        can_follow(c, q, a),
{
    assert(q.push(a).drop_last() =~= q);
    lemma_runs_prefix(c, pool, q.push(a));
    reveal(can_follow);
}

proof fn lemma_one_more(c: ClientId, pool: Set<OpV>, q: Seq<OpV>, a: OpV)
    requires
        runs_in_turn(c, pool, q),
        pool.contains(a),
        !q.contains(a),
        can_follow(c, q, a),
    ensures
        runs_in_turn(c, pool, q.push(a)),
{
    reveal(can_follow);
    lemma_runs_push(c, pool, q, a);
}

proof fn lemma_either(c: ClientId, pool: Set<OpV>, q: Seq<OpV>, a: OpV, b: OpV)
    requires
        authored_alone(pool),
        runs_in_turn(c, pool, q),
        pool.contains(a),
        pool.contains(b),
        a != b,
        !q.contains(a),
        !q.contains(b),
        can_follow(c, q, a),
        can_follow(c, q, b),
    ensures
        can_follow(c, q.push(a), b),
        alike(c, q.push(a).push(b), q.push(b).push(a)),
{
    reveal(can_follow);
    reveal(alike);
    lemma_pair(c, pool, q, a, b);
}

proof fn lemma_after_either(c: ClientId, pool: Set<OpV>, s: Seq<OpV>, t: Seq<OpV>, a: OpV)
    requires
        authored_alone(pool),
        runs_in_turn(c, pool, s),
        runs_in_turn(c, pool, t),
        pool.contains(a),
        alike(c, s, t),
    ensures
        can_follow(c, s, a) == can_follow(c, t, a),
{
    reveal(can_follow);
    reveal(alike);
    lemma_congruent(c, pool, s, t, a);
}

proof fn lemma_part(c: ClientId, pool: Set<OpV>, q: Seq<OpV>, s: Seq<OpV>)
    requires
        runs_in_turn(c, pool, q + s),
        s.len() > 0,
    ensures
        can_follow(c, q, s[0]),
        !s.skip(1).contains(s[0]),
{
    assert((q + s)[q.len() as int] == s[0]);
    assert((q + s).take(q.len() as int) =~= q);
    assert(can_follow(c, q, s[0])) by {
        reveal(can_follow);
        lemma_runs_at(c, pool, q + s, q.len() as int);
    }
    lemma_runs_once(c, pool, q + s);
    if s.skip(1).contains(s[0]) {
        let i: int = s.skip(1).index_of(s[0]);
        assert((q + s)[q.len() + i + 1] == s[0]);
    }
}

/// What can apply can still apply after whatever else did.
pub(crate) proof fn lemma_stays_ready(
    c: ClientId,
    pool: Set<OpV>,
    q: Seq<OpV>,
    rest: Seq<OpV>,
    a: OpV,
)
    requires
        authored_alone(pool),
        runs_in_turn(c, pool, q + rest),
        pool.contains(a),
        !(q + rest).contains(a),
        can_follow(c, q, a),
    ensures
        can_follow(c, q + rest, a),
    decreases rest.len(),
{
    if rest.len() == 0 {
        assert(q + rest =~= q);
    } else {
        let h = rest.drop_last();
        let b = rest.last();
        assert((q + h).push(b) =~= q + rest);
        lemma_push_contains(q + h, b);
        lemma_last(c, pool, q + h, b);
        lemma_stays_ready(c, pool, q, h, a);
        lemma_either(c, pool, q + h, b, a);
    }
}

/// Whether one run's ops are another's and one more.
pub open spec fn all_but(rest: Seq<OpV>, a: OpV, all: Seq<OpV>) -> bool {
    forall|x: OpV| #[trigger] rest.contains(x) <==> all.contains(x) && x != a
}

proof fn lemma_push_contains(s: Seq<OpV>, b: OpV)
    ensures
        forall|x: OpV| #[trigger] s.push(b).contains(x) <==> s.contains(x) || x == b,
{
    assert forall|x: OpV| #[trigger] s.push(b).contains(x) <==> s.contains(x) || x == b by {
        if s.contains(x) {
            let i: int = s.index_of(x);
            assert(s.push(b)[i] == x);
        }
        assert(s.push(b)[s.len() as int] == b);
    }
}

proof fn lemma_add_contains(s: Seq<OpV>, t: Seq<OpV>)
    ensures
        forall|x: OpV| #[trigger] (s + t).contains(x) <==> s.contains(x) || t.contains(x),
{
    assert forall|x: OpV| #[trigger] (s + t).contains(x) <==> s.contains(x) || t.contains(x) by {
        if s.contains(x) {
            assert((s + t)[s.index_of(x)] == x);
        }
        if t.contains(x) {
            assert((s + t)[s.len() + t.index_of(x)] == x);
        }
    }
}

/// An op that can apply on top of one run does so just as well on top of another of the
/// same standing.
proof fn lemma_follow(c: ClientId, pool: Set<OpV>, s: Seq<OpV>, t: Seq<OpV>, b: OpV)
    requires
        authored_alone(pool),
        runs_in_turn(c, pool, s.push(b)),
        runs_in_turn(c, pool, t),
        alike(c, s, t),
        !t.contains(b),
    ensures
        runs_in_turn(c, pool, t.push(b)),
        alike(c, s.push(b), t.push(b)),
{
    lemma_last(c, pool, s, b);
    lemma_after_either(c, pool, s, t, b);
    lemma_one_more(c, pool, t, b);
    reveal(can_follow);
    reveal(alike);
    lemma_congruent(c, pool, s, t, b);
}

/// An op of a run that could apply earlier may.
proof fn lemma_to_front(c: ClientId, pool: Set<OpV>, q: Seq<OpV>, rest: Seq<OpV>, a: OpV) -> (left:
    Seq<OpV>)
    requires
        authored_alone(pool),
        runs_in_turn(c, pool, q + rest),
        rest.contains(a),
        can_follow(c, q, a),
    ensures
        runs_in_turn(c, pool, q.push(a) + left),
        alike(c, q + rest, q.push(a) + left),
        all_but(left, a, rest),
    decreases rest.len(),
{
    let h = rest.drop_last();
    let b = rest.last();
    assert((q + h).push(b) =~= q + rest);
    lemma_last(c, pool, q + h, b);
    lemma_push_contains(h, b);
    assert(h.push(b) =~= rest);
    lemma_add_contains(q, h);
    if b != a {
        let l = lemma_to_front(c, pool, q, h, a);
        lemma_add_contains(q.push(a), l);
        lemma_push_contains(q, a);
        lemma_follow(c, pool, q + h, q.push(a) + l, b);
        assert((q.push(a) + l).push(b) =~= q.push(a) + l.push(b));
        lemma_push_contains(l, b);
        l.push(b)
    } else if h.len() == 0 {
        assert(q.push(a) + Seq::<OpV>::empty() =~= q + rest);
        lemma_alike(c, q + rest, q + rest, q + rest);
        Seq::empty()
    } else {
        let g = h.drop_last();
        let x = h.last();
        assert(g.push(x) =~= h);
        assert(g.push(x).push(a) =~= rest);
        lemma_step_back(c, pool, q, g, x, a);
        lemma_push_contains(g, a);
        lemma_push_contains(g, x);
        let l = lemma_to_front(c, pool, q, g.push(a), a);
        lemma_add_contains(q.push(a), l);
        lemma_push_contains(q, a);
        lemma_add_contains(q, g);
        lemma_follow(c, pool, q + g.push(a), q.push(a) + l, x);
        assert((q.push(a) + l).push(x) =~= q.push(a) + l.push(x));
        lemma_push_contains(l, x);
        lemma_alike(c, q + rest, (q + g.push(a)).push(x), q.push(a) + l.push(x));
        l.push(x)
    }
}

/// The last op of a run that could have applied earlier may go before the one ahead of it.
proof fn lemma_step_back(c: ClientId, pool: Set<OpV>, q: Seq<OpV>, g: Seq<OpV>, x: OpV, a: OpV)
    requires
        authored_alone(pool),
        runs_in_turn(c, pool, q + g.push(x).push(a)),
        can_follow(c, q, a),
    ensures
        a != x,
        !q.contains(x),
        !q.contains(a),
        !g.contains(x),
        !g.contains(a),
        runs_in_turn(c, pool, q + g.push(a)),
        runs_in_turn(c, pool, (q + g.push(a)).push(x)),
        alike(c, q + g.push(x).push(a), (q + g.push(a)).push(x)),
{
    let z = q + g;
    assert(z.push(x).push(a) =~= q + g.push(x).push(a));
    assert(z.push(a) =~= q + g.push(a));
    lemma_last(c, pool, z.push(x), a);
    lemma_last(c, pool, z, x);
    lemma_push_contains(z, x);
    lemma_push_contains(z, a);
    lemma_add_contains(q, g);
    lemma_stays_ready(c, pool, q, g, a);
    lemma_either(c, pool, z, x, a);
    lemma_either(c, pool, z, a, x);
    lemma_one_more(c, pool, z, a);
    lemma_one_more(c, pool, z.push(a), x);
}

/// A run that has all of another may start as the other does.
proof fn lemma_starts_as(c: ClientId, pool: Set<OpV>, q: Seq<OpV>, s: Seq<OpV>, rest: Seq<OpV>) -> (
left: Seq<OpV>)
    requires
        authored_alone(pool),
        runs_in_turn(c, pool, q + s),
        runs_in_turn(c, pool, q + rest),
        forall|x: OpV| #[trigger] s.contains(x) ==> rest.contains(x),
    ensures
        runs_in_turn(c, pool, q + s + left),
        alike(c, q + rest, q + s + left),
        forall|x: OpV| #[trigger] left.contains(x) <==> rest.contains(x) && !s.contains(x),
    decreases s.len(),
{
    if s.len() == 0 {
        assert(q + s + rest =~= q + rest);
        lemma_alike(c, q + rest, q + rest, q + rest);
        rest
    } else {
        let a = s[0];
        let t = s.skip(1);
        lemma_part(c, pool, q, s);
        assert(s.contains(a));
        let r = lemma_to_front(c, pool, q, rest, a);
        assert(q.push(a) + t =~= q + s);
        assert forall|x: OpV| #[trigger] t.contains(x) implies r.contains(x) by {
            let i: int = t.index_of(x);
            assert(s[i + 1] == x);
            assert(s.contains(x));
        }
        let left = lemma_starts_as(c, pool, q.push(a), t, r);
        lemma_alike(c, q + rest, q.push(a) + r, q.push(a) + t + left);
        assert(q.push(a) + t + left =~= q + s + left);
        assert forall|x: OpV| #[trigger] left.contains(x) <==> rest.contains(x) && !s.contains(
            x,
        ) by {
            if s.contains(x) && x != a {
                let i: int = s.index_of(x);
                assert(t[i - 1] == x);
            }
            if t.contains(x) {
                let i: int = t.index_of(x);
                assert(s[i + 1] == x);
            }
        }
        left
    }
}

/// Runs of the same ops end in the same standing.
pub(crate) proof fn lemma_same_ops(c: ClientId, pool: Set<OpV>, s: Seq<OpV>, t: Seq<OpV>)
    requires
        authored_alone(pool),
        runs_in_turn(c, pool, s),
        runs_in_turn(c, pool, t),
        forall|x: OpV| #[trigger] s.contains(x) <==> t.contains(x),
    ensures
        alike(c, t, s),
{
    let e = Seq::<OpV>::empty();
    assert(e + s =~= s);
    assert(e + t =~= t);
    let left = lemma_starts_as(c, pool, e, s, t);
    if left.len() > 0 {
        assert(left.contains(left[0]));
    }
    assert(e + s + left =~= s);
}

/// Whether nothing more of some ops can apply after a run.
pub open spec fn exhausts(c: ClientId, t: Seq<OpV>, free: Set<OpV>) -> bool {
    forall|a: OpV| #[trigger]
        free.contains(a) && !t.contains(a) ==> !can_follow(c, t, a)
}

/// A run after which nothing more can apply has every op that any run has.
pub(crate) proof fn lemma_runs_within(
    c: ClientId,
    pool: Set<OpV>,
    s: Seq<OpV>,
    t: Seq<OpV>,
    free: Set<OpV>,
)
    requires
        authored_alone(pool),
        runs_in_turn(c, pool, s),
        runs_in_turn(c, pool, t),
        forall|x: OpV| #[trigger] s.contains(x) ==> free.contains(x),
        exhausts(c, t, free),
    ensures
        forall|x: OpV| #[trigger] s.contains(x) ==> t.contains(x),
    decreases s.len(),
{
    if s.len() > 0 {
        let h = s.drop_last();
        let a = s.last();
        assert(h.push(a) =~= s);
        lemma_last(c, pool, h, a);
        lemma_push_contains(h, a);
        assert forall|x: OpV| #[trigger] h.contains(x) implies free.contains(x) by {
            assert(s.contains(x));
        }
        assert(s.contains(a));
        lemma_runs_within(c, pool, h, t, free);
        if !t.contains(a) {
            let e = Seq::<OpV>::empty();
            assert(e + h =~= h);
            assert(e + t =~= t);
            let left = lemma_starts_as(c, pool, e, h, t);
            assert(e + h + left =~= h + left);
            lemma_add_contains(h, left);
            lemma_stays_ready(c, pool, h, left, a);
            lemma_after_either(c, pool, t, h + left, a);
        }
    }
}

} // verus!
