//! A map kept as a vector sorted by key, so its contents have one order and equal
//! maps have equal entries.

use crate::bytes::{bytes_less, bytes_lt, lemma_bytes_lt_total, lemma_bytes_lt_trans};
use crate::clientid::ClientId;
use crate::elementid::ElementId;
use crate::op::OpId;
use crate::stamp::{stamp_lt, Stamp};
use vstd::prelude::*;

verus! {

/// A key: a value with a strict total order.
pub trait Key: View {
    spec fn before(a: Self::V, b: Self::V) -> bool;

    proof fn before_total(a: Self::V, b: Self::V)
        ensures
            Self::before(a, b) || Self::before(b, a) || a == b,
            !(Self::before(a, b) && Self::before(b, a)),
            a == b ==> !Self::before(a, b),
    ;

    proof fn before_trans(a: Self::V, b: Self::V, c: Self::V)
        requires
            Self::before(a, b),
            Self::before(b, c),
        ensures
            Self::before(a, c),
    ;

    fn less(&self, other: &Self) -> (r: bool)
        ensures
            r == Self::before(self@, other@),
    ;
}

impl View for ClientId {
    type V = ClientId;

    open spec fn view(&self) -> ClientId {
        *self
    }
}

impl View for ElementId {
    type V = ElementId;

    open spec fn view(&self) -> ElementId {
        *self
    }
}

impl View for OpId {
    type V = OpId;

    open spec fn view(&self) -> OpId {
        *self
    }
}

impl View for Stamp {
    type V = Stamp;

    open spec fn view(&self) -> Stamp {
        *self
    }
}

impl Key for ClientId {
    open spec fn before(a: ClientId, b: ClientId) -> bool {
        a.bits < b.bits
    }

    proof fn before_total(a: ClientId, b: ClientId) {
    }

    proof fn before_trans(a: ClientId, b: ClientId, c: ClientId) {
    }

    fn less(&self, other: &Self) -> (r: bool) {
        self.bits < other.bits
    }
}

impl Key for ElementId {
    open spec fn before(a: ElementId, b: ElementId) -> bool {
        a.bits < b.bits
    }

    proof fn before_total(a: ElementId, b: ElementId) {
    }

    proof fn before_trans(a: ElementId, b: ElementId, c: ElementId) {
    }

    fn less(&self, other: &Self) -> (r: bool) {
        self.bits < other.bits
    }
}

impl Key for OpId {
    open spec fn before(a: OpId, b: OpId) -> bool {
        a.client.bits < b.client.bits || (a.client.bits == b.client.bits && a.seq < b.seq)
    }

    proof fn before_total(a: OpId, b: OpId) {
    }

    proof fn before_trans(a: OpId, b: OpId, c: OpId) {
    }

    fn less(&self, other: &Self) -> (r: bool) {
        self.client.bits < other.client.bits || (self.client.bits == other.client.bits && self.seq
            < other.seq)
    }
}

impl Key for Stamp {
    open spec fn before(a: Stamp, b: Stamp) -> bool {
        stamp_lt(a, b)
    }

    proof fn before_total(a: Stamp, b: Stamp) {
    }

    proof fn before_trans(a: Stamp, b: Stamp, c: Stamp) {
    }

    fn less(&self, other: &Self) -> (r: bool) {
        other.gt(self)
    }
}

impl Key for Vec<u8> {
    open spec fn before(a: Seq<u8>, b: Seq<u8>) -> bool {
        bytes_lt(a, b)
    }

    proof fn before_total(a: Seq<u8>, b: Seq<u8>) {
        lemma_bytes_lt_total(a, b);
    }

    proof fn before_trans(a: Seq<u8>, b: Seq<u8>, c: Seq<u8>) {
        lemma_bytes_lt_trans(a, b, c);
    }

    fn less(&self, other: &Self) -> (r: bool) {
        bytes_less(self.as_slice(), other.as_slice())
    }
}

impl Key for u32 {
    open spec fn before(a: u32, b: u32) -> bool {
        a < b
    }

    proof fn before_total(a: u32, b: u32) {
    }

    proof fn before_trans(a: u32, b: u32, c: u32) {
    }

    fn less(&self, other: &Self) -> (r: bool) {
        *self < *other
    }
}

/// A map from keys to values, its entries in ascending key order.
pub struct Table<K, V> {
    pub entries: Vec<(K, V)>,
}

impl<K: Key, V> View for Table<K, V> {
    type V = Map<K::V, V>;

    open spec fn view(&self) -> Map<K::V, V> {
        seq_map::<K, V>(self.entries@)
    }
}

/// The keys of entries, in order.
pub open spec fn seq_keys<K: Key, V>(s: Seq<(K, V)>) -> Seq<K::V> {
    s.map_values(|e: (K, V)| e.0@)
}

/// Whether entries are in strictly ascending key order.
pub open spec fn sorted<K: Key, V>(s: Seq<(K, V)>) -> bool {
    forall|i: int, j: int| 0 <= i < j < s.len() ==> K::before(#[trigger] s[i].0@, #[trigger] s[j].0@)
}

/// The map that entries spell.
pub open spec fn seq_map<K: Key, V>(s: Seq<(K, V)>) -> Map<K::V, V> {
    Map::new(
        |k: K::V| exists|i: int| 0 <= i < s.len() && (#[trigger] s[i]).0@ == k,
        |k: K::V| s[index_of::<K, V>(s, k)].1,
    )
}

/// The place of `k` among entries that have it.
pub open spec fn index_of<K: Key, V>(s: Seq<(K, V)>, k: K::V) -> int {
    choose|i: int| 0 <= i < s.len() && (#[trigger] s[i]).0@ == k
}

/// Entry `i` of a sorted sequence is what the map holds at its key.
pub broadcast proof fn lemma_entry<K: Key, V>(s: Seq<(K, V)>, i: int)
    requires
        sorted(s),
        0 <= i < s.len(),
    ensures
        #![trigger seq_map::<K, V>(s), s[i]]
        seq_map::<K, V>(s).dom().contains(s[i].0@),
        seq_map::<K, V>(s)[s[i].0@] == s[i].1,
        index_of::<K, V>(s, s[i].0@) == i,
{
    let k = s[i].0@;
    let j = index_of::<K, V>(s, k);
    assert(s[i].0@ == k);
    K::before_total(s[i].0@, s[j].0@);
}

/// Sorted entries are determined by the map they spell.
pub proof fn lemma_entries_unique<K: Key, V>(a: Seq<(K, V)>, b: Seq<(K, V)>)
    requires
        sorted(a),
        sorted(b),
        seq_map::<K, V>(a) == seq_map::<K, V>(b),
    ensures
        a.len() == b.len(),
        forall|i: int| 0 <= i < a.len() ==> (#[trigger] a[i]).0@ == b[i].0@ && a[i].1 == b[i].1,
    decreases a.len(),
{
    if a.len() == 0 {
        if b.len() > 0 {
            lemma_entry::<K, V>(b, 0);
            assert(seq_map::<K, V>(a).dom().contains(b[0].0@));
        }
    } else if b.len() == 0 {
        lemma_entry::<K, V>(a, 0);
        assert(seq_map::<K, V>(b).dom().contains(a[0].0@));
    } else {
        let x = a.last();
        let y = b.last();
        let n = a.len() - 1;
        let m = b.len() - 1;
        lemma_entry::<K, V>(a, n);
        lemma_entry::<K, V>(b, m);
        assert(seq_map::<K, V>(b).dom().contains(x.0@));
        assert(seq_map::<K, V>(a).dom().contains(y.0@));
        let i = index_of::<K, V>(b, x.0@);
        let j = index_of::<K, V>(a, y.0@);
        assert(b[i].0@ == x.0@ && a[j].0@ == y.0@);
        K::before_total(x.0@, y.0@);
        if i < m {
            assert(K::before(b[i].0@, b[m].0@));
            if j < n {
                assert(K::before(a[j].0@, a[n].0@));
            }
        }
        assert(x.0@ == y.0@);
        assert(x.1 == y.1);
        let a2 = a.drop_last();
        let b2 = b.drop_last();
        lemma_drop_last::<K, V>(a);
        lemma_drop_last::<K, V>(b);
        lemma_entries_unique::<K, V>(a2, b2);
        assert forall|i: int| 0 <= i < a.len() implies (#[trigger] a[i]).0@ == b[i].0@ && a[i].1
            == b[i].1 by {
            if i < n {
                assert(a2[i] == a[i]);
                assert(b2[i] == b[i]);
            }
        }
    }
}

/// Dropping the last entry drops its key.
pub proof fn lemma_drop_last<K: Key, V>(s: Seq<(K, V)>)
    requires
        sorted(s),
        s.len() > 0,
    ensures
        sorted(s.drop_last()),
        seq_map::<K, V>(s.drop_last()) == seq_map::<K, V>(s).remove(s.last().0@),
{
    let t = s.drop_last();
    let k = s.last().0@;
    assert(sorted(t)) by {
        assert forall|i: int, j: int| 0 <= i < j < t.len() implies K::before(
            #[trigger] t[i].0@,
            #[trigger] t[j].0@,
        ) by {
            assert(t[i] == s[i] && t[j] == s[j]);
        }
    }
    let a = seq_map::<K, V>(t);
    let b = seq_map::<K, V>(s).remove(k);
    assert forall|q: K::V| a.dom().contains(q) <==> b.dom().contains(q) by {
        if a.dom().contains(q) {
            let i = index_of::<K, V>(t, q);
            assert(t[i] == s[i]);
            K::before_total(s[i].0@, k);
        }
        if b.dom().contains(q) {
            let i = index_of::<K, V>(s, q);
            assert(s[i].0@ == q);
            assert(t[i] == s[i]);
        }
    }
    assert forall|q: K::V| a.dom().contains(q) implies a[q] == b[q] by {
        let i = index_of::<K, V>(t, q);
        assert(t[i] == s[i]);
        lemma_entry::<K, V>(s, i);
    }
    assert(a =~= b);
}

/// Placing an entry where it keeps the order adds its key.
pub proof fn lemma_insert<K: Key, V>(s: Seq<(K, V)>, i: int, e: (K, V))
    requires
        sorted(s),
        0 <= i <= s.len(),
        forall|j: int| 0 <= j < i ==> K::before((#[trigger] s[j]).0@, e.0@),
        forall|j: int| i <= j < s.len() ==> K::before(e.0@, (#[trigger] s[j]).0@),
    ensures
        sorted(s.insert(i, e)),
        seq_map::<K, V>(s.insert(i, e)) == seq_map::<K, V>(s).insert(e.0@, e.1),
        !seq_map::<K, V>(s).dom().contains(e.0@),
{
    let t = s.insert(i, e);
    let k = e.0@;
    assert forall|a: int, b: int| 0 <= a < b < t.len() implies K::before(
        #[trigger] t[a].0@,
        #[trigger] t[b].0@,
    ) by {
        let sa = if a < i { a } else { a - 1 };
        let sb = if b < i { b } else { b - 1 };
        if a != i {
            assert(t[a] == s[sa]);
        }
        if b != i {
            assert(t[b] == s[sb]);
        }
    }
    let a = seq_map::<K, V>(t);
    let b = seq_map::<K, V>(s).insert(k, e.1);
    if seq_map::<K, V>(s).dom().contains(k) {
        let j = index_of::<K, V>(s, k);
        assert(s[j].0@ == k);
        K::before_total(k, k);
    }
    assert(t[i] == e);
    assert forall|q: K::V| a.dom().contains(q) <==> b.dom().contains(q) by {
        if a.dom().contains(q) && q != k {
            let j = index_of::<K, V>(t, q);
            assert(t[j].0@ == q);
            if j < i {
                assert(s[j] == t[j]);
            } else {
                assert(s[j - 1] == t[j]);
            }
        }
        if b.dom().contains(q) && q != k {
            let j = index_of::<K, V>(s, q);
            assert(s[j].0@ == q);
            if j < i {
                assert(s[j] == t[j]);
            } else {
                assert(s[j] == t[j + 1]);
            }
        }
    }
    assert forall|q: K::V| a.dom().contains(q) implies a[q] == b[q] by {
        let j = index_of::<K, V>(t, q);
        assert(t[j].0@ == q);
        lemma_entry::<K, V>(t, j);
        if q == k {
            lemma_entry::<K, V>(t, i);
        } else if j < i {
            assert(s[j] == t[j]);
            lemma_entry::<K, V>(s, j);
        } else {
            assert(s[j - 1] == t[j]);
            lemma_entry::<K, V>(s, j - 1);
        }
    }
    assert(a =~= b);
}

/// Changing the value of an entry changes the value at its key.
pub proof fn lemma_update<K: Key, V>(s: Seq<(K, V)>, i: int, e: (K, V))
    requires
        sorted(s),
        0 <= i < s.len(),
        e.0@ == s[i].0@,
    ensures
        sorted(s.update(i, e)),
        seq_map::<K, V>(s.update(i, e)) == seq_map::<K, V>(s).insert(e.0@, e.1),
{
    let t = s.update(i, e);
    assert forall|a: int, b: int| 0 <= a < b < t.len() implies K::before(
        #[trigger] t[a].0@,
        #[trigger] t[b].0@,
    ) by {
        assert(t[a].0@ == s[a].0@ && t[b].0@ == s[b].0@);
    }
    let a = seq_map::<K, V>(t);
    let b = seq_map::<K, V>(s).insert(e.0@, e.1);
    lemma_entry::<K, V>(s, i);
    assert forall|q: K::V| a.dom().contains(q) <==> b.dom().contains(q) by {
        if a.dom().contains(q) {
            let j = index_of::<K, V>(t, q);
            assert(t[j].0@ == q);
            assert(s[j].0@ == q);
        }
        if b.dom().contains(q) {
            let j = index_of::<K, V>(s, q);
            assert(s[j].0@ == q);
            assert(t[j].0@ == q);
        }
    }
    assert forall|q: K::V| a.dom().contains(q) implies a[q] == b[q] by {
        let j = index_of::<K, V>(t, q);
        assert(t[j].0@ == q);
        lemma_entry::<K, V>(t, j);
        lemma_entry::<K, V>(s, j);
    }
    assert(a =~= b);
}

/// Taking an entry out removes its key.
pub proof fn lemma_remove<K: Key, V>(s: Seq<(K, V)>, i: int)
    requires
        sorted(s),
        0 <= i < s.len(),
    ensures
        sorted(s.remove(i)),
        seq_map::<K, V>(s.remove(i)) == seq_map::<K, V>(s).remove(s[i].0@),
{
    let t = s.remove(i);
    let k = s[i].0@;
    assert forall|a: int, b: int| 0 <= a < b < t.len() implies K::before(
        #[trigger] t[a].0@,
        #[trigger] t[b].0@,
    ) by {
        let sa = if a < i { a } else { a + 1 };
        let sb = if b < i { b } else { b + 1 };
        assert(t[a] == s[sa] && t[b] == s[sb]);
    }
    let a = seq_map::<K, V>(t);
    let b = seq_map::<K, V>(s).remove(k);
    assert forall|q: K::V| a.dom().contains(q) <==> b.dom().contains(q) by {
        if a.dom().contains(q) {
            let j = index_of::<K, V>(t, q);
            assert(t[j].0@ == q);
            let sj = if j < i { j } else { j + 1 };
            assert(t[j] == s[sj]);
            lemma_entry::<K, V>(s, sj);
            lemma_entry::<K, V>(s, i);
        }
        if b.dom().contains(q) {
            let j = index_of::<K, V>(s, q);
            assert(s[j].0@ == q);
            assert(j != i);
            let tj = if j < i { j } else { j - 1 };
            assert(t[tj] == s[j]);
        }
    }
    assert forall|q: K::V| a.dom().contains(q) implies a[q] == b[q] by {
        let j = index_of::<K, V>(t, q);
        assert(t[j].0@ == q);
        let sj = if j < i { j } else { j + 1 };
        assert(t[j] == s[sj]);
        lemma_entry::<K, V>(s, sj);
    }
    assert(a =~= b);
}

/// Sorted entries taken one further add the next entry.
pub proof fn lemma_take<K: Key, V>(s: Seq<(K, V)>, i: int)
    requires
        sorted(s),
        0 <= i < s.len(),
    ensures
        sorted(s.take(i)),
        sorted(s.take(i + 1)),
        !seq_map::<K, V>(s.take(i)).dom().contains(s[i].0@),
        seq_map::<K, V>(s.take(i + 1)) == seq_map::<K, V>(s.take(i)).insert(s[i].0@, s[i].1),
{
    let q = s.take(i + 1);
    assert forall|x: int, y: int| 0 <= x < y < q.len() implies K::before(
        #[trigger] q[x].0@,
        #[trigger] q[y].0@,
    ) by {
        assert(q[x] == s[x] && q[y] == s[y]);
    }
    assert(q.drop_last() =~= s.take(i));
    lemma_drop_last::<K, V>(q);
    lemma_entry::<K, V>(q, i);
    assert(seq_map::<K, V>(q) =~= seq_map::<K, V>(s.take(i)).insert(s[i].0@, s[i].1));
}

/// The map that sorted entries spell is finite, with one key per entry.
pub proof fn lemma_size<K: Key, V>(s: Seq<(K, V)>)
    requires
        sorted(s),
    ensures
        seq_map::<K, V>(s).dom().finite(),
        seq_map::<K, V>(s).dom().len() == s.len(),
    decreases s.len(),
{
    let m = seq_map::<K, V>(s);
    if s.len() == 0 {
        assert(m.dom() =~= Set::empty());
    } else {
        lemma_drop_last::<K, V>(s);
        lemma_size::<K, V>(s.drop_last());
        lemma_entry::<K, V>(s, s.len() - 1);
        let k = s.last().0@;
        assert(m.dom() =~= m.remove(k).dom().insert(k));
    }
}

impl<K: Key, V> Table<K, V> {
    /// The entries are in strictly ascending key order.
    pub open spec fn wf(&self) -> bool {
        sorted(self.entries@)
    }

    pub fn new() -> (t: Self)
        ensures
            t.wf(),
            t@ == Map::<K::V, V>::empty(),
            t.entries@.len() == 0,
    {
        let t = Table { entries: Vec::new() };
        proof {
            assert(t@ =~= Map::<K::V, V>::empty());
        }
        t
    }

    pub fn len(&self) -> (n: usize)
        requires
            self.wf(),
        ensures
            n == self.entries@.len(),
            self@.dom().finite(),
            n == self@.dom().len(),
    {
        proof {
            lemma_size::<K, V>(self.entries@);
        }
        self.entries.len()
    }

    /// Where `key` stands, or would stand: the first entry not below it.
    pub fn find(&self, key: &K) -> (r: (usize, bool))
        requires
            self.wf(),
        ensures
            r.0 <= self.entries@.len(),
            forall|j: int| 0 <= j < r.0 ==> K::before((#[trigger] self.entries@[j]).0@, key@),
            r.1 ==> r.0 < self.entries@.len() && self.entries@[r.0 as int].0@ == key@,
            !r.1 ==> forall|j: int|
                r.0 <= j < self.entries@.len() ==> K::before(key@, (#[trigger] self.entries@[j]).0@),
            r.1 == self@.dom().contains(key@),
            r.1 ==> self@[key@] == self.entries@[r.0 as int].1,
    {
        let mut lo: usize = 0;
        let mut hi: usize = self.entries.len();
        while lo < hi
            invariant
                self.wf(),
                lo <= hi <= self.entries@.len(),
                forall|j: int| 0 <= j < lo ==> K::before((#[trigger] self.entries@[j]).0@, key@),
                forall|j: int|
                    hi <= j < self.entries@.len() ==> !K::before(
                        (#[trigger] self.entries@[j]).0@,
                        key@,
                    ),
            decreases hi - lo,
        {
            let mid: usize = lo + (hi - lo) / 2;
            if self.entries[mid].0.less(key) {
                proof {
                    assert forall|j: int| 0 <= j < mid + 1 implies K::before(
                        (#[trigger] self.entries@[j]).0@,
                        key@,
                    ) by {
                        if j < mid {
                            K::before_trans(
                                self.entries@[j].0@,
                                self.entries@[mid as int].0@,
                                key@,
                            );
                        }
                    }
                }
                lo = mid + 1;
            } else {
                proof {
                    assert forall|j: int| mid <= j < self.entries@.len() implies !K::before(
                        (#[trigger] self.entries@[j]).0@,
                        key@,
                    ) by {
                        if mid < j && K::before(self.entries@[j].0@, key@) {
                            K::before_trans(
                                self.entries@[mid as int].0@,
                                self.entries@[j].0@,
                                key@,
                            );
                        }
                    }
                }
                hi = mid;
            }
        }
        let found = lo < self.entries.len() && !key.less(&self.entries[lo].0);
        proof {
            let s = self.entries@;
            if lo < s.len() {
                K::before_total(s[lo as int].0@, key@);
            }
            if found {
                lemma_entry::<K, V>(s, lo as int);
            } else {
                assert forall|j: int| lo <= j < s.len()
                    implies K::before(key@, (#[trigger] s[j]).0@) by {
                    if lo < j {
                        K::before_trans(key@, s[lo as int].0@, s[j].0@);
                    }
                }
                if self@.dom().contains(key@) {
                    let j = index_of::<K, V>(s, key@);
                    assert(s[j].0@ == key@);
                    K::before_total(key@, key@);
                }
            }
        }
        (lo, found)
    }

    /// The value at `key`.
    pub fn get(&self, key: &K) -> (r: Option<&V>)
        requires
            self.wf(),
        ensures
            match r {
                Some(v) => self@.dom().contains(key@) && *v == self@[key@],
                None => !self@.dom().contains(key@),
            },
    {
        let (i, found) = self.find(key);
        if found {
            Some(&self.entries[i].1)
        } else {
            None
        }
    }

    pub fn contains_key(&self, key: &K) -> (b: bool)
        requires
            self.wf(),
        ensures
            b == self@.dom().contains(key@),
    {
        let (_, found) = self.find(key);
        found
    }

    /// Put `value` at `key`, giving back what was there.
    pub fn insert(&mut self, key: K, value: V) -> (r: Option<V>)
        requires
            old(self).wf(),
        ensures
            final(self).wf(),
            final(self)@ == old(self)@.insert(key@, value),
            match r {
                Some(v) => old(self)@.dom().contains(key@) && v == old(self)@[key@],
                None => !old(self)@.dom().contains(key@),
            },
    {
        let (i, found) = self.find(&key);
        let ghost s = self.entries@;
        if found {
            let mut e: (K, V) = (key, value);
            proof {
                lemma_update::<K, V>(s, i as int, e);
            }
            std::mem::swap(&mut self.entries[i], &mut e);
            Some(e.1)
        } else {
            let ghost e = (key, value);
            self.entries.insert(i, (key, value));
            proof {
                lemma_insert::<K, V>(s, i as int, e);
            }
            None
        }
    }

    /// Take out the value at `key`.
    pub fn remove(&mut self, key: &K) -> (r: Option<V>)
        requires
            old(self).wf(),
        ensures
            final(self).wf(),
            final(self)@ == old(self)@.remove(key@),
            match r {
                Some(v) => old(self)@.dom().contains(key@) && v == old(self)@[key@],
                None => !old(self)@.dom().contains(key@),
            },
    {
        let (i, found) = self.find(key);
        let ghost s = self.entries@;
        if found {
            let (_, v) = self.entries.remove(i);
            proof {
                lemma_remove::<K, V>(s, i as int);
            }
            Some(v)
        } else {
            proof {
                assert(self@ =~= self@.remove(key@));
            }
            None
        }
    }

    /// The value at `key`, to change in place.
    pub fn get_mut(&mut self, key: &K) -> (r: Option<&mut V>)
        requires
            old(self).wf(),
        ensures
            match r {
                Some(v) => old(self)@.dom().contains(key@) && *v == old(self)@[key@]
                    && final(self).wf() && final(self)@ == old(self)@.insert(key@, *final(v)),
                None => !old(self)@.dom().contains(key@) && *final(self) == *old(self),
            },
    {
        let (i, found) = self.find(key);
        if found {
            let ghost s = self.entries@;
            proof {
                assert forall|v: V| #[trigger]
                    sorted(s.update(i as int, (s[i as int].0, v))) && seq_map::<K, V>(
                        s.update(i as int, (s[i as int].0, v)),
                    ) == seq_map::<K, V>(s).insert(key@, v) by {
                    lemma_update::<K, V>(s, i as int, (s[i as int].0, v));
                }
            }
            let e = &mut self.entries[i];
            Some(&mut e.1)
        } else {
            None
        }
    }
}

impl<K: Key, V> Table<K, V> {
    /// Take out every key that is in `keys`.
    pub fn drop_all(&mut self, keys: &Table<K, ()>)
        requires
            old(self).wf(),
            keys.wf(),
        ensures
            final(self).wf(),
            final(self)@ == old(self)@.remove_keys(keys@.dom()),
    {
        let ghost e = keys.entries@;
        let ghost m = self@;
        let mut i: usize = 0;
        proof {
            assert(seq_map::<K, ()>(e.take(0)).dom() =~= Set::empty());
            assert(m =~= m.remove_keys(Set::empty()));
        }
        while i < keys.entries.len()
            invariant
                self.wf(),
                keys.wf(),
                e == keys.entries@,
                i <= e.len(),
                self@ == m.remove_keys(seq_map::<K, ()>(e.take(i as int)).dom()),
            decreases e.len() - i,
        {
            let _ = self.remove(&keys.entries[i].0);
            proof {
                lemma_take::<K, ()>(e, i as int);
                assert(self@ =~= m.remove_keys(seq_map::<K, ()>(e.take(i + 1)).dom()));
            }
            i += 1;
        }
        proof {
            assert(e.take(i as int) =~= e);
        }
    }
}

/// Pushing an item adds it to the items.
pub proof fn lemma_push_set<A>(s: Seq<A>, x: A)
    ensures
        s.push(x).to_set() == s.to_set().insert(x),
{
    assert forall|y: A| s.push(x).to_set().contains(y) <==> s.to_set().insert(x).contains(y) by {
        if s.contains(y) {
            let i = s.index_of(y);
            assert(s.push(x)[i] == y);
        }
        if y == x {
            assert(s.push(x)[s.len() as int] == y);
        }
    }
    assert(s.push(x).to_set() =~= s.to_set().insert(x));
}

// --- keys in order ---

/// Whether keys strictly ascend.
pub open spec fn rises<K: Key>(q: Seq<K::V>) -> bool {
    forall|i: int, j: int| 0 <= i < j < q.len() ==> K::before(#[trigger] q[i], #[trigger] q[j])
}

/// A set of keys in ascending order.
pub open spec fn ordered<K: Key>(s: Set<K::V>) -> Seq<K::V> {
    choose|q: Seq<K::V>| #[trigger] rises::<K>(q) && q.to_set() == s
}

/// Ascending sequences of the same keys are equal.
pub proof fn lemma_rises_unique<K: Key>(a: Seq<K::V>, b: Seq<K::V>)
    requires
        rises::<K>(a),
        rises::<K>(b),
        a.to_set() == b.to_set(),
    ensures
        a == b,
    decreases a.len(),
{
    if a.len() == 0 {
        if b.len() > 0 {
            assert(b.to_set().contains(b[0]));
            assert(a.to_set().contains(b[0]));
        }
        assert(a =~= b);
    } else {
        assert(a.to_set().contains(a.last()));
        assert(b.to_set().contains(a.last()));
        let j = b.index_of(a.last());
        assert(b.to_set().contains(b.last()));
        assert(a.to_set().contains(b.last()));
        let i = a.index_of(b.last());
        if i < a.len() - 1 {
            assert(K::before(a[i], a[a.len() - 1]));
            if j < b.len() - 1 {
                assert(K::before(b[j], b[b.len() - 1]));
                K::before_total(a.last(), b.last());
            }
        }
        assert(a.last() == b.last());
        let x = a.drop_last();
        let y = b.drop_last();
        lemma_rises_front::<K>(a);
        lemma_rises_front::<K>(b);
        assert forall|k: K::V| x.to_set().contains(k) <==> y.to_set().contains(k) by {
            assert(a.to_set().contains(k) == b.to_set().contains(k));
        }
        assert(x.to_set() =~= y.to_set());
        lemma_rises_unique::<K>(x, y);
        assert(a =~= x.push(a.last()));
        assert(b =~= y.push(b.last()));
    }
}

proof fn lemma_rises_front<K: Key>(a: Seq<K::V>)
    requires
        rises::<K>(a),
        a.len() > 0,
    ensures
        rises::<K>(a.drop_last()),
        forall|k: K::V| #[trigger]
            a.drop_last().to_set().contains(k) <==> a.to_set().contains(k) && k != a.last(),
{
    let x = a.drop_last();
    assert forall|i: int, j: int| 0 <= i < j < x.len() implies K::before(
        #[trigger] x[i],
        #[trigger] x[j],
    ) by {
        assert(x[i] == a[i] && x[j] == a[j]);
    }
    assert forall|k: K::V| #[trigger] x.to_set().contains(k) <==> a.to_set().contains(k) && k
        != a.last() by {
        if x.contains(k) {
            let i = x.index_of(k);
            assert(a[i] == k);
            assert(K::before(a[i], a[a.len() - 1]));
            K::before_total(k, k);
        }
        if a.contains(k) && k != a.last() {
            let i = a.index_of(k);
            assert(x[i] == k);
        }
    }
}

/// A finite set of keys that is not empty has a last one.
proof fn lemma_last_key<K: Key>(s: Set<K::V>) -> (m: K::V)
    requires
        s.finite(),
        s.len() > 0,
    ensures
        s.contains(m),
        forall|x: K::V| #[trigger] s.contains(x) && x != m ==> K::before(x, m),
    decreases s.len(),
{
    let c = s.choose();
    let rest = s.remove(c);
    if rest.len() == 0 {
        assert forall|x: K::V| #[trigger] s.contains(x) && x != c implies K::before(x, c) by {
            assert(rest.contains(x));
        }
        c
    } else {
        let m = lemma_last_key::<K>(rest);
        K::before_total(m, c);
        if K::before(m, c) {
            assert forall|x: K::V| #[trigger] s.contains(x) && x != c implies K::before(x, c) by {
                assert(rest.contains(x));
                if x != m {
                    K::before_trans(x, m, c);
                }
            }
            c
        } else {
            assert forall|x: K::V| #[trigger] s.contains(x) && x != m implies K::before(x, m) by {
                if x != c {
                    assert(rest.contains(x));
                }
            }
            m
        }
    }
}

/// A finite set of keys in ascending order has exactly those keys.
pub proof fn lemma_ordered_exists<K: Key>(s: Set<K::V>)
    requires
        s.finite(),
    ensures
        rises::<K>(ordered::<K>(s)),
        ordered::<K>(s).to_set() == s,
    decreases s.len(),
{
    let q = if s.len() == 0 {
        Seq::<K::V>::empty()
    } else {
        let m = lemma_last_key::<K>(s);
        lemma_ordered_exists::<K>(s.remove(m));
        ordered::<K>(s.remove(m)).push(m)
    };
    if s.len() > 0 {
        let m = q.last();
        let f = q.drop_last();
        assert(f =~= ordered::<K>(s.remove(m)));
        assert forall|i: int, j: int| 0 <= i < j < q.len() implies K::before(
            #[trigger] q[i],
            #[trigger] q[j],
        ) by {
            assert(q[i] == f[i]);
            if j < f.len() {
                assert(q[j] == f[j]);
            } else {
                assert(f.to_set().contains(f[i]));
            }
        }
        lemma_push_set(f, m);
        assert(q.to_set() =~= s);
    } else {
        assert(q.to_set() =~= s);
    }
    assert(rises::<K>(q) && q.to_set() == s);
}

/// The keys of sorted entries are the map's keys in order.
pub proof fn lemma_ordered<K: Key, V>(s: Seq<(K, V)>)
    requires
        sorted(s),
    ensures
        seq_keys(s) == ordered::<K>(seq_map::<K, V>(s).dom()),
        rises::<K>(seq_keys(s)),
        seq_keys(s).to_set() == seq_map::<K, V>(s).dom(),
        seq_keys(s).no_duplicates(),
{
    let q = seq_keys(s);
    let dom = seq_map::<K, V>(s).dom();
    assert(rises::<K>(q)) by {
        assert forall|i: int, j: int| 0 <= i < j < q.len() implies K::before(
            #[trigger] q[i],
            #[trigger] q[j],
        ) by {
            assert(K::before(s[i].0@, s[j].0@));
        }
    }
    assert forall|k: K::V| q.to_set().contains(k) <==> dom.contains(k) by {
        if q.contains(k) {
            let i = q.index_of(k);
            assert(s[i].0@ == k);
        }
        if dom.contains(k) {
            let i = index_of::<K, V>(s, k);
            assert(q[i] == k);
        }
    }
    assert(q.to_set() =~= dom);
    lemma_rises_unique::<K>(q, ordered::<K>(dom));
    assert forall|i: int, j: int| 0 <= i < q.len() && 0 <= j < q.len() && i != j implies q[i]
        != q[j] by {
        K::before_total(q[i], q[j]);
        if i < j {
            assert(K::before(q[i], q[j]));
        } else {
            assert(K::before(q[j], q[i]));
        }
    }
}

// --- values by view ---

/// A map's values, by value.
pub open spec fn views<K, V: View>(m: Map<K, V>) -> Map<K, V::V> {
    m.map_values(|v: V| v@)
}

pub broadcast proof fn lemma_views_insert<K, V: View>(m: Map<K, V>, k: K, v: V)
    ensures
        #[trigger] views(m.insert(k, v)) == views(m).insert(k, v@),
{
    assert(views(m.insert(k, v)) =~= views(m).insert(k, v@));
}

pub broadcast proof fn lemma_views_remove<K, V: View>(m: Map<K, V>, k: K)
    ensures
        #[trigger] views(m.remove(k)) == views(m).remove(k),
{
    assert(views(m.remove(k)) =~= views(m).remove(k));
}

} // verus!
