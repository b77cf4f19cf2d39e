//! Counter: a PN-counter. Each client keeps its own increments and decrements, and a
//! merge takes the larger of each.
//!
//! `displaced` marks a counter no longer installed in any slot.

use crate::clientid::ClientId;
use crate::codec::{
    len_u32, put_client, put_element_id, put_u32, reads_view, Cursor, DecodeError,
};
use crate::elementid::ElementId;
use crate::format::{
    enc_u32, exactly, fits_u32, lemma_concat_assoc, parse_client, parse_element_id, parse_u32,
    Parsed,
};
use crate::roundtrip::{rt_client, rt_element_id, rt_u32};
use crate::table::{
    lemma_entries_unique, lemma_entry, lemma_ordered, lemma_size, lemma_take, ordered, seq_keys,
    seq_map, sorted, Table,
};
use vstd::prelude::*;

verus! {

/// One client's increments and decrements.
#[derive(Clone, Copy, PartialEq, Eq, Debug, Structural)]
pub struct Tally {
    pub inc: u32,
    pub dec: u32,
}

/// A counter: its id, every client's tally, and whether it has lost its slot.
pub struct Counter {
    pub id: ElementId,
    pub entries: Table<ClientId, Tally>,
    pub displaced: bool,
}

/// A counter as a value.
pub struct CounterV {
    pub id: ElementId,
    pub tallies: Map<ClientId, Tally>,
    pub displaced: bool,
}

impl View for Counter {
    type V = CounterV;

    open spec fn view(&self) -> CounterV {
        CounterV { id: self.id, tallies: self.entries@, displaced: self.displaced }
    }
}

/// What `client` has counted: nothing until it first counts.
pub open spec fn tally_of(m: Map<ClientId, Tally>, client: ClientId) -> Tally {
    if m.dom().contains(client) {
        m[client]
    } else {
        Tally { inc: 0, dec: 0 }
    }
}

/// `a + b` in 32-bit arithmetic.
pub open spec fn wrap_add(a: u32, b: u32) -> u32 {
    ((a + b) % 0x1_0000_0000) as u32
}

/// The tallies after `client` adds `amount` to its increments.
pub open spec fn tallies_inc(
    m: Map<ClientId, Tally>,
    client: ClientId,
    amount: u32,
) -> Map<ClientId, Tally> {
    let t = tally_of(m, client);
    m.insert(client, Tally { inc: wrap_add(t.inc, amount), dec: t.dec })
}

/// The tallies after `client` adds `amount` to its decrements.
pub open spec fn tallies_dec(
    m: Map<ClientId, Tally>,
    client: ClientId,
    amount: u32,
) -> Map<ClientId, Tally> {
    let t = tally_of(m, client);
    m.insert(client, Tally { inc: t.inc, dec: wrap_add(t.dec, amount) })
}

/// The larger of two tallies in each direction.
pub open spec fn tally_max(a: Tally, b: Tally) -> Tally {
    Tally {
        inc: if a.inc >= b.inc {
            a.inc
        } else {
            b.inc
        },
        dec: if a.dec >= b.dec {
            a.dec
        } else {
            b.dec
        },
    }
}

/// The join of two counters' tallies: every client either knows, at its larger count.
pub open spec fn tallies_merge(
    a: Map<ClientId, Tally>,
    b: Map<ClientId, Tally>,
) -> Map<ClientId, Tally> {
    Map::new(
        |c: ClientId| a.dom().contains(c) || b.dom().contains(c),
        |c: ClientId| tally_max(tally_of(a, c), tally_of(b, c)),
    )
}

/// What two tallies add up to in each direction, modulo 2^32.
pub open spec fn tally_plus(a: Tally, b: Tally) -> Tally {
    Tally { inc: wrap_add(a.inc, b.inc), dec: wrap_add(a.dec, b.dec) }
}

/// The tallies of two counters counted together: every client either knows, at the sum
/// of its counts.
pub open spec fn tallies_plus(
    a: Map<ClientId, Tally>,
    b: Map<ClientId, Tally>,
) -> Map<ClientId, Tally> {
    Map::new(
        |c: ClientId| a.dom().contains(c) || b.dom().contains(c),
        |c: ClientId| tally_plus(tally_of(a, c), tally_of(b, c)),
    )
}

/// The sum of increments less decrements.
pub open spec fn tally_sum(s: Seq<(ClientId, Tally)>) -> int
    decreases s.len(),
{
    if s.len() == 0 {
        0
    } else {
        tally_sum(s.drop_last()) + s.last().1.inc - s.last().1.dec
    }
}

/// One client and its tally.
pub open spec fn enc_tally(client: ClientId, t: Tally) -> Seq<u8> {
    client.bytes() + enc_u32(t.inc) + enc_u32(t.dec)
}

pub open spec fn enc_tallies(s: Seq<(ClientId, Tally)>) -> Seq<u8>
    decreases s.len(),
{
    if s.len() == 0 {
        Seq::empty()
    } else {
        enc_tally(s[0].0, s[0].1) + enc_tallies(s.skip(1))
    }
}

/// A counter's state: its id, how many clients it knows, then each client and tally.
pub open spec fn enc_counter(id: ElementId, s: Seq<(ClientId, Tally)>) -> Seq<u8> {
    id.bytes() + enc_u32(s.len() as u32) + enc_tallies(s)
}

/// One client and its tally.
pub open spec fn parse_tally(s: Seq<u8>) -> Parsed<(ClientId, Tally)> {
    match parse_client(s) {
        Err(e) => Err(e),
        Ok((client, r)) => match parse_u32(r) {
            Err(e) => Err(e),
            Ok((inc, r)) => match parse_u32(r) {
                Err(e) => Err(e),
                Ok((dec, r)) => Ok(((client, Tally { inc, dec }), r)),
            },
        },
    }
}

/// `n` tallies added to `known`; a client seen twice is malformed.
pub open spec fn parse_tallies(s: Seq<u8>, n: nat, known: Map<ClientId, Tally>) -> Parsed<
    Map<ClientId, Tally>,
>
    decreases n,
{
    if n == 0 {
        Ok((known, s))
    } else {
        match parse_tally(s) {
            Err(e) => Err(e),
            Ok(((client, tally), r)) => if known.dom().contains(client) {
                Err(DecodeError::BadTag { what: "counter: duplicate client", tag: 0 })
            } else {
                parse_tallies(r, (n - 1) as nat, known.insert(client, tally))
            },
        }
    }
}

pub open spec fn parse_counter(s: Seq<u8>) -> Parsed<CounterV> {
    match parse_element_id(s) {
        Err(e) => Err(e),
        Ok((id, r)) => match parse_u32(r) {
            Err(e) => Err(e),
            Ok((n, r)) => match parse_tallies(r, n as nat, Map::empty()) {
                Err(e) => Err(e),
                Ok((tallies, r)) => Ok((CounterV { id, tallies, displaced: false }, r)),
            },
        },
    }
}

impl Counter {
    /// The tallies are kept in ascending client order.
    pub open spec fn wf(&self) -> bool {
        self.entries.wf()
    }

    /// The counter's value.
    pub open spec fn total(&self) -> int {
        tally_sum(self.entries.entries@)
    }

    pub fn new(id: ElementId) -> (c: Self)
        ensures
            c.wf(),
            c@ == (CounterV { id, tallies: Map::empty(), displaced: false }),
    {
        Counter { id, entries: Table::new(), displaced: false }
    }

    pub fn id(&self) -> (id: ElementId)
        ensures
            id == self.id,
    {
        self.id
    }

    /// Append this counter's state to `out`, clients in ascending order.
    pub(crate) fn encode_state_into(&self, out: &mut Vec<u8>)
        requires
            self.wf(),
            fits_u32(self.entries.entries@.len()),
        ensures
            final(out)@ == old(out)@ + enc_counter(self.id, self.entries.entries@),
    {
        broadcast use lemma_concat_assoc;

        let ghost start = out@;
        let ghost s = self.entries.entries@;
        put_element_id(out, &self.id);
        put_u32(out, len_u32(self.entries.entries.len()));
        let mut i: usize = 0;
        proof {
            assert(s.skip(0) =~= s);
        }
        while i < self.entries.entries.len()
            invariant
                s == self.entries.entries@,
                i <= s.len(),
                out@ + enc_tallies(s.skip(i as int)) == start + enc_counter(self.id, s),
            decreases s.len() - i,
        {
            proof {
                assert(s.skip(i as int).skip(1) =~= s.skip(i + 1));
                assert(s.skip(i as int)[0] == s[i as int]);
            }
            let e = &self.entries.entries[i];
            put_client(out, &e.0);
            put_u32(out, e.1.inc);
            put_u32(out, e.1.dec);
            i += 1;
        }
        proof {
            assert(s.skip(i as int) =~= Seq::empty());
            assert(out@ + enc_tallies(Seq::empty()) =~= out@);
        }
    }

    /// Read a counter from `cur`, advancing it. A client listed twice would silently
    /// drop a tally, so it is refused.
    pub(crate) fn decode_state_from(cur: &mut Cursor) -> (r: Result<Counter, DecodeError>)
        ensures
            reads_view(r, parse_counter(old(cur).rest@), final(cur).rest@),
            r matches Ok(c) ==> c.wf(),
    {
        let id = cur.element_id()?;
        let count: u32 = cur.u32()?;
        let mut entries: Table<ClientId, Tally> = Table::new();
        let mut i: u32 = 0;
        let ghost start = cur.rest@;
        while i < count
            invariant
                entries.wf(),
                i <= count,
                parse_counter(old(cur).rest@) == match parse_tallies(
                    start,
                    count as nat,
                    Map::empty(),
                ) {
                    Err(e) => Err::<(CounterV, Seq<u8>), DecodeError>(e),
                    Ok((tallies, r)) => Ok((CounterV { id, tallies, displaced: false }, r)),
                },
                parse_tallies(start, count as nat, Map::empty()) == parse_tallies(
                    cur.rest@,
                    (count - i) as nat,
                    entries@,
                ),
            decreases count - i,
        {
            let client = cur.client()?;
            let inc: u32 = cur.u32()?;
            let dec: u32 = cur.u32()?;
            if entries.contains_key(&client) {
                return Err(DecodeError::BadTag { what: "counter: duplicate client", tag: 0 });
            }
            entries.insert(client, Tally { inc, dec });
            i += 1;
        }
        Ok(Counter { id, entries, displaced: false })
    }

    /// Serialize this counter's state to self-contained bytes.
    pub fn encode_state(&self) -> (out: Vec<u8>)
        requires
            self.wf(),
            fits_u32(self.entries.entries@.len()),
        ensures
            out@ == enc_counter(self.id, self.entries.entries@),
    {
        let mut out: Vec<u8> = Vec::new();
        self.encode_state_into(&mut out);
        proof {
            let e = enc_counter(self.id, self.entries.entries@);
            assert(Seq::<u8>::empty() + e =~= e);
        }
        out
    }

    /// Read a counter from a complete byte slice, rejecting trailing bytes.
    pub fn decode_state(bytes: &[u8]) -> (r: Result<Counter, DecodeError>)
        ensures
            match exactly(parse_counter(bytes@)) {
                Ok(c) => r matches Ok(got) && got@ == c && got.wf(),
                Err(e) => r matches Err(got) && got == e,
            },
    {
        let mut cur = Cursor::new(bytes);
        let counter = Counter::decode_state_from(&mut cur)?;
        if cur.at_end() {
            Ok(counter)
        } else {
            Err(DecodeError::TrailingBytes)
        }
    }

    fn tally(&self, client: ClientId) -> (t: Tally)
        requires
            self.wf(),
        ensures
            t == tally_of(self@.tallies, client),
    {
        match self.entries.get(&client) {
            Some(t) => *t,
            None => Tally { inc: 0, dec: 0 },
        }
    }

    /// Add `amount` to `client`'s increments, which count modulo 2^32.
    pub fn inc(&mut self, client: ClientId, amount: u32)
        requires
            old(self).wf(),
        ensures
            final(self).wf(),
            final(self)@ == (CounterV {
                tallies: tallies_inc(old(self)@.tallies, client, amount),
                ..old(self)@
            }),
    {
        let t = self.tally(client);
        self.entries.insert(client, Tally { inc: t.inc.wrapping_add(amount), dec: t.dec });
    }

    /// Add `amount` to `client`'s decrements, which count modulo 2^32.
    pub fn dec(&mut self, client: ClientId, amount: u32)
        requires
            old(self).wf(),
        ensures
            final(self).wf(),
            final(self)@ == (CounterV {
                tallies: tallies_dec(old(self)@.tallies, client, amount),
                ..old(self)@
            }),
    {
        let t = self.tally(client);
        self.entries.insert(client, Tally { inc: t.inc, dec: t.dec.wrapping_add(amount) });
    }

    /// The counter's value: every increment less every decrement.
    pub fn read(&self) -> (n: i64)
        requires
            i64::MIN <= self.total() <= i64::MAX,
        ensures
            n == self.total(),
    {
        self.sum() as i64
    }

    /// The counter's value, however large.
    pub(crate) fn sum(&self) -> (n: i128)
        ensures
            n == self.total(),
    {
        let mut n: i128 = 0;
        let mut i: usize = 0;
        let ghost s = self.entries.entries@;
        while i < self.entries.entries.len()
            invariant
                s == self.entries.entries@,
                i <= s.len(),
                n == tally_sum(s.take(i as int)),
                -0xffff_ffff * i <= n <= 0xffff_ffff * i,
            decreases s.len() - i,
        {
            proof {
                assert(s.take(i + 1).drop_last() =~= s.take(i as int));
            }
            let t = self.entries.entries[i].1;
            n = n + (t.inc as i128 - t.dec as i128);
            i += 1;
        }
        proof {
            assert(s.take(i as int) =~= s);
        }
        n
    }

    /// Join `other`'s tallies into this counter's.
    pub fn merge(&mut self, other: &Self)
        requires
            old(self).wf(),
            other.wf(),
        ensures
            final(self).wf(),
            final(self)@ == (CounterV {
                tallies: tallies_merge(old(self)@.tallies, other@.tallies),
                ..old(self)@
            }),
    {
        let mut i: usize = 0;
        let ghost s = other.entries.entries@;
        let ghost a = self@.tallies;
        proof {
            lemma_prefix_none(a, s);
        }
        while i < other.entries.entries.len()
            invariant
                s == other.entries.entries@,
                sorted(s),
                i <= s.len(),
                self.wf(),
                self.id == old(self).id,
                self.displaced == old(self).displaced,
                a == old(self)@.tallies,
                self@.tallies == tallies_merge(a, seq_map::<ClientId, Tally>(s.take(i as int))),
            decreases s.len() - i,
        {
            let (client, t) = other.entries.entries[i];
            let mine = self.tally(client);
            let merged = Tally {
                inc: if mine.inc >= t.inc {
                    mine.inc
                } else {
                    t.inc
                },
                dec: if mine.dec >= t.dec {
                    mine.dec
                } else {
                    t.dec
                },
            };
            self.entries.insert(client, merged);
            proof {
                lemma_prefix_step(a, s, i as int);
            }
            i += 1;
        }
        proof {
            assert(s.take(i as int) =~= s);
        }
    }

    /// Count what `other` counted, on top of what this counter did.
    pub(crate) fn count_on(&mut self, other: &Self)
        requires
            old(self).wf(),
            other.wf(),
        ensures
            final(self).wf(),
            final(self)@ == (CounterV {
                tallies: tallies_plus(old(self)@.tallies, other@.tallies),
                ..old(self)@
            }),
    {
        let mut i: usize = 0;
        let ghost s = other.entries.entries@;
        let ghost a = self@.tallies;
        proof {
            assert(a =~= tallies_plus(a, seq_map::<ClientId, Tally>(s.take(0))));
        }
        while i < other.entries.entries.len()
            invariant
                s == other.entries.entries@,
                sorted(s),
                i <= s.len(),
                self.wf(),
                self.id == old(self).id,
                self.displaced == old(self).displaced,
                a == old(self)@.tallies,
                self@.tallies == tallies_plus(a, seq_map::<ClientId, Tally>(s.take(i as int))),
            decreases s.len() - i,
        {
            let (client, t) = other.entries.entries[i];
            let mine = self.tally(client);
            let both = Tally {
                inc: mine.inc.wrapping_add(t.inc),
                dec: mine.dec.wrapping_add(t.dec),
            };
            self.entries.insert(client, both);
            proof {
                lemma_plus_step(a, s, i as int);
            }
            i += 1;
        }
        proof {
            assert(s.take(i as int) =~= s);
        }
    }

    /// A copy that is not displaced: displacement is a per-instance signal, not part
    /// of the value.
    pub fn deep_clone(&self) -> (c: Self)
        requires
            self.wf(),
        ensures
            c.wf(),
            c@ == (CounterV { displaced: false, ..self@ }),
            c.entries.entries@ == self.entries.entries@,
    {
        let c = Counter {
            id: self.id,
            entries: Table { entries: vstd::slice::slice_to_vec(self.entries.entries.as_slice()) },
            displaced: false,
        };
        c
    }

    pub fn displace(&mut self)
        ensures
            final(self)@ == (CounterV { displaced: true, ..old(self)@ }),
            final(self).entries == old(self).entries,
    {
        self.displaced = true;
    }

    pub fn reinstate(&mut self)
        ensures
            final(self)@ == (CounterV { displaced: false, ..old(self)@ }),
            final(self).entries == old(self).entries,
    {
        self.displaced = false;
    }

    pub fn is_displaced(&self) -> (b: bool)
        ensures
            b == self@.displaced,
    {
        self.displaced
    }
}

proof fn lemma_prefix_none(a: Map<ClientId, Tally>, s: Seq<(ClientId, Tally)>)
    ensures
        a == tallies_merge(a, seq_map::<ClientId, Tally>(s.take(0))),
{
    assert(a =~= tallies_merge(a, seq_map::<ClientId, Tally>(s.take(0))));
}

proof fn lemma_prefix_step(a: Map<ClientId, Tally>, s: Seq<(ClientId, Tally)>, i: int)
    requires
        sorted(s),
        0 <= i < s.len(),
    ensures
        ({
            let m = tallies_merge(a, seq_map::<ClientId, Tally>(s.take(i)));
            m.insert(s[i].0, tally_max(tally_of(m, s[i].0), s[i].1)) == tallies_merge(
                a,
                seq_map::<ClientId, Tally>(s.take(i + 1)),
            )
        }),
{
    lemma_take::<ClientId, Tally>(s, i);
    let mp = seq_map::<ClientId, Tally>(s.take(i));
    let mq = seq_map::<ClientId, Tally>(s.take(i + 1));
    let m = tallies_merge(a, mp);
    assert(m.insert(s[i].0, tally_max(tally_of(m, s[i].0), s[i].1)) =~= tallies_merge(a, mq));
}

proof fn lemma_plus_step(a: Map<ClientId, Tally>, s: Seq<(ClientId, Tally)>, i: int)
    requires
        sorted(s),
        0 <= i < s.len(),
    ensures
        ({
            let m = tallies_plus(a, seq_map::<ClientId, Tally>(s.take(i)));
            m.insert(s[i].0, tally_plus(tally_of(m, s[i].0), s[i].1)) == tallies_plus(
                a,
                seq_map::<ClientId, Tally>(s.take(i + 1)),
            )
        }),
{
    lemma_take::<ClientId, Tally>(s, i);
    let mp = seq_map::<ClientId, Tally>(s.take(i));
    let mq = seq_map::<ClientId, Tally>(s.take(i + 1));
    let m = tallies_plus(a, mp);
    assert(m.insert(s[i].0, tally_plus(tally_of(m, s[i].0), s[i].1)) =~= tallies_plus(a, mq));
}

proof fn lemma_tally_reads_back(client: ClientId, t: Tally, rest: Seq<u8>)
    ensures
        parse_tally(enc_tally(client, t) + rest) == Ok::<((ClientId, Tally), Seq<u8>), DecodeError>(
            ((client, t), rest),
        ),
{
    broadcast use {lemma_concat_assoc, rt_client, rt_u32};

}

proof fn lemma_tallies_read_back(s: Seq<(ClientId, Tally)>, i: int, rest: Seq<u8>)
    requires
        sorted(s),
        0 <= i <= s.len(),
    ensures
        parse_tallies(
            enc_tallies(s.skip(i)) + rest,
            (s.len() - i) as nat,
            seq_map::<ClientId, Tally>(s.take(i)),
        ) == Ok::<(Map<ClientId, Tally>, Seq<u8>), DecodeError>(
            (seq_map::<ClientId, Tally>(s), rest),
        ),
    decreases s.len() - i,
{
    let t = s.skip(i);
    if i == s.len() {
        assert(s.take(i) =~= s);
        assert(enc_tallies(t) + rest =~= rest);
    } else {
        lemma_take::<ClientId, Tally>(s, i);
        assert(t.skip(1) =~= s.skip(i + 1));
        assert(t[0] == s[i]);
        lemma_tallies_read_back(s, i + 1, rest);
        let tail = enc_tallies(t.skip(1)) + rest;
        lemma_tally_reads_back(s[i].0, s[i].1, tail);
        lemma_concat_assoc(enc_tally(s[i].0, s[i].1), enc_tallies(t.skip(1)), rest);
    }
}

// --- laws ---

/// A counter's bytes read back as the counter, in its place.
pub proof fn law_counter_state_round_trip(c: Counter, rest: Seq<u8>)
    requires
        c.wf(),
        fits_u32(c.entries.entries@.len()),
    ensures
        parse_counter(enc_counter(c.id, c.entries.entries@) + rest) == Ok::<
            (CounterV, Seq<u8>),
            DecodeError,
        >((CounterV { displaced: false, ..c@ }, rest)),
{
    broadcast use {lemma_concat_assoc, rt_element_id, rt_u32};

    let s = c.entries.entries@;
    lemma_tallies_read_back(s, 0, rest);
    assert(s.skip(0) =~= s);
    assert(seq_map::<ClientId, Tally>(s.take(0)) =~= Map::empty());
    assert(enc_counter(c.id, s) + rest == c.id.bytes() + (enc_u32(s.len() as u32) + (enc_tallies(s)
        + rest)));
}

/// Counters with equal tallies have equal encodings and equal values.
pub proof fn law_equal_counters_encode_identically(a: Counter, b: Counter)
    requires
        a.wf(),
        b.wf(),
        a.id == b.id,
        a@.tallies == b@.tallies,
    ensures
        enc_counter(a.id, a.entries.entries@) == enc_counter(b.id, b.entries.entries@),
        a.total() == b.total(),
{
    lemma_entries_unique::<ClientId, Tally>(a.entries.entries@, b.entries.entries@);
    assert(a.entries.entries@ =~= b.entries.entries@);
}

/// Merge is commutative: either order of joining two counters gives the same tallies.
pub proof fn law_counter_merge_commutes(a: Map<ClientId, Tally>, b: Map<ClientId, Tally>)
    ensures
        tallies_merge(a, b) == tallies_merge(b, a),
{
    assert(tallies_merge(a, b) =~= tallies_merge(b, a));
}

/// Merge is associative: the grouping of joins does not matter.
pub proof fn law_counter_merge_associates(
    a: Map<ClientId, Tally>,
    b: Map<ClientId, Tally>,
    c: Map<ClientId, Tally>,
)
    ensures
        tallies_merge(tallies_merge(a, b), c) == tallies_merge(a, tallies_merge(b, c)),
{
    assert(tallies_merge(tallies_merge(a, b), c) =~= tallies_merge(a, tallies_merge(b, c)));
}

/// Merge is idempotent: joining a counter with itself changes nothing.
pub proof fn law_counter_merge_is_idempotent(a: Map<ClientId, Tally>)
    ensures
        tallies_merge(a, a) == a,
{
    assert(tallies_merge(a, a) =~= a);
}

/// Merge only grows: no client's count falls in either direction.
pub proof fn law_counter_merge_only_grows(
    a: Map<ClientId, Tally>,
    b: Map<ClientId, Tally>,
    client: ClientId,
)
    ensures
        tally_of(tallies_merge(a, b), client).inc >= tally_of(a, client).inc,
        tally_of(tallies_merge(a, b), client).dec >= tally_of(a, client).dec,
{
}

/// Two counts by different clients commute.
pub proof fn law_counts_by_different_clients_commute(
    m: Map<ClientId, Tally>,
    a: ClientId,
    x: u32,
    b: ClientId,
    y: u32,
)
    requires
        a != b,
    ensures
        tallies_inc(tallies_inc(m, a, x), b, y) == tallies_inc(tallies_inc(m, b, y), a, x),
        tallies_inc(tallies_dec(m, a, x), b, y) == tallies_dec(tallies_inc(m, b, y), a, x),
        tallies_dec(tallies_dec(m, a, x), b, y) == tallies_dec(tallies_dec(m, b, y), a, x),
{
    assert(tallies_inc(tallies_inc(m, a, x), b, y) =~= tallies_inc(tallies_inc(m, b, y), a, x));
    assert(tallies_inc(tallies_dec(m, a, x), b, y) =~= tallies_dec(tallies_inc(m, b, y), a, x));
    assert(tallies_dec(tallies_dec(m, a, x), b, y) =~= tallies_dec(tallies_dec(m, b, y), a, x));
}

/// The sum over some clients of increments less decrements.
pub open spec fn count_over(m: Map<ClientId, Tally>, q: Seq<ClientId>) -> int
    decreases q.len(),
{
    if q.len() == 0 {
        0
    } else {
        count_over(m, q.drop_last()) + m[q.last()].inc - m[q.last()].dec
    }
}

/// What a counter with these tallies reads as: every increment less every decrement.
pub open spec fn count_of(m: Map<ClientId, Tally>) -> int {
    count_over(m, ordered::<ClientId>(m.dom()))
}

impl Counter {
    /// What the counter reads as follows from its tallies alone.
    pub proof fn lemma_total(&self)
        requires
            self.wf(),
        ensures
            self.total() == count_of(self@.tallies),
            self@.tallies.dom().len() == self.entries.entries@.len(),
    {
        let s = self.entries.entries@;
        lemma_ordered::<ClientId, Tally>(s);
        lemma_size::<ClientId, Tally>(s);
        self.lemma_total_upto(s.len() as int);
        assert(s.take(s.len() as int) =~= s);
        assert(seq_keys(s).take(s.len() as int) =~= seq_keys(s));
    }

    proof fn lemma_total_upto(&self, i: int)
        requires
            self.wf(),
            0 <= i <= self.entries.entries@.len(),
        ensures
            tally_sum(self.entries.entries@.take(i)) == count_over(
                self@.tallies,
                seq_keys(self.entries.entries@).take(i),
            ),
        decreases i,
    {
        let s = self.entries.entries@;
        let q = seq_keys(s);
        if i > 0 {
            self.lemma_total_upto(i - 1);
            assert(s.take(i).drop_last() =~= s.take(i - 1));
            assert(q.take(i).drop_last() =~= q.take(i - 1));
            lemma_entry::<ClientId, Tally>(s, i - 1);
        }
    }
}

/// A merge counts nothing twice: what it has of a client, in each direction, is what one of
/// the two has.
pub proof fn law_counter_merge_counts_once(
    a: Map<ClientId, Tally>,
    b: Map<ClientId, Tally>,
    client: ClientId,
)
    ensures
        ({
            let t = tally_of(tallies_merge(a, b), client);
            let x = tally_of(a, client);
            let y = tally_of(b, client);
            &&& t.inc == x.inc || t.inc == y.inc
            &&& t.dec == x.dec || t.dec == y.dec
        }),
{
}

} // verus!
