//! Paths: the sequence of keys from the root to a slot, each key framed by its length.

use crate::bytes::{byte_strings, is_prefix};
use crate::codec::{put_bytes, Cursor};
use crate::format::{enc_bytes, fits_u32, lemma_concat_assoc, parse_bytes};
use crate::roundtrip::{can_bytes, rt_bytes};
use crate::wire::lemma_le_bytes_len;
use vstd::prelude::*;

verus! {

/// The bytes of a path: its keys, each length-prefixed, end to end.
pub open spec fn enc_path(keys: Seq<Seq<u8>>) -> Seq<u8>
    decreases keys.len(),
{
    if keys.len() == 0 {
        Seq::empty()
    } else {
        enc_bytes(keys[0]) + enc_path(keys.skip(1))
    }
}

/// Whether every key fits its length prefix.
pub open spec fn keys_fit(keys: Seq<Seq<u8>>) -> bool {
    forall|i: int| 0 <= i < keys.len() ==> fits_u32((#[trigger] keys[i]).len())
}

/// A byte string read as a path: the keys, or nothing if it is no path.
pub open spec fn read_path(s: Seq<u8>) -> Option<Seq<Seq<u8>>>
    decreases s.len(),
{
    if s.len() == 0 {
        Some(Seq::empty())
    } else {
        match parse_bytes(s) {
            Err(_) => None,
            Ok((key, rest)) => if rest.len() < s.len() {
                match read_path(rest) {
                    None => None,
                    Some(keys) => Some(seq![key] + keys),
                }
            } else {
                None
            },
        }
    }
}

/// Encode a path from its keys.
pub fn encode_path(keys: &[Vec<u8>]) -> (out: Vec<u8>)
    requires
        keys_fit(byte_strings(keys@)),
    ensures
        out@ == enc_path(byte_strings(keys@)),
{
    broadcast use lemma_concat_assoc;

    let ghost all = byte_strings(keys@);
    let mut out: Vec<u8> = Vec::new();
    let mut i: usize = 0;
    proof {
        assert(all.skip(0) =~= all);
        assert(Seq::<u8>::empty() + enc_path(all) =~= enc_path(all));
    }
    while i < keys.len()
        invariant
            i <= keys@.len(),
            all == byte_strings(keys@),
            keys_fit(all),
            out@ + enc_path(all.skip(i as int)) == enc_path(all),
        decreases keys@.len() - i,
    {
        proof {
            assert(fits_u32(all[i as int].len()));
            assert(all.skip(i as int)[0] == all[i as int]);
            assert(all.skip(i as int).skip(1) =~= all.skip(i + 1));
        }
        put_bytes(&mut out, keys[i].as_slice());
        i += 1;
    }
    proof {
        assert(all.skip(i as int) =~= Seq::empty());
        assert(out@ + enc_path(Seq::empty()) =~= out@);
    }
    out
}

/// The keys a byte string spells, or `None` if it is no path.
pub fn parse_path(bytes: &[u8]) -> (r: Option<Vec<Vec<u8>>>)
    ensures
        match read_path(bytes@) {
            Some(keys) => r is Some && byte_strings(r->Some_0@) == keys,
            None => r is None,
        },
{
    let mut cur = Cursor::new(bytes);
    let mut keys: Vec<Vec<u8>> = Vec::new();
    proof {
        assert(byte_strings(keys@) =~= Seq::empty());
        if let Some(rest) = read_path(bytes@) {
            assert(Seq::<Seq<u8>>::empty() + rest =~= rest);
        }
    }
    while !cur.at_end()
        invariant
            match read_path(cur.rest@) {
                Some(rest) => read_path(bytes@) == Some(byte_strings(keys@) + rest),
                None => read_path(bytes@) is None,
            },
        decreases cur.rest@.len(),
    {
        let ghost before = cur.rest@;
        let ghost done = byte_strings(keys@);
        proof {
            lemma_bytes_shrink(before);
        }
        match cur.bytes() {
            Err(_) => return None,
            Ok(key) => {
                let ghost k = key@;
                keys.push(key);
                proof {
                    assert(byte_strings(keys@) =~= done.push(k));
                    if let Some(rest) = read_path(cur.rest@) {
                        assert(done + (seq![k] + rest) =~= byte_strings(keys@) + rest);
                    }
                }
            },
        }
    }
    proof {
        assert(byte_strings(keys@) + Seq::<Seq<u8>>::empty() =~= byte_strings(keys@));
    }
    Some(keys)
}

proof fn lemma_bytes_shrink(s: Seq<u8>)
    ensures
        parse_bytes(s) matches Ok((_, rest)) ==> rest.len() < s.len(),
{
    can_bytes(s);
    if let Ok((key, rest)) = parse_bytes(s) {
        reveal(enc_bytes);
        lemma_le_bytes_len(key.len() as u32 as nat, 4);
    }
}

/// A path's bytes read back as its keys.
pub proof fn law_path_round_trip(keys: Seq<Seq<u8>>)
    requires
        keys_fit(keys),
    ensures
        read_path(enc_path(keys)) == Some(keys),
    decreases keys.len(),
{
    if keys.len() == 0 {
        assert(keys =~= Seq::empty());
    } else {
        let tail = keys.skip(1);
        assert forall|i: int| 0 <= i < tail.len() implies fits_u32((#[trigger] tail[i]).len()) by {
            assert(tail[i] == keys[i + 1]);
        }
        law_path_round_trip(tail);
        rt_bytes(keys[0], enc_path(tail));
        lemma_bytes_shrink(enc_path(keys));
        reveal(enc_bytes);
        lemma_le_bytes_len(keys[0].len() as u32 as nat, 4);
        assert(seq![keys[0]] + tail =~= keys);
    }
}

/// What reads as a path is the bytes of the keys it reads as.
pub proof fn law_path_is_canonical(s: Seq<u8>)
    ensures
        read_path(s) matches Some(keys) ==> enc_path(keys) == s && keys_fit(keys),
    decreases s.len(),
{
    if s.len() == 0 {
        assert(enc_path(Seq::empty()) =~= s);
    } else {
        can_bytes(s);
        if let Ok((key, rest)) = parse_bytes(s) {
            if rest.len() < s.len() {
                law_path_is_canonical(rest);
                if let Some(keys) = read_path(rest) {
                    let all = seq![key] + keys;
                    assert(all.skip(1) =~= keys);
                    assert forall|i: int| 0 <= i < all.len() implies fits_u32(
                        (#[trigger] all[i]).len(),
                    ) by {
                        if i > 0 {
                            assert(all[i] == keys[i - 1]);
                        }
                    }
                }
            }
        }
    }
}

/// Whether one key path is another or leads to it.
pub open spec fn leads_to(a: Seq<Seq<u8>>, b: Seq<Seq<u8>>) -> bool {
    a.len() <= b.len() && b.take(a.len() as int) == a
}

/// A byte prefix lands on a segment boundary: the bytes of one path start another's
/// exactly when the first is the second or an ancestor of it.
pub proof fn law_byte_prefix_is_ancestry(a: Seq<Seq<u8>>, b: Seq<Seq<u8>>)
    requires
        keys_fit(a),
        keys_fit(b),
    ensures
        is_prefix(enc_path(a), enc_path(b)) <==> leads_to(a, b),
    decreases a.len(),
{
    if a.len() == 0 {
        assert(enc_path(b).take(0) =~= Seq::<u8>::empty());
        assert(b.take(0) =~= Seq::empty());
        assert(a =~= Seq::empty());
    } else if b.len() == 0 {
        reveal(enc_bytes);
        lemma_le_bytes_len(a[0].len() as u32 as nat, 4);
        assert(enc_path(a).len() > 0);
    } else {
        let ta = a.skip(1);
        let tb = b.skip(1);
        assert forall|i: int| 0 <= i < ta.len() implies fits_u32((#[trigger] ta[i]).len()) by {
            assert(ta[i] == a[i + 1]);
        }
        assert forall|i: int| 0 <= i < tb.len() implies fits_u32((#[trigger] tb[i]).len()) by {
            assert(tb[i] == b[i + 1]);
        }
        law_byte_prefix_is_ancestry(ta, tb);
        let ea = enc_bytes(a[0]);
        let sa = enc_path(a);
        let sb = enc_path(b);
        if is_prefix(sa, sb) {
            let r = sb.skip(sa.len() as int);
            assert(sb =~= sa + r);
            assert(sb =~= ea + (enc_path(ta) + r));
            rt_bytes(a[0], enc_path(ta) + r);
            rt_bytes(b[0], enc_path(tb));
            assert(a[0] == b[0]);
            assert(enc_path(ta) + r == enc_path(tb));
            assert(enc_path(tb).take(enc_path(ta).len() as int) =~= enc_path(ta));
            assert(leads_to(ta, tb));
            assert forall|i: int| 0 <= i < a.len() implies b[i] == a[i] by {
                if i > 0 {
                    assert(tb.take(ta.len() as int)[i - 1] == ta[i - 1]);
                }
            }
            assert(b.take(a.len() as int) =~= a);
        }
        if leads_to(a, b) {
            assert(b.take(a.len() as int)[0] == a[0]);
            assert forall|i: int| 0 <= i < ta.len() implies tb[i] == ta[i] by {
                assert(b.take(a.len() as int)[i + 1] == a[i + 1]);
            }
            assert(tb.take(ta.len() as int) =~= ta);
            assert(is_prefix(enc_path(ta), enc_path(tb)));
            assert(sb.take(sa.len() as int) =~= ea + enc_path(tb).take(enc_path(ta).len() as int));
        }
    }
}

} // verus!
