//! What reading JSON promises: a value spelled out is read back as itself.

use crate::json::{
    digits_end, digits_value, has_key, int_value, is_ws, read_chars, read_escape, read_hex,
    read_items, read_json, read_number, read_pairs, read_string, read_value, ws_end, JsonError,
    JsonV, MAX_DEPTH,
};
use vstd::prelude::*;

verus! {

// --- how a value is spelled ---

/// Whether bytes are spaces, tabs and line ends only.
pub open spec fn blank(w: Seq<u8>) -> bool {
    forall|i: int|
        0 <= i < w.len() ==> (#[trigger] w[i] == 0x20 || w[i] == 0x09 || w[i] == 0x0a || w[i]
            == 0x0d)
}

pub open spec fn hex_digit(n: int) -> u8 {
    if n < 10 {
        (0x30 + n) as u8
    } else {
        (0x61 + n - 10) as u8
    }
}

/// A code unit as an escape.
pub open spec fn unit_spelled(n: int) -> Seq<u8> {
    seq![
        0x5cu8,
        0x75u8,
        hex_digit(n / 4096),
        hex_digit(n / 256 % 16),
        hex_digit(n / 16 % 16),
        hex_digit(n % 16),
    ]
}

/// A character as the escape of its one code unit, or of its two.
pub open spec fn char_spelled(c: char) -> Seq<u8> {
    let n = c as u32 as int;
    if n < 0x10000 {
        unit_spelled(n)
    } else {
        unit_spelled(0xd800 + (n - 0x10000) / 0x400) + unit_spelled(0xdc00 + (n - 0x10000) % 0x400)
    }
}

pub open spec fn chars_spelled(t: Seq<char>) -> Seq<u8>
    decreases t.len(),
{
    if t.len() == 0 {
        Seq::empty()
    } else {
        char_spelled(t[0]) + chars_spelled(t.skip(1))
    }
}

pub open spec fn string_spelled(t: Seq<char>) -> Seq<u8> {
    seq![0x22u8] + (chars_spelled(t) + seq![0x22u8])
}

/// A number's decimal digits.
pub open spec fn decimal_spelled(n: nat) -> Seq<u8>
    decreases n,
{
    if n < 10 {
        seq![(0x30 + n) as u8]
    } else {
        decimal_spelled(n / 10).push((0x30 + n % 10) as u8)
    }
}

pub open spec fn int_spelled(n: int) -> Seq<u8> {
    if n < 0 {
        seq![0x2du8] + decimal_spelled((-n) as nat)
    } else {
        decimal_spelled(n as nat)
    }
}

/// A value with whitespace `w` wherever some may stand.
pub open spec fn spelled(j: JsonV, w: Seq<u8>) -> Seq<u8>
    decreases j, 0int,
{
    match j {
        JsonV::Null => seq![0x6eu8, 0x75u8, 0x6cu8, 0x6cu8],
        JsonV::Bool(b) => if b {
            seq![0x74u8, 0x72u8, 0x75u8, 0x65u8]
        } else {
            seq![0x66u8, 0x61u8, 0x6cu8, 0x73u8, 0x65u8]
        },
        JsonV::Int(n) => int_spelled(n as int),
        JsonV::Float(_) => Seq::empty(),
        JsonV::Str(t) => string_spelled(t),
        JsonV::Array(a) => if a.len() == 0 {
            seq![0x5bu8] + (w + seq![0x5du8])
        } else {
            seq![0x5bu8] + (w + items_spelled(a, 0, w))
        },
        JsonV::Object(o) => if o.len() == 0 {
            seq![0x7bu8] + (w + seq![0x7du8])
        } else {
            seq![0x7bu8] + (w + pairs_spelled(o, 0, w))
        },
    }
}

/// The items of an array from one on, and its end.
pub open spec fn items_spelled(a: Seq<JsonV>, i: nat, w: Seq<u8>) -> Seq<u8>
    decreases a, a.len() - i,
{
    if i >= a.len() {
        Seq::empty()
    } else if i + 1 == a.len() {
        spelled(a[i as int], w) + (w + seq![0x5du8])
    } else {
        spelled(a[i as int], w) + (w + (seq![0x2cu8] + (w + items_spelled(a, i + 1, w))))
    }
}

/// The pairs of an object from one on, and its end.
pub open spec fn pairs_spelled(o: Seq<(Seq<char>, JsonV)>, i: nat, w: Seq<u8>) -> Seq<u8>
    decreases o, o.len() - i,
{
    if i >= o.len() {
        Seq::empty()
    } else {
        string_spelled(o[i as int].0) + (w + (seq![0x3au8] + (w + (spelled(o[i as int].1, w) + (w
            + if i + 1 == o.len() {
            seq![0x7du8]
        } else {
            seq![0x2cu8] + (w + pairs_spelled(o, i + 1, w))
        })))))
    }
}

/// Whether a value has no number past the integers, each key of each object once, and room
/// to nest.
pub open spec fn plain(j: JsonV, depth: nat) -> bool
    decreases j,
{
    match j {
        JsonV::Float(_) => false,
        JsonV::Array(a) => depth < MAX_DEPTH && forall|i: int|
            0 <= i < a.len() ==> plain(#[trigger] a[i], depth + 1),
        JsonV::Object(o) => depth < MAX_DEPTH && (forall|i: int, k: int|
            0 <= i < k < o.len() ==> (#[trigger] o[i]).0 != (#[trigger] o[k]).0) && forall|i: int|
            0 <= i < o.len() ==> plain((#[trigger] o[i]).1, depth + 1),
        _ => true,
    }
}

// --- reading it back ---

/// Whether bytes stand at a place.
spec fn has(s: Seq<u8>, at: int, v: Seq<u8>) -> bool {
    0 <= at && at + v.len() <= s.len() && s.subrange(at, at + v.len()) == v
}

proof fn lemma_has(s: Seq<u8>, at: int, x: Seq<u8>, y: Seq<u8>)
    requires
        has(s, at, x + y),
    ensures
        has(s, at, x),
        has(s, at + x.len(), y),
{
    let v = s.subrange(at, at + (x + y).len());
    assert(s.subrange(at, at + x.len()) =~= x) by {
        assert forall|i: int| 0 <= i < x.len() implies s[at + i] == x[i] by {
            assert(v[i] == (x + y)[i]);
        }
    }
    let b = at + x.len();
    assert(s.subrange(b, b + y.len()) =~= y) by {
        assert forall|i: int| 0 <= i < y.len() implies s[b + i] == y[i] by {
            assert(v[x.len() + i] == (x + y)[x.len() + i]);
        }
    }
}

proof fn lemma_has_at(s: Seq<u8>, at: int, v: Seq<u8>)
    requires
        has(s, at, v),
    ensures
        forall|i: int| 0 <= i < v.len() ==> s[at + i] == #[trigger] v[i],
{
    assert forall|i: int| 0 <= i < v.len() implies s[at + i] == #[trigger] v[i] by {
        assert(s.subrange(at, at + v.len())[i] == v[i]);
    }
}

/// Whitespace is skipped up to what is none.
proof fn lemma_blank(s: Seq<u8>, at: int, w: Seq<u8>)
    requires
        has(s, at, w),
        blank(w),
        at + w.len() == s.len() || !is_ws(s[at + w.len()]),
    ensures
        ws_end(s, at) == at + w.len(),
    decreases w.len(),
{
    if w.len() > 0 {
        lemma_has_at(s, at, w);
        assert(s[at] == w[0]);
        let r = w.skip(1);
        assert(w =~= seq![w[0]] + r);
        lemma_has(s, at, seq![w[0]], r);
        assert forall|i: int| 0 <= i < r.len() implies (#[trigger] r[i] == 0x20 || r[i] == 0x09
            || r[i] == 0x0a || r[i] == 0x0d) by {
            assert(r[i] == w[i + 1]);
        }
        lemma_blank(s, at + 1, r);
    }
}

/// A code unit's digits are read back.
proof fn lemma_unit(s: Seq<u8>, at: int, n: int)
    requires
        has(s, at, unit_spelled(n)),
        0 <= n < 0x10000,
    ensures
        read_hex(s, at + 2, 4, 0) == Ok::<(int, int), JsonError>((n, at + 6)),
        s[at] == 0x5c,
        s[at + 1] == 0x75,
{
    reveal_with_fuel(read_hex, 6);
    let v = unit_spelled(n);
    lemma_has_at(s, at, v);
    assert(s[at + 0] == v[0] && s[at + 1] == v[1]);
    assert(s[at + 2] == v[2] && s[at + 3] == v[3] && s[at + 4] == v[4] && s[at + 5] == v[5]);
    assert(n == ((n / 4096 * 16 + n / 256 % 16) * 16 + n / 16 % 16) * 16 + n % 16);
    assert(0 <= n / 4096 < 16);
}

/// A character's escape is read back.
proof fn lemma_char(s: Seq<u8>, at: int, c: char)
    requires
        has(s, at, char_spelled(c)),
    ensures
        s[at] == 0x5c,
        read_escape(s, at + 1) == Ok::<(char, int), JsonError>((c, at + char_spelled(c).len())),
{
    let n = c as u32 as int;
    if n < 0x10000 {
        lemma_unit(s, at, n);
    } else {
        let hi = 0xd800 + (n - 0x10000) / 0x400;
        let lo = 0xdc00 + (n - 0x10000) % 0x400;
        lemma_has(s, at, unit_spelled(hi), unit_spelled(lo));
        lemma_unit(s, at, hi);
        lemma_unit(s, at + 6, lo);
        assert(0x10000 + (hi - 0xd800) * 0x400 + (lo - 0xdc00) == n);
    }
}

proof fn lemma_chars(s: Seq<u8>, at: int, t: Seq<char>, done: Seq<char>)
    requires
        has(s, at, chars_spelled(t) + seq![0x22u8]),
    ensures
        read_chars(s, at, done) == Ok::<(Seq<char>, int), JsonError>(
            (done + t, at + chars_spelled(t).len() + 1),
        ),
    decreases t.len(),
{
    lemma_has(s, at, chars_spelled(t), seq![0x22u8]);
    lemma_has_at(s, at + chars_spelled(t).len(), seq![0x22u8]);
    assert(s[at + chars_spelled(t).len() + 0] == seq![0x22u8][0]);
    if t.len() == 0 {
        assert(done + t =~= done);
    } else {
        let c = t[0];
        let r = t.skip(1);
        let x = char_spelled(c);
        assert(chars_spelled(t) + seq![0x22u8] =~= x + (chars_spelled(r) + seq![0x22u8]));
        lemma_has(s, at, x, chars_spelled(r) + seq![0x22u8]);
        lemma_char(s, at, c);
        lemma_chars(s, at + x.len(), r, done.push(c));
        assert(done.push(c) + r =~= done + t);
    }
}

proof fn lemma_string(s: Seq<u8>, at: int, t: Seq<char>)
    requires
        has(s, at, string_spelled(t)),
    ensures
        s[at] == 0x22,
        read_string(s, at) == Ok::<(Seq<char>, int), JsonError>(
            (t, at + string_spelled(t).len()),
        ),
{
    lemma_has(s, at, seq![0x22u8], chars_spelled(t) + seq![0x22u8]);
    lemma_has_at(s, at, seq![0x22u8]);
    assert(s[at + 0] == seq![0x22u8][0]);
    lemma_chars(s, at + 1, t, Seq::empty());
    assert(Seq::<char>::empty() + t =~= t);
}

proof fn lemma_decimal(n: nat)
    ensures
        digits_value(decimal_spelled(n)) == n,
        decimal_spelled(n).len() > 0,
        n > 0 ==> decimal_spelled(n)[0] != 0x30,
        n == 0 ==> decimal_spelled(n) == seq![0x30u8],
        forall|i: int|
            0 <= i < decimal_spelled(n).len() ==> 0x30 <= #[trigger] decimal_spelled(n)[i] <= 0x39,
    decreases n,
{
    reveal_with_fuel(digits_value, 2);
    let v = decimal_spelled(n);
    if n >= 10 {
        lemma_decimal(n / 10);
        assert(v.drop_last() =~= decimal_spelled(n / 10));
    } else {
        assert(v.drop_last() =~= Seq::empty());
    }
}

/// Digits are read up to what is none.
proof fn lemma_digits(s: Seq<u8>, at: int, v: Seq<u8>)
    requires
        has(s, at, v),
        forall|i: int| 0 <= i < v.len() ==> 0x30 <= #[trigger] v[i] <= 0x39,
        at + v.len() == s.len() || !(0x30 <= s[at + v.len()] <= 0x39),
    ensures
        digits_end(s, at) == at + v.len(),
    decreases v.len(),
{
    if v.len() > 0 {
        lemma_has_at(s, at, v);
        assert(s[at + 0] == v[0]);
        let r = v.skip(1);
        assert(v =~= seq![v[0]] + r);
        lemma_has(s, at, seq![v[0]], r);
        assert forall|i: int| 0 <= i < r.len() implies 0x30 <= #[trigger] r[i] <= 0x39 by {
            assert(r[i] == v[i + 1]);
        }
        lemma_digits(s, at + 1, r);
    }
}

/// Whether a value may end here: at the end, or before whitespace or punctuation.
spec fn ends(s: Seq<u8>, at: int) -> bool {
    at == s.len() || is_ws(s[at]) || s[at] == 0x2c || s[at] == 0x5d || s[at] == 0x7d
}

proof fn lemma_int(s: Seq<u8>, at: int, n: int)
    requires
        has(s, at, int_spelled(n)),
        i64::MIN <= n <= i64::MAX,
        ends(s, at + int_spelled(n).len()),
    ensures
        s[at] == 0x2d || 0x30 <= s[at] <= 0x39,
        read_number(s, at) == Ok::<(JsonV, int), JsonError>(
            (JsonV::Int(n as i64), at + int_spelled(n).len()),
        ),
{
    let v = int_spelled(n);
    let m: nat = if n < 0 { (-n) as nat } else { n as nat };
    let digits = decimal_spelled(m);
    lemma_decimal(m);
    let from = if n < 0 { at + 1 } else { at };
    if n < 0 {
        lemma_has(s, at, seq![0x2du8], digits);
        lemma_has_at(s, at, seq![0x2du8]);
        assert(s[at + 0] == seq![0x2du8][0]);
        assert(v.skip(1) =~= digits);
    }
    lemma_has_at(s, from, digits);
    assert(s[from + 0] == digits[0]);
    lemma_digits(s, from, digits);
    let end = from + digits.len();
    assert(s.subrange(at, end) =~= v) by {
        assert(s.subrange(at, at + v.len()) == v);
    }
    assert(int_value(v) == n);
}

// --- whole values ---

proof fn lemma_value(s: Seq<u8>, at: int, j: JsonV, w: Seq<u8>, depth: nat)
    requires
        has(s, at, spelled(j, w)),
        blank(w),
        plain(j, depth),
        depth <= MAX_DEPTH,
        ends(s, at + spelled(j, w).len()),
    ensures
        read_value(s, at, depth) == Ok::<(JsonV, int), JsonError>((j, at + spelled(j, w).len())),
        spelled(j, w).len() > 0,
        !is_ws(s[at]),
        s[at] != 0x5d,
        s[at] != 0x7d,
    decreases j, 0int,
{
    let v = spelled(j, w);
    lemma_has_at(s, at, v);
    match j {
        JsonV::Null => {
            assert(s[at + 0] == v[0]);
        },
        JsonV::Bool(b) => {
            assert(s[at + 0] == v[0]);
        },
        JsonV::Int(n) => {
            lemma_decimal(if n < 0 { (-n) as nat } else { n as nat });
            lemma_int(s, at, n as int);
        },
        JsonV::Float(_) => {},
        JsonV::Str(t) => {
            lemma_string(s, at, t);
        },
        JsonV::Array(a) => {
            assert(s[at + 0] == v[0]);
            if a.len() == 0 {
                lemma_has(s, at, seq![0x5bu8], w + seq![0x5du8]);
                lemma_has(s, at + 1, w, seq![0x5du8]);
                lemma_has_at(s, at + 1 + w.len(), seq![0x5du8]);
                assert(s[at + 1 + w.len() + 0] == seq![0x5du8][0]);
                lemma_blank(s, at + 1, w);
                assert(a =~= Seq::empty());
            } else {
                let r = items_spelled(a, 0, w);
                lemma_has(s, at, seq![0x5bu8], w + r);
                lemma_has(s, at + 1, w, r);
                assert(a.take(0) =~= Seq::empty());
                lemma_items(s, at + 1 + w.len(), at + 1 + w.len(), a, 0, w, depth);
                lemma_blank(s, at + 1, w);
            }
        },
        JsonV::Object(o) => {
            assert(s[at + 0] == v[0]);
            if o.len() == 0 {
                lemma_has(s, at, seq![0x7bu8], w + seq![0x7du8]);
                lemma_has(s, at + 1, w, seq![0x7du8]);
                lemma_has_at(s, at + 1 + w.len(), seq![0x7du8]);
                assert(s[at + 1 + w.len() + 0] == seq![0x7du8][0]);
                lemma_blank(s, at + 1, w);
                assert(o =~= Seq::empty());
            } else {
                let r = pairs_spelled(o, 0, w);
                lemma_has(s, at, seq![0x7bu8], w + r);
                lemma_has(s, at + 1, w, r);
                assert(o.take(0) =~= Seq::empty());
                lemma_pairs(s, at + 1 + w.len(), at + 1 + w.len(), o, 0, w, depth);
                lemma_blank(s, at + 1, w);
            }
        },
    }
}

/// What stands before a value's end: whitespace, then one byte of punctuation.
proof fn lemma_gap(s: Seq<u8>, at: int, w: Seq<u8>, b: u8)
    requires
        has(s, at, w + seq![b]),
        blank(w),
        b == 0x2c || b == 0x5d || b == 0x7d || b == 0x3a,
    ensures
        ws_end(s, at) == at + w.len(),
        s[at + w.len()] == b,
        b != 0x3a ==> ends(s, at),
{
    lemma_has(s, at, w, seq![b]);
    lemma_has_at(s, at + w.len(), seq![b]);
    assert(s[at + w.len() + 0] == seq![b][0]);
    lemma_blank(s, at, w);
    if w.len() > 0 {
        lemma_has_at(s, at, w);
        assert(s[at + 0] == w[0]);
    }
}

proof fn lemma_items(
    s: Seq<u8>,
    from: int,
    at: int,
    a: Seq<JsonV>,
    i: nat,
    w: Seq<u8>,
    depth: nat,
)
    requires
        has(s, at, items_spelled(a, i, w)),
        blank(w),
        depth < MAX_DEPTH,
        i < a.len(),
        forall|k: int| 0 <= k < a.len() ==> plain(#[trigger] a[k], depth + 1),
        from <= at,
        !(0 <= at < s.len() && is_ws(s[at])) ==> ws_end(s, from) == at,
    ensures
        read_items(s, from, depth, a.take(i as int)) == Ok::<(JsonV, int), JsonError>(
            (JsonV::Array(a), at + items_spelled(a, i, w).len()),
        ),
        items_spelled(a, i, w).len() > 0,
        !is_ws(s[at]),
        s[at] != 0x5d,
    decreases a, a.len() - i,
{
    let x = a[i as int];
    let v = spelled(x, w);
    let done = a.take(i as int);
    assert(done.push(x) =~= a.take(i as int + 1));
    if i + 1 == a.len() {
        lemma_has(s, at, v, w + seq![0x5du8]);
        lemma_gap(s, at + v.len(), w, 0x5d);
        lemma_value(s, at, x, w, depth + 1);
        assert(a.take(i as int + 1) =~= a);
    } else {
        let r = items_spelled(a, i + 1, w);
        lemma_has(s, at, v, w + (seq![0x2cu8] + (w + r)));
        let b = at + v.len();
        assert(w + (seq![0x2cu8] + (w + r)) =~= (w + seq![0x2cu8]) + (w + r));
        lemma_has(s, b, w + seq![0x2cu8], w + r);
        lemma_gap(s, b, w, 0x2c);
        lemma_value(s, at, x, w, depth + 1);
        let c = b + w.len() + 1;
        lemma_has(s, c, w, r);
        let next = c + w.len();
        if !(0 <= next < s.len() && is_ws(s[next])) {
            lemma_blank(s, c, w);
        }
        lemma_items(s, c, next, a, i + 1, w, depth);
    }
}

proof fn lemma_pairs(
    s: Seq<u8>,
    from: int,
    at: int,
    o: Seq<(Seq<char>, JsonV)>,
    i: nat,
    w: Seq<u8>,
    depth: nat,
)
    requires
        has(s, at, pairs_spelled(o, i, w)),
        blank(w),
        depth < MAX_DEPTH,
        i < o.len(),
        forall|k: int| 0 <= k < o.len() ==> plain((#[trigger] o[k]).1, depth + 1),
        forall|k: int, m: int|
            0 <= k < m < o.len() ==> (#[trigger] o[k]).0 != (#[trigger] o[m]).0,
        from <= at,
        !(0 <= at < s.len() && is_ws(s[at])) ==> ws_end(s, from) == at,
    ensures
        read_pairs(s, from, depth, o.take(i as int)) == Ok::<(JsonV, int), JsonError>(
            (JsonV::Object(o), at + pairs_spelled(o, i, w).len()),
        ),
        pairs_spelled(o, i, w).len() > 0,
        !is_ws(s[at]),
        s[at] != 0x7d,
    decreases o, o.len() - i,
{
    let (k, x) = o[i as int];
    let name = string_spelled(k);
    let v = spelled(x, w);
    let done = o.take(i as int);
    let last = i + 1 == o.len();
    let end = if last { seq![0x7du8] } else { seq![0x2cu8] + (w + pairs_spelled(o, i + 1, w)) };
    assert(done.push(o[i as int]) =~= o.take(i as int + 1));
    lemma_has(s, at, name, w + (seq![0x3au8] + (w + (v + (w + end)))));
    lemma_string(s, at, k);
    let b = at + name.len();
    assert(w + (seq![0x3au8] + (w + (v + (w + end)))) =~= (w + seq![0x3au8]) + (w + (v + (w + end))));
    lemma_has(s, b, w + seq![0x3au8], w + (v + (w + end)));
    lemma_gap(s, b, w, 0x3a);
    let c = b + w.len() + 1;
    lemma_has(s, c, w, v + (w + end));
    let d = c + w.len();
    lemma_has(s, d, v, w + end);
    let e = d + v.len();
    assert(!has_key(done, k)) by {
        assert forall|m: int| 0 <= m < done.len() implies (#[trigger] done[m]).0 != k by {
            assert(done[m] == o[m]);
            assert(o[i as int].0 == k);
        }
    }
    if last {
        lemma_gap(s, e, w, 0x7d);
        lemma_value(s, d, x, w, depth + 1);
        lemma_blank(s, c, w);
        assert(o.take(i as int + 1) =~= o);
    } else {
        let r = pairs_spelled(o, i + 1, w);
        assert(w + end =~= (w + seq![0x2cu8]) + (w + r));
        lemma_has(s, e, w + seq![0x2cu8], w + r);
        lemma_gap(s, e, w, 0x2c);
        lemma_value(s, d, x, w, depth + 1);
        lemma_blank(s, c, w);
        let f = e + w.len() + 1;
        lemma_has(s, f, w, r);
        let next = f + w.len();
        if !(0 <= next < s.len() && is_ws(s[next])) {
            lemma_blank(s, f, w);
        }
        lemma_pairs(s, f, next, o, i + 1, w, depth);
    }
}

/// A value is read back as it was spelled: nulls, booleans, integers, strings of any
/// characters, arrays and objects, in their order, with any whitespace wherever some may
/// stand.
pub proof fn law_a_spelled_value_is_read_back(j: JsonV, w: Seq<u8>)
    requires
        blank(w),
        plain(j, 0),
    ensures
        read_json(w + (spelled(j, w) + w)) == Ok::<JsonV, JsonError>(j),
{
    let v = spelled(j, w);
    let s = w + (v + w);
    assert(s.subrange(0, s.len() as int) =~= s);
    assert(has(s, 0, s));
    lemma_has(s, 0, w, v + w);
    lemma_has(s, w.len() as int, v, w);
    let end = w.len() + v.len();
    if w.len() > 0 {
        lemma_has_at(s, end as int, w);
        assert(s[end as int + 0] == w[0]);
    }
    lemma_value(s, w.len() as int, j, w, 0);
    lemma_blank(s, 0, w);
    lemma_blank(s, end as int, w);
}

} // verus!
