//! A minimal JSON value parser.
//!
//! [`Json::parse`] turns a string into a [`Json`] value or a [`JsonError`]; it never
//! panics, and it bounds nesting depth so a hostile document cannot overflow the stack.

use crate::bytes::text_from_utf8;
use crate::text_out::{decimal, push_decimal, str_eq};
use vstd::prelude::*;
use vstd::slice::slice_subrange;
use vstd::utf8::{decode_utf8, encode_utf8, is_scalar, valid_utf8};

verus! {

/// A parsed JSON value. Integers keep full `i64` range; any other number keeps its
/// source text. Objects keep declaration order.
#[derive(PartialEq, Debug)]
pub enum Json {
    Null,
    Bool(bool),
    Int(i64),
    /// A number with a fraction or an exponent, or an integer past `i64` range, as it
    /// was written.
    Float(String),
    Str(String),
    Array(Vec<Json>),
    Object(Vec<(String, Json)>),
}

/// A JSON value, by value.
pub enum JsonV {
    Null,
    Bool(bool),
    Int(i64),
    Float(Seq<char>),
    Str(Seq<char>),
    Array(Seq<JsonV>),
    Object(Seq<(Seq<char>, JsonV)>),
}

impl View for Json {
    type V = JsonV;

    open spec fn view(&self) -> JsonV {
        json_view(*self)
    }
}

/// A value and everything in it, by value.
pub open spec fn json_view(j: Json) -> JsonV
    decreases j,
{
    match j {
        Json::Null => JsonV::Null,
        Json::Bool(b) => JsonV::Bool(b),
        Json::Int(n) => JsonV::Int(n),
        Json::Float(t) => JsonV::Float(t@),
        Json::Str(t) => JsonV::Str(t@),
        Json::Array(a) => JsonV::Array(
            Seq::new(
                a@.len(),
                |i: int|
                    if 0 <= i < a@.len() {
                        json_view(a@[i])
                    } else {
                        JsonV::Null
                    },
            ),
        ),
        Json::Object(o) => JsonV::Object(
            Seq::new(
                o@.len(),
                |i: int|
                    if 0 <= i < o@.len() {
                        (o@[i].0@, json_view(o@[i].1))
                    } else {
                        (Seq::empty(), JsonV::Null)
                    },
            ),
        ),
    }
}

/// The items of an array, by value.
pub open spec fn items_view(a: Seq<Json>) -> Seq<JsonV> {
    a.map_values(|j: Json| j@)
}

/// The pairs of an object, by value.
pub open spec fn pairs_view(o: Seq<(String, Json)>) -> Seq<(Seq<char>, JsonV)> {
    o.map_values(|p: (String, Json)| (p.0@, p.1@))
}

proof fn lemma_array_view(a: Vec<Json>)
    ensures
        json_view(Json::Array(a)) == JsonV::Array(items_view(a@)),
{
    assert(json_view(Json::Array(a))->Array_0 =~= items_view(a@));
}

proof fn lemma_object_view(o: Vec<(String, Json)>)
    ensures
        json_view(Json::Object(o)) == JsonV::Object(pairs_view(o@)),
{
    assert(json_view(Json::Object(o))->Object_0 =~= pairs_view(o@));
}

/// Why a JSON string failed to parse.
#[derive(Clone, Copy, PartialEq, Eq, Debug, Structural)]
pub enum JsonErrorKind {
    /// The input ended while a value was still expected.
    UnexpectedEof,
    /// A byte appeared where the grammar did not allow it.
    Unexpected,
    /// A string escape was malformed.
    BadEscape,
    /// A number was not a valid JSON number.
    BadNumber,
    /// A `\u` escape named no valid Unicode scalar.
    BadUnicode,
    /// An object repeated a key.
    DuplicateKey,
    /// Non-whitespace bytes remained after the top-level value.
    TrailingBytes,
    /// Nesting ran deeper than the parser admits.
    DepthLimit,
}

/// A parse failure, pinned to the byte offset it occurred at.
#[derive(Clone, Copy, PartialEq, Eq, Debug, Structural)]
pub struct JsonError {
    pub at: usize,
    pub kind: JsonErrorKind,
}

/// The most deeply an array or object may nest.
pub const MAX_DEPTH: usize = 128;

// --- what a byte string reads as ---

/// A reading: the value and where it ends, or why there is none.
pub type Read<T> = Result<(T, int), JsonError>;

pub open spec fn fail<T>(at: int, kind: JsonErrorKind) -> Read<T> {
    Err(JsonError { at: at as usize, kind })
}

pub open spec fn is_ws(b: u8) -> bool {
    b == 0x20 || b == 0x09 || b == 0x0a || b == 0x0d
}

pub open spec fn is_digit(b: u8) -> bool {
    0x30 <= b <= 0x39
}

/// The end of the whitespace at `at`.
pub open spec fn ws_end(s: Seq<u8>, at: int) -> int
    decreases s.len() - at,
{
    if 0 <= at < s.len() && is_ws(s[at]) {
        ws_end(s, at + 1)
    } else {
        at
    }
}

/// The end of the digits at `at`.
pub open spec fn digits_end(s: Seq<u8>, at: int) -> int
    decreases s.len() - at,
{
    if 0 <= at < s.len() && is_digit(s[at]) {
        digits_end(s, at + 1)
    } else {
        at
    }
}

/// Whether `b` is the byte at `at`.
pub open spec fn next_is(s: Seq<u8>, at: int, b: u8) -> bool {
    at < s.len() && s[at] == b
}

/// `lit` read at `at` as `value`.
pub open spec fn read_literal(s: Seq<u8>, at: int, lit: Seq<u8>, value: JsonV) -> Read<JsonV> {
    if at + lit.len() <= s.len() && s.subrange(at, at + lit.len()) == lit {
        Ok((value, at + lit.len()))
    } else {
        fail(at, JsonErrorKind::Unexpected)
    }
}

/// The value of a hex digit.
pub open spec fn hex_value(b: u8) -> Option<u16> {
    if 0x30 <= b <= 0x39 {
        Some((b - 0x30) as u16)
    } else if 0x61 <= b <= 0x66 {
        Some((b - 0x61 + 10) as u16)
    } else if 0x41 <= b <= 0x46 {
        Some((b - 0x41 + 10) as u16)
    } else {
        None
    }
}

/// `n` hex digits at `at`, added to `value`.
pub open spec fn read_hex(s: Seq<u8>, at: int, n: nat, value: int) -> Read<int>
    decreases n,
{
    if n == 0 {
        Ok((value, at))
    } else if at >= s.len() {
        fail(at, JsonErrorKind::UnexpectedEof)
    } else {
        match hex_value(s[at]) {
            None => fail(at, JsonErrorKind::BadUnicode),
            Some(d) => read_hex(s, at + 1, (n - 1) as nat, value * 16 + d),
        }
    }
}

/// The scalar of a `\u` escape whose digits start at `at`: one code unit, or a high
/// surrogate and the low one that must follow it.
pub open spec fn read_unicode(s: Seq<u8>, at: int) -> Read<char> {
    match read_hex(s, at, 4, 0) {
        Err(e) => Err(e),
        Ok((first, at)) => if 0xd800 <= first <= 0xdbff {
            if !next_is(s, at, 0x5c) || !next_is(s, at + 1, 0x75) {
                fail(at, JsonErrorKind::BadUnicode)
            } else {
                match read_hex(s, at + 2, 4, 0) {
                    Err(e) => Err(e),
                    Ok((low, end)) => if 0xdc00 <= low <= 0xdfff {
                        Ok(
                            (
                                (0x10000 + (first - 0xd800) * 0x400 + (low - 0xdc00)) as u32 as char,
                                end,
                            ),
                        )
                    } else {
                        fail(at, JsonErrorKind::BadUnicode)
                    },
                }
            }
        } else if 0xdc00 <= first <= 0xdfff {
            fail(at, JsonErrorKind::BadUnicode)
        } else {
            Ok((first as u32 as char, at))
        },
    }
}

/// The character a one-letter escape stands for.
pub open spec fn simple_escape(b: u8) -> Option<char> {
    if b == 0x22 {
        Some('"')
    } else if b == 0x5c {
        Some('\\')
    } else if b == 0x2f {
        Some('/')
    } else if b == 0x62 {
        Some('\u{0008}')
    } else if b == 0x66 {
        Some('\u{000C}')
    } else if b == 0x6e {
        Some('\n')
    } else if b == 0x72 {
        Some('\r')
    } else if b == 0x74 {
        Some('\t')
    } else {
        None
    }
}

/// One escape, the backslash just before `at`.
pub open spec fn read_escape(s: Seq<u8>, at: int) -> Read<char> {
    if at >= s.len() {
        fail(at, JsonErrorKind::UnexpectedEof)
    } else {
        match simple_escape(s[at]) {
            Some(c) => Ok((c, at + 1)),
            None => if s[at] == 0x75 {
                read_unicode(s, at + 1)
            } else {
                fail(at, JsonErrorKind::BadEscape)
            },
        }
    }
}

/// The length in bytes of the UTF-8 scalar that starts with `b`.
pub open spec fn scalar_len(b: u8) -> int {
    if b <= 0x7f {
        1
    } else if 0xc0 <= b <= 0xdf {
        2
    } else if 0xe0 <= b <= 0xef {
        3
    } else {
        4
    }
}

/// The rest of a string literal from `at`, after the characters in `done`.
pub open spec fn read_chars(s: Seq<u8>, at: int, done: Seq<char>) -> Read<Seq<char>>
    decreases s.len() - at,
{
    if at >= s.len() {
        fail(at, JsonErrorKind::UnexpectedEof)
    } else if s[at] == 0x22 {
        Ok((done, at + 1))
    } else if s[at] == 0x5c {
        match read_escape(s, at + 1) {
            Err(e) => Err(e),
            Ok((c, end)) => if at < end <= s.len() {
                read_chars(s, end, done.push(c))
            } else {
                fail(at, JsonErrorKind::BadEscape)
            },
        }
    } else if s[at] <= 0x1f {
        fail(at, JsonErrorKind::Unexpected)
    } else {
        let end = at + scalar_len(s[at]);
        if end > s.len() {
            fail(end, JsonErrorKind::UnexpectedEof)
        } else if !valid_utf8(s.subrange(at, end)) {
            fail(at, JsonErrorKind::Unexpected)
        } else {
            read_chars(s, end, done + decode_utf8(s.subrange(at, end)))
        }
    }
}

/// A string literal whose opening quote is at `at`.
pub open spec fn read_string(s: Seq<u8>, at: int) -> Read<Seq<char>> {
    read_chars(s, at + 1, Seq::empty())
}

/// The number a run of decimal digits spells.
pub open spec fn digits_value(s: Seq<u8>) -> int
    decreases s.len(),
{
    if s.len() == 0 {
        0
    } else {
        digits_value(s.drop_last()) * 10 + (s.last() - 0x30)
    }
}

/// The number an optional minus and digits spell.
pub open spec fn int_value(s: Seq<u8>) -> int {
    if s.len() > 0 && s[0] == 0x2d {
        -digits_value(s.skip(1))
    } else {
        digits_value(s)
    }
}

/// Where one or more digits from `at` end.
pub open spec fn read_digits(s: Seq<u8>, at: int) -> Result<int, JsonError> {
    if digits_end(s, at) == at {
        Err(JsonError { at: at as usize, kind: JsonErrorKind::BadNumber })
    } else {
        Ok(digits_end(s, at))
    }
}

/// Where the integer part that starts at `at` (past any minus) ends.
pub open spec fn read_int_part(s: Seq<u8>, start: int, at: int) -> Result<int, JsonError> {
    let end = if next_is(s, at, 0x30) {
        at + 1
    } else {
        digits_end(s, at)
    };
    if end == at {
        Err(JsonError { at: at as usize, kind: JsonErrorKind::BadNumber })
    } else if end < s.len() && is_digit(s[end]) {
        Err(JsonError { at: start as usize, kind: JsonErrorKind::BadNumber })
    } else {
        Ok(end)
    }
}

/// Where a fraction at `at`, if there is one, ends.
pub open spec fn read_fraction(s: Seq<u8>, at: int) -> Result<int, JsonError> {
    if next_is(s, at, 0x2e) {
        read_digits(s, at + 1)
    } else {
        Ok(at)
    }
}

/// Where an exponent at `at`, if there is one, ends.
pub open spec fn read_exponent(s: Seq<u8>, at: int) -> Result<int, JsonError> {
    if next_is(s, at, 0x65) || next_is(s, at, 0x45) {
        if next_is(s, at + 1, 0x2b) || next_is(s, at + 1, 0x2d) {
            read_digits(s, at + 2)
        } else {
            read_digits(s, at + 1)
        }
    } else {
        Ok(at)
    }
}

/// A number at `at`: an integer in `i64` range, or the text of any other.
pub open spec fn read_number(s: Seq<u8>, start: int) -> Read<JsonV> {
    let at = if next_is(s, start, 0x2d) {
        start + 1
    } else {
        start
    };
    match read_int_part(s, start, at) {
        Err(e) => Err(e),
        Ok(whole) => match read_fraction(s, whole) {
            Err(e) => Err(e),
            Ok(frac) => match read_exponent(s, frac) {
                Err(e) => Err(e),
                Ok(end) => {
                    let text = s.subrange(start, end);
                    if end == whole && i64::MIN <= int_value(text) <= i64::MAX {
                        Ok((JsonV::Int(int_value(text) as i64), end))
                    } else {
                        Ok((JsonV::Float(decode_utf8(text)), end))
                    }
                },
            },
        },
    }
}

/// Whether an object already has `key`.
pub open spec fn has_key(pairs: Seq<(Seq<char>, JsonV)>, key: Seq<char>) -> bool {
    exists|i: int| 0 <= i < pairs.len() && (#[trigger] pairs[i]).0 == key
}

/// What is wrong where a particular byte was required at `at`.
pub open spec fn missing<T>(s: Seq<u8>, at: int) -> Read<T> {
    fail(
        at,
        if at >= s.len() {
            JsonErrorKind::UnexpectedEof
        } else {
            JsonErrorKind::Unexpected
        },
    )
}

/// A value at `at`, nested `depth` deep.
pub open spec fn read_value(s: Seq<u8>, at: int, depth: nat) -> Read<JsonV>
    decreases MAX_DEPTH - depth, 3int, 0int,
{
    if at >= s.len() {
        fail(at, JsonErrorKind::UnexpectedEof)
    } else if s[at] == 0x6e {
        read_literal(s, at, seq![0x6e, 0x75, 0x6c, 0x6c], JsonV::Null)
    } else if s[at] == 0x74 {
        read_literal(s, at, seq![0x74, 0x72, 0x75, 0x65], JsonV::Bool(true))
    } else if s[at] == 0x66 {
        read_literal(s, at, seq![0x66, 0x61, 0x6c, 0x73, 0x65], JsonV::Bool(false))
    } else if s[at] == 0x22 {
        match read_string(s, at) {
            Err(e) => Err(e),
            Ok((t, end)) => Ok((JsonV::Str(t), end)),
        }
    } else if s[at] == 0x5b {
        read_array(s, at, depth)
    } else if s[at] == 0x7b {
        read_object(s, at, depth)
    } else if s[at] == 0x2d || is_digit(s[at]) {
        read_number(s, at)
    } else {
        fail(at, JsonErrorKind::Unexpected)
    }
}

/// An array whose bracket is at `at`.
pub open spec fn read_array(s: Seq<u8>, at: int, depth: nat) -> Read<JsonV>
    decreases MAX_DEPTH - depth, 2int, 0int,
{
    if depth + 1 > MAX_DEPTH {
        fail(at, JsonErrorKind::DepthLimit)
    } else {
        let first = ws_end(s, at + 1);
        if next_is(s, first, 0x5d) {
            Ok((JsonV::Array(Seq::empty()), first + 1))
        } else {
            read_items(s, first, depth, Seq::empty())
        }
    }
}

/// The rest of an array, an item next, after the items in `done`.
pub open spec fn read_items(s: Seq<u8>, at: int, depth: nat, done: Seq<JsonV>) -> Read<JsonV>
    decreases MAX_DEPTH - depth, 1int, s.len() - at,
{
    if depth >= MAX_DEPTH {
        fail(at, JsonErrorKind::DepthLimit)
    } else {
        match read_value(s, ws_end(s, at), depth + 1) {
            Err(e) => Err(e),
            Ok((v, end)) => {
                let next = ws_end(s, end);
                if next >= s.len() {
                    fail(next, JsonErrorKind::UnexpectedEof)
                } else if s[next] == 0x2c && next + 1 > at {
                    read_items(s, next + 1, depth, done.push(v))
                } else if s[next] == 0x5d {
                    Ok((JsonV::Array(done.push(v)), next + 1))
                } else {
                    fail(next, JsonErrorKind::Unexpected)
                }
            },
        }
    }
}

/// An object whose brace is at `at`.
pub open spec fn read_object(s: Seq<u8>, at: int, depth: nat) -> Read<JsonV>
    decreases MAX_DEPTH - depth, 2int, 0int,
{
    if depth + 1 > MAX_DEPTH {
        fail(at, JsonErrorKind::DepthLimit)
    } else {
        let first = ws_end(s, at + 1);
        if next_is(s, first, 0x7d) {
            Ok((JsonV::Object(Seq::empty()), first + 1))
        } else {
            read_pairs(s, first, depth, Seq::empty())
        }
    }
}

/// The rest of an object, a key next, after the pairs in `done`.
pub open spec fn read_pairs(
    s: Seq<u8>,
    at: int,
    depth: nat,
    done: Seq<(Seq<char>, JsonV)>,
) -> Read<JsonV>
    decreases MAX_DEPTH - depth, 1int, s.len() - at,
{
    let key_at = ws_end(s, at);
    if depth >= MAX_DEPTH {
        fail(at, JsonErrorKind::DepthLimit)
    } else if !next_is(s, key_at, 0x22) {
        missing(s, key_at)
    } else {
        match read_string(s, key_at) {
            Err(e) => Err(e),
            Ok((key, key_end)) => {
                let colon = ws_end(s, key_end);
                if has_key(done, key) {
                    fail(key_at, JsonErrorKind::DuplicateKey)
                } else if !next_is(s, colon, 0x3a) {
                    missing(s, colon)
                } else {
                    match read_value(s, ws_end(s, colon + 1), depth + 1) {
                        Err(e) => Err(e),
                        Ok((v, end)) => {
                            let next = ws_end(s, end);
                            if next >= s.len() {
                                fail(next, JsonErrorKind::UnexpectedEof)
                            } else if s[next] == 0x2c && next + 1 > at {
                                read_pairs(s, next + 1, depth, done.push((key, v)))
                            } else if s[next] == 0x7d {
                                Ok((JsonV::Object(done.push((key, v))), next + 1))
                            } else {
                                fail(next, JsonErrorKind::Unexpected)
                            }
                        },
                    }
                }
            },
        }
    }
}

/// A whole byte string read as one value, whitespace around it allowed.
pub open spec fn read_json(s: Seq<u8>) -> Result<JsonV, JsonError> {
    match read_value(s, ws_end(s, 0), 0) {
        Err(e) => Err(e),
        Ok((v, end)) => if ws_end(s, end) == s.len() {
            Ok(v)
        } else {
            Err(JsonError { at: ws_end(s, end) as usize, kind: JsonErrorKind::TrailingBytes })
        },
    }
}

// --- where readings end ---

pub proof fn lemma_ws_end(s: Seq<u8>, at: int)
    requires
        0 <= at <= s.len(),
    ensures
        at <= ws_end(s, at) <= s.len(),
        ws_end(s, ws_end(s, at)) == ws_end(s, at),
    decreases s.len() - at,
{
    if at < s.len() && is_ws(s[at]) {
        lemma_ws_end(s, at + 1);
    }
}

pub proof fn lemma_digits_end(s: Seq<u8>, at: int)
    requires
        0 <= at <= s.len(),
    ensures
        at <= digits_end(s, at) <= s.len(),
        forall|i: int| at <= i < digits_end(s, at) ==> is_digit(#[trigger] s[i]),
    decreases s.len() - at,
{
    if at < s.len() && is_digit(s[at]) {
        lemma_digits_end(s, at + 1);
    }
}

pub proof fn lemma_hex_end(s: Seq<u8>, at: int, n: nat, value: int)
    requires
        0 <= at,
        0 <= value,
    ensures
        read_hex(s, at, n, value) matches Ok((v, end)) ==> end == at + n && (n > 0 ==> end
            <= s.len()) && v >= 0,
    decreases n,
{
    if n > 0 && at < s.len() {
        if let Some(d) = hex_value(s[at]) {
            lemma_hex_end(s, at + 1, (n - 1) as nat, value * 16 + d);
        }
    }
}

pub proof fn lemma_escape_end(s: Seq<u8>, at: int)
    requires
        0 <= at,
    ensures
        read_escape(s, at) matches Ok((c, end)) ==> at < end <= s.len(),
{
    lemma_hex_end(s, at + 1, 4, 0);
    lemma_hex_end(s, at + 7, 4, 0);
}

pub proof fn lemma_chars_end(s: Seq<u8>, at: int, done: Seq<char>)
    requires
        0 <= at,
    ensures
        read_chars(s, at, done) matches Ok((t, end)) ==> at < end <= s.len(),
    decreases s.len() - at,
{
    if at < s.len() {
        if s[at] == 0x5c {
            lemma_escape_end(s, at + 1);
            if let Ok((c, end)) = read_escape(s, at + 1) {
                lemma_chars_end(s, end, done.push(c));
            }
        } else if s[at] != 0x22 && s[at] > 0x1f {
            let end = at + scalar_len(s[at]);
            if end <= s.len() {
                lemma_chars_end(s, end, done + decode_utf8(s.subrange(at, end)));
            }
        }
    }
}

pub proof fn lemma_number_end(s: Seq<u8>, at: int)
    requires
        0 <= at < s.len(),
    ensures
        read_number(s, at) matches Ok((v, end)) ==> at < end <= s.len(),
{
    let a = if next_is(s, at, 0x2d) {
        at + 1
    } else {
        at
    };
    lemma_digits_end(s, a);
    if let Ok(whole) = read_int_part(s, at, a) {
        if whole + 1 <= s.len() {
            lemma_digits_end(s, whole + 1);
        }
        if let Ok(frac) = read_fraction(s, whole) {
            if frac + 1 <= s.len() {
                lemma_digits_end(s, frac + 1);
            }
            if frac + 2 <= s.len() {
                lemma_digits_end(s, frac + 2);
            }
        }
    }
}

/// A value that is read ends past where it starts, inside the input.
pub proof fn lemma_value_end(s: Seq<u8>, at: int, depth: nat)
    requires
        0 <= at <= s.len(),
    ensures
        read_value(s, at, depth) matches Ok((v, end)) ==> at < end <= s.len(),
    decreases MAX_DEPTH - depth, 3int, 0int,
{
    if at < s.len() {
        lemma_chars_end(s, at + 1, Seq::empty());
        lemma_number_end(s, at);
        if s[at] == 0x5b && depth + 1 <= MAX_DEPTH {
            lemma_ws_end(s, at + 1);
            lemma_items_end(s, ws_end(s, at + 1), depth, Seq::empty());
        }
        if s[at] == 0x7b && depth + 1 <= MAX_DEPTH {
            lemma_ws_end(s, at + 1);
            lemma_pairs_end(s, ws_end(s, at + 1), depth, Seq::empty());
        }
    }
}

pub proof fn lemma_items_end(s: Seq<u8>, at: int, depth: nat, done: Seq<JsonV>)
    requires
        0 <= at <= s.len(),
    ensures
        read_items(s, at, depth, done) matches Ok((v, end)) ==> at < end <= s.len(),
    decreases MAX_DEPTH - depth, 1int, s.len() - at,
{
    if depth < MAX_DEPTH {
        lemma_ws_end(s, at);
        lemma_value_end(s, ws_end(s, at), depth + 1);
        if let Ok((v, end)) = read_value(s, ws_end(s, at), depth + 1) {
            lemma_ws_end(s, end);
            let next = ws_end(s, end);
            if next < s.len() {
                lemma_items_end(s, next + 1, depth, done.push(v));
            }
        }
    }
}

pub proof fn lemma_pairs_end(s: Seq<u8>, at: int, depth: nat, done: Seq<(Seq<char>, JsonV)>)
    requires
        0 <= at <= s.len(),
    ensures
        read_pairs(s, at, depth, done) matches Ok((v, end)) ==> at < end <= s.len(),
    decreases MAX_DEPTH - depth, 1int, s.len() - at,
{
    let key_at = ws_end(s, at);
    lemma_ws_end(s, at);
    if depth < MAX_DEPTH && next_is(s, key_at, 0x22) {
        lemma_chars_end(s, key_at + 1, Seq::empty());
        if let Ok((key, key_end)) = read_string(s, key_at) {
            lemma_ws_end(s, key_end);
            let colon = ws_end(s, key_end);
            if next_is(s, colon, 0x3a) {
                lemma_ws_end(s, colon + 1);
                lemma_value_end(s, ws_end(s, colon + 1), depth + 1);
                if let Ok((v, end)) = read_value(s, ws_end(s, colon + 1), depth + 1) {
                    lemma_ws_end(s, end);
                    let next = ws_end(s, end);
                    if next < s.len() {
                        lemma_pairs_end(s, next + 1, depth, done.push((key, v)));
                    }
                }
            }
        }
    }
}

// --- the parser ---

/// `char::from_u32` gives the character for a code point that is a Unicode scalar, and
/// nothing for any other.
pub assume_specification[ char::from_u32 ](i: u32) -> (r: Option<char>)
    ensures
        r is Some <==> is_scalar(i),
        r matches Some(c) ==> c == i as char,
;

struct Parser<'a> {
    bytes: &'a [u8],
    at: usize,
}

/// What a parser returned is the reading of the bytes ahead of it, and it stands where
/// the reading ends.
spec fn agrees<T: View>(got: Result<T, JsonError>, want: Read<T::V>, at: usize) -> bool {
    match want {
        Ok((v, end)) => got is Ok && got->Ok_0@ == v && at == end,
        Err(e) => got == Err::<T, JsonError>(e),
    }
}

impl<'a> Parser<'a> {
    /// The position is inside the input, which leaves room to count past its end.
    spec fn wf(&self) -> bool {
        self.at <= self.bytes@.len() && self.bytes@.len() + 8 <= usize::MAX
    }

    fn err(&self, kind: JsonErrorKind) -> (e: JsonError)
        ensures
            e == (JsonError { at: self.at, kind }),
    {
        JsonError { at: self.at, kind }
    }

    fn peek(&self) -> (b: Option<u8>)
        ensures
            b == if self.at < self.bytes@.len() {
                Some(self.bytes@[self.at as int])
            } else {
                None::<u8>
            },
    {
        if self.at < self.bytes.len() {
            Some(self.bytes[self.at])
        } else {
            None
        }
    }

    /// Whether `b` is next.
    fn at_byte(&self, b: u8) -> (r: bool)
        ensures
            r == next_is(self.bytes@, self.at as int, b),
    {
        self.at < self.bytes.len() && self.bytes[self.at] == b
    }

    fn skip_ws(&mut self)
        requires
            old(self).wf(),
        ensures
            final(self).wf(),
            final(self).bytes == old(self).bytes,
            final(self).at == ws_end(old(self).bytes@, old(self).at as int),
    {
        let ghost s = self.bytes@;
        while self.at < self.bytes.len() && (self.bytes[self.at] == 0x20 || self.bytes[self.at]
            == 0x09 || self.bytes[self.at] == 0x0a || self.bytes[self.at] == 0x0d)
            invariant
                self.wf(),
                s == self.bytes@,
                self.bytes == old(self).bytes,
                ws_end(s, self.at as int) == ws_end(s, old(self).at as int),
            decreases self.bytes@.len() - self.at,
        {
            self.at += 1;
        }
    }

    /// Consume `lit` if it is next, else an `Unexpected` error.
    fn literal(&mut self, lit: &[u8], value: Json) -> (r: Result<Json, JsonError>)
        requires
            old(self).wf(),
            lit@.len() <= 8,
        ensures
            final(self).wf(),
            final(self).bytes == old(self).bytes,
            agrees(
                r,
                read_literal(old(self).bytes@, old(self).at as int, lit@, value@),
                final(self).at,
            ),
    {
        if lit.len() <= self.bytes.len() - self.at && crate::bytes::bytes_eq(
            slice_subrange(self.bytes, self.at, self.at + lit.len()),
            lit,
        ) {
            self.at += lit.len();
            Ok(value)
        } else {
            Err(self.err(JsonErrorKind::Unexpected))
        }
    }

    fn value(&mut self, depth: usize) -> (r: Result<Json, JsonError>)
        requires
            old(self).wf(),
            depth <= MAX_DEPTH,
        ensures
            final(self).bytes == old(self).bytes,
            agrees(
                r,
                read_value(old(self).bytes@, old(self).at as int, depth as nat),
                final(self).at,
            ),
            r is Ok ==> final(self).wf() && final(self).at > old(self).at,
        decreases MAX_DEPTH - depth, 1int,
    {
        proof {
            lemma_value_end(self.bytes@, self.at as int, depth as nat);
        }
        let b: u8 = match self.peek() {
            Some(b) => b,
            None => return Err(self.err(JsonErrorKind::UnexpectedEof)),
        };
        if b == 0x6e {
            let lit: [u8; 4] = [0x6e, 0x75, 0x6c, 0x6c];
            proof {
                assert(lit@ =~= seq![0x6e, 0x75, 0x6c, 0x6c]);
            }
            self.literal(&lit, Json::Null)
        } else if b == 0x74 {
            let lit: [u8; 4] = [0x74, 0x72, 0x75, 0x65];
            proof {
                assert(lit@ =~= seq![0x74, 0x72, 0x75, 0x65]);
            }
            self.literal(&lit, Json::Bool(true))
        } else if b == 0x66 {
            let lit: [u8; 5] = [0x66, 0x61, 0x6c, 0x73, 0x65];
            proof {
                assert(lit@ =~= seq![0x66, 0x61, 0x6c, 0x73, 0x65]);
            }
            self.literal(&lit, Json::Bool(false))
        } else if b == 0x22 {
            match self.string() {
                Ok(t) => Ok(Json::Str(t)),
                Err(e) => Err(e),
            }
        } else if b == 0x5b {
            self.array(depth)
        } else if b == 0x7b {
            self.object(depth)
        } else if b == 0x2d || (0x30 <= b && b <= 0x39) {
            self.number()
        } else {
            Err(self.err(JsonErrorKind::Unexpected))
        }
    }

    fn array(&mut self, depth: usize) -> (r: Result<Json, JsonError>)
        requires
            old(self).wf(),
            old(self).at < old(self).bytes@.len(),
            depth <= MAX_DEPTH,
        ensures
            final(self).bytes == old(self).bytes,
            agrees(
                r,
                read_array(old(self).bytes@, old(self).at as int, depth as nat),
                final(self).at,
            ),
            r is Ok ==> final(self).wf(),
        decreases MAX_DEPTH - depth, 0int,
    {
        let ghost s = self.bytes@;
        let ghost start = self.at as int;
        if depth + 1 > MAX_DEPTH {
            return Err(self.err(JsonErrorKind::DepthLimit));
        }
        self.at += 1;
        let mut items: Vec<Json> = Vec::new();
        self.skip_ws();
        if self.at_byte(0x5d) {
            self.at += 1;
            proof {
                lemma_array_view(items);
                assert(items_view(items@) =~= Seq::empty());
            }
            return Ok(Json::Array(items));
        }
        proof {
            assert(items_view(items@) =~= Seq::empty());
        }
        loop
            invariant
                s == self.bytes@,
                s == old(self).bytes@,
                self.bytes == old(self).bytes,
                start == old(self).at,
                self.wf(),
                depth < MAX_DEPTH,
                read_array(s, start, depth as nat) == read_items(
                    s,
                    self.at as int,
                    depth as nat,
                    items_view(items@),
                ),
            decreases s.len() - self.at,
        {
            let ghost at = self.at as int;
            let ghost done = items_view(items@);
            proof {
                lemma_ws_end(s, at);
            }
            self.skip_ws();
            let v = match self.value(depth + 1) {
                Ok(v) => v,
                Err(e) => return Err(e),
            };
            proof {
                lemma_ws_end(s, self.at as int);
            }
            items.push(v);
            proof {
                assert(items_view(items@) =~= done.push(v@));
            }
            self.skip_ws();
            match self.peek() {
                Some(b) => {
                    if b == 0x2c {
                        self.at += 1;
                    } else if b == 0x5d {
                        self.at += 1;
                        proof {
                            lemma_array_view(items);
                        }
                        return Ok(Json::Array(items));
                    } else {
                        return Err(self.err(JsonErrorKind::Unexpected));
                    }
                },
                None => return Err(self.err(JsonErrorKind::UnexpectedEof)),
            }
        }
    }

    /// Why the byte required next is not there.
    fn missing(&self) -> (e: JsonError)
        ensures
            missing::<JsonV>(self.bytes@, self.at as int) == Err::<(JsonV, int), JsonError>(e),
    {
        if self.at < self.bytes.len() {
            self.err(JsonErrorKind::Unexpected)
        } else {
            self.err(JsonErrorKind::UnexpectedEof)
        }
    }

    fn object(&mut self, depth: usize) -> (r: Result<Json, JsonError>)
        requires
            old(self).wf(),
            old(self).at < old(self).bytes@.len(),
            depth <= MAX_DEPTH,
        ensures
            final(self).bytes == old(self).bytes,
            agrees(
                r,
                read_object(old(self).bytes@, old(self).at as int, depth as nat),
                final(self).at,
            ),
            r is Ok ==> final(self).wf(),
        decreases MAX_DEPTH - depth, 0int,
    {
        let ghost s = self.bytes@;
        let ghost start = self.at as int;
        if depth + 1 > MAX_DEPTH {
            return Err(self.err(JsonErrorKind::DepthLimit));
        }
        self.at += 1;
        let mut pairs: Vec<(String, Json)> = Vec::new();
        self.skip_ws();
        if self.at_byte(0x7d) {
            self.at += 1;
            proof {
                lemma_object_view(pairs);
                assert(pairs_view(pairs@) =~= Seq::empty());
            }
            return Ok(Json::Object(pairs));
        }
        proof {
            assert(pairs_view(pairs@) =~= Seq::empty());
        }
        loop
            invariant
                s == self.bytes@,
                s == old(self).bytes@,
                self.bytes == old(self).bytes,
                start == old(self).at,
                self.wf(),
                depth < MAX_DEPTH,
                read_object(s, start, depth as nat) == read_pairs(
                    s,
                    self.at as int,
                    depth as nat,
                    pairs_view(pairs@),
                ),
            decreases s.len() - self.at,
        {
            let ghost at = self.at as int;
            let ghost done = pairs_view(pairs@);
            proof {
                lemma_ws_end(s, at);
            }
            self.skip_ws();
            if !self.at_byte(0x22) {
                return Err(self.missing());
            }
            let key_at: usize = self.at;
            let key = match self.string() {
                Ok(k) => k,
                Err(e) => return Err(e),
            };
            if repeats_key(&pairs, &key) {
                return Err(JsonError { at: key_at, kind: JsonErrorKind::DuplicateKey });
            }
            proof {
                lemma_ws_end(s, self.at as int);
            }
            self.skip_ws();
            if !self.at_byte(0x3a) {
                return Err(self.missing());
            }
            self.at += 1;
            proof {
                lemma_ws_end(s, self.at as int);
            }
            self.skip_ws();
            let value = match self.value(depth + 1) {
                Ok(v) => v,
                Err(e) => return Err(e),
            };
            proof {
                lemma_ws_end(s, self.at as int);
            }
            let ghost pair = (key@, value@);
            pairs.push((key, value));
            proof {
                assert(pairs_view(pairs@) =~= done.push(pair));
            }
            self.skip_ws();
            match self.peek() {
                Some(b) => {
                    if b == 0x2c {
                        self.at += 1;
                    } else if b == 0x7d {
                        self.at += 1;
                        proof {
                            lemma_object_view(pairs);
                        }
                        return Ok(Json::Object(pairs));
                    } else {
                        return Err(self.err(JsonErrorKind::Unexpected));
                    }
                },
                None => return Err(self.err(JsonErrorKind::UnexpectedEof)),
            }
        }
    }

    /// Parse a string literal, the opening quote next.
    fn string(&mut self) -> (r: Result<String, JsonError>)
        requires
            old(self).wf(),
            old(self).at < old(self).bytes@.len(),
        ensures
            final(self).bytes == old(self).bytes,
            agrees(r, read_string(old(self).bytes@, old(self).at as int), final(self).at),
            r is Ok ==> final(self).wf() && final(self).at > old(self).at,
    {
        let ghost s = self.bytes@;
        self.at += 1;
        let mut out: String = String::new();
        loop
            invariant
                s == self.bytes@,
                s == old(self).bytes@,
                self.bytes == old(self).bytes,
                self.wf(),
                self.at > old(self).at,
                read_string(s, old(self).at as int) == read_chars(s, self.at as int, out@),
            decreases s.len() - self.at,
        {
            let b: u8 = match self.peek() {
                Some(b) => b,
                None => return Err(self.err(JsonErrorKind::UnexpectedEof)),
            };
            if b == 0x22 {
                self.at += 1;
                return Ok(out);
            } else if b == 0x5c {
                self.at += 1;
                proof {
                    lemma_escape_end(s, self.at as int);
                }
                match self.escape() {
                    Ok(c) => out.push(c),
                    Err(e) => return Err(e),
                }
            } else if b <= 0x1f {
                return Err(self.err(JsonErrorKind::Unexpected));
            } else {
                let start: usize = self.at;
                let end: usize = start + utf8_len(b);
                if end > self.bytes.len() {
                    return Err(JsonError { at: end, kind: JsonErrorKind::UnexpectedEof });
                }
                match text_from_utf8(slice_subrange(self.bytes, start, end)) {
                    Some(t) => out.push_str(t.as_str()),
                    None => return Err(JsonError { at: start, kind: JsonErrorKind::Unexpected }),
                }
                self.at = end;
            }
        }
    }

    /// Handle one escape sequence, the backslash already consumed.
    fn escape(&mut self) -> (r: Result<char, JsonError>)
        requires
            old(self).wf(),
        ensures
            final(self).bytes == old(self).bytes,
            agrees(r, read_escape(old(self).bytes@, old(self).at as int), final(self).at),
            r is Ok ==> final(self).wf(),
    {
        proof {
            lemma_escape_end(self.bytes@, self.at as int);
        }
        let b: u8 = match self.peek() {
            Some(b) => b,
            None => return Err(self.err(JsonErrorKind::UnexpectedEof)),
        };
        let simple = match b {
            0x22 => Some('"'),
            0x5c => Some('\\'),
            0x2f => Some('/'),
            0x62 => Some('\u{0008}'),
            0x66 => Some('\u{000C}'),
            0x6e => Some('\n'),
            0x72 => Some('\r'),
            0x74 => Some('\t'),
            _ => None,
        };
        if let Some(c) = simple {
            self.at += 1;
            return Ok(c);
        }
        if b == 0x75 {
            self.at += 1;
            return self.unicode_escape();
        }
        Err(self.err(JsonErrorKind::BadEscape))
    }

    /// Parse the digits of a `\u` escape, combining a surrogate pair into one scalar.
    fn unicode_escape(&mut self) -> (r: Result<char, JsonError>)
        requires
            old(self).wf(),
        ensures
            final(self).bytes == old(self).bytes,
            agrees(r, read_unicode(old(self).bytes@, old(self).at as int), final(self).at),
            r is Ok ==> final(self).wf(),
    {
        let first: u16 = match self.hex4() {
            Ok(n) => n,
            Err(e) => return Err(e),
        };
        if 0xd800 <= first && first <= 0xdbff {
            let pair_at: usize = self.at;
            if !self.at_byte(0x5c) || !(pair_at + 1 < self.bytes.len() && self.bytes[pair_at + 1]
                == 0x75) {
                return Err(JsonError { at: pair_at, kind: JsonErrorKind::BadUnicode });
            }
            self.at += 2;
            let low: u16 = match self.hex4() {
                Ok(n) => n,
                Err(e) => return Err(e),
            };
            if !(0xdc00 <= low && low <= 0xdfff) {
                return Err(JsonError { at: pair_at, kind: JsonErrorKind::BadUnicode });
            }
            let combined: u32 = 0x10000 + (first - 0xd800) as u32 * 0x400 + (low - 0xdc00) as u32;
            return match char::from_u32(combined) {
                Some(c) => Ok(c),
                None => Err(JsonError { at: pair_at, kind: JsonErrorKind::BadUnicode }),
            };
        }
        match char::from_u32(first as u32) {
            Some(c) => Ok(c),
            None => Err(self.err(JsonErrorKind::BadUnicode)),
        }
    }

    /// Read exactly four hex digits, the digits positioned next.
    fn hex4(&mut self) -> (r: Result<u16, JsonError>)
        requires
            old(self).wf(),
        ensures
            final(self).bytes == old(self).bytes,
            match read_hex(old(self).bytes@, old(self).at as int, 4, 0) {
                Ok((v, end)) => r is Ok && r->Ok_0 == v && final(self).at == end
                    && final(self).wf(),
                Err(e) => r == Err::<u16, JsonError>(e),
            },
    {
        let ghost s = self.bytes@;
        let mut value: u16 = 0;
        let mut i: u8 = 0;
        while i < 4
            invariant
                s == self.bytes@,
                s == old(self).bytes@,
                self.bytes == old(self).bytes,
                self.wf(),
                i <= 4,
                i == 0 ==> value < 1,
                i == 1 ==> value < 0x10,
                i == 2 ==> value < 0x100,
                i == 3 ==> value < 0x1000,
                read_hex(s, old(self).at as int, 4, 0) == read_hex(
                    s,
                    self.at as int,
                    (4 - i) as nat,
                    value as int,
                ),
            decreases 4 - i,
        {
            let d: u8 = match self.peek() {
                Some(b) => b,
                None => return Err(self.err(JsonErrorKind::UnexpectedEof)),
            };
            let nibble: u8 = if 0x30 <= d && d <= 0x39 {
                d - 0x30
            } else if 0x61 <= d && d <= 0x66 {
                d - 0x61 + 10
            } else if 0x41 <= d && d <= 0x46 {
                d - 0x41 + 10
            } else {
                return Err(self.err(JsonErrorKind::BadUnicode));
            };
            value = value * 16 + nibble as u16;
            self.at += 1;
            i += 1;
        }
        Ok(value)
    }

    fn number(&mut self) -> (r: Result<Json, JsonError>)
        requires
            old(self).wf(),
            old(self).at < old(self).bytes@.len(),
        ensures
            final(self).bytes == old(self).bytes,
            agrees(r, read_number(old(self).bytes@, old(self).at as int), final(self).at),
            r is Ok ==> final(self).wf(),
    {
        let ghost s = self.bytes@;
        let start: usize = self.at;
        let mut is_float: bool = false;
        if self.at_byte(0x2d) {
            self.at += 1;
        }
        let from: usize = self.at;
        if self.at_byte(0x30) {
            self.at += 1;
        } else {
            match self.digits() {
                Ok(()) => {},
                Err(e) => return Err(e),
            }
        }
        if let Some(b) = self.peek() {
            if 0x30 <= b && b <= 0x39 {
                return Err(JsonError { at: start, kind: JsonErrorKind::BadNumber });
            }
        }
        let whole: usize = self.at;
        if self.at_byte(0x2e) {
            is_float = true;
            self.at += 1;
            match self.digits() {
                Ok(()) => {},
                Err(e) => return Err(e),
            }
        }
        let frac: usize = self.at;
        if self.at_byte(0x65) || self.at_byte(0x45) {
            is_float = true;
            self.at += 1;
            if self.at_byte(0x2b) || self.at_byte(0x2d) {
                self.at += 1;
            }
            match self.digits() {
                Ok(()) => {},
                Err(e) => return Err(e),
            }
        }
        let end: usize = self.at;
        proof {
            lemma_digits_end(s, from as int);
            lemma_number_text(s, start as int, from as int, whole as int, frac as int, end as int);
        }
        let text = slice_subrange(self.bytes, start, end);
        if !is_float {
            proof {
                assert(whole == end);
            }
            if let Some(n) = int_of(text) {
                return Ok(Json::Int(n));
            }
        }
        match text_from_utf8(text) {
            Some(t) => Ok(Json::Float(t)),
            None => Err(JsonError { at: start, kind: JsonErrorKind::BadNumber }),
        }
    }

    /// Consume one or more decimal digits, else a `BadNumber` error.
    fn digits(&mut self) -> (r: Result<(), JsonError>)
        requires
            old(self).wf(),
        ensures
            final(self).bytes == old(self).bytes,
            match read_digits(old(self).bytes@, old(self).at as int) {
                Ok(end) => r is Ok && final(self).at == end && final(self).wf() && final(self).at
                    > old(self).at,
                Err(e) => r == Err::<(), JsonError>(e),
            },
    {
        let ghost s = self.bytes@;
        let start: usize = self.at;
        while self.at < self.bytes.len() && 0x30 <= self.bytes[self.at] && self.bytes[self.at]
            <= 0x39
            invariant
                s == self.bytes@,
                self.bytes == old(self).bytes,
                self.wf(),
                start <= self.at,
                digits_end(s, start as int) == digits_end(s, self.at as int),
            decreases s.len() - self.at,
        {
            self.at += 1;
        }
        if self.at == start {
            Err(self.err(JsonErrorKind::BadNumber))
        } else {
            Ok(())
        }
    }
}

/// The text of a number is valid UTF-8, and where it has neither fraction nor exponent
/// it is an optional minus and digits.
proof fn lemma_number_text(s: Seq<u8>, start: int, from: int, whole: int, frac: int, end: int)
    requires
        0 <= start <= from < whole <= frac <= end <= s.len(),
        from == start || (from == start + 1 && s[start] == 0x2d),
        read_int_part(s, start, from) == Ok::<int, JsonError>(whole),
        read_fraction(s, whole) == Ok::<int, JsonError>(frac),
        read_exponent(s, frac) == Ok::<int, JsonError>(end),
    ensures
        valid_utf8(s.subrange(start, end)),
        forall|i: int| from <= i < whole ==> is_digit(#[trigger] s[i]),
{
    lemma_digits_end(s, from);
    if whole + 1 <= s.len() {
        lemma_digits_end(s, whole + 1);
    }
    if frac + 1 <= s.len() {
        lemma_digits_end(s, frac + 1);
    }
    if frac + 2 <= s.len() {
        lemma_digits_end(s, frac + 2);
    }
    let text = s.subrange(start, end);
    assert forall|i: int| 0 <= i < text.len() implies (#[trigger] text[i]) <= 0x7f by {
        let j = start + i;
        assert(text[i] == s[j]);
        if j >= from && j < whole {
            assert(is_digit(s[j]));
        } else if j > whole && j < frac {
            assert(is_digit(s[j]));
        } else if j > frac + 1 && j < end {
            assert(is_digit(s[j]));
        } else if j == frac + 1 && j < end {
            if !(s[j] == 0x2b || s[j] == 0x2d) {
                assert(is_digit(s[j]));
            }
        }
    }
    lemma_ascii_is_utf8(text);
}

/// A byte string below 0x80 throughout is valid UTF-8.
proof fn lemma_ascii_is_utf8(s: Seq<u8>)
    requires
        forall|i: int| 0 <= i < s.len() ==> (#[trigger] s[i]) <= 0x7f,
    ensures
        valid_utf8(s),
    decreases s.len(),
{
    if s.len() > 0 {
        let b = s[0];
        assert(b <= 0x7f);
        assert(vstd::utf8::is_leading_byte_width_1(b)) by {
            assert(b <= 0x7fu8 ==> (b & 0x80u8 == 0)) by (bit_vector);
        }
        assert(b <= 0x7fu8 ==> (b & 0x7fu8 == b)) by (bit_vector);
        let t = vstd::utf8::pop_first_scalar(s);
        assert(t =~= s.skip(1));
        assert forall|i: int| 0 <= i < t.len() implies (#[trigger] t[i]) <= 0x7f by {
            assert(t[i] == s[i + 1]);
        }
        lemma_ascii_is_utf8(t);
    }
}

/// Whether an object already has `key`.
fn repeats_key(pairs: &Vec<(String, Json)>, key: &String) -> (b: bool)
    ensures
        b == has_key(pairs_view(pairs@), key@),
{
    let ghost pv = pairs_view(pairs@);
    let mut i: usize = 0;
    while i < pairs.len()
        invariant
            i <= pairs@.len(),
            pv == pairs_view(pairs@),
            forall|j: int| 0 <= j < i ==> (#[trigger] pv[j]).0 != key@,
        decreases pairs@.len() - i,
    {
        if pairs[i].0 == *key {
            proof {
                assert(pv[i as int].0 == key@);
            }
            return true;
        }
        i += 1;
    }
    false
}

proof fn lemma_digits_value_bounds(s: Seq<u8>)
    requires
        forall|i: int| 0 <= i < s.len() ==> is_digit(#[trigger] s[i]),
    ensures
        digits_value(s) >= 0,
        s.len() > 0 ==> digits_value(s) >= digits_value(s.drop_last()) * 10,
    decreases s.len(),
{
    if s.len() > 0 {
        let t = s.drop_last();
        assert forall|i: int| 0 <= i < t.len() implies is_digit(#[trigger] t[i]) by {
            assert(t[i] == s[i]);
        }
        lemma_digits_value_bounds(t);
        assert(is_digit(s[s.len() - 1]));
    }
}

/// A prefix of digits spells no larger a number.
proof fn lemma_digits_value_monotone(s: Seq<u8>, i: int)
    requires
        forall|k: int| 0 <= k < s.len() ==> is_digit(#[trigger] s[k]),
        0 <= i <= s.len(),
    ensures
        0 <= digits_value(s.take(i)) <= digits_value(s),
    decreases s.len(),
{
    if i == s.len() {
        assert(s.take(i) =~= s);
        lemma_digits_value_bounds(s);
    } else {
        let t = s.drop_last();
        assert forall|k: int| 0 <= k < t.len() implies is_digit(#[trigger] t[k]) by {
            assert(t[k] == s[k]);
        }
        lemma_digits_value_monotone(t, i);
        assert(t.take(i) =~= s.take(i));
        lemma_digits_value_bounds(s);
    }
}

/// The integer an optional minus and digits spell, if it is in `i64` range.
fn int_of(text: &[u8]) -> (r: Option<i64>)
    requires
        text@.len() > 0,
        text@[0] == 0x2d || is_digit(text@[0]),
        forall|i: int| 1 <= i < text@.len() ==> is_digit(#[trigger] text@[i]),
    ensures
        r == if i64::MIN <= int_value(text@) <= i64::MAX {
            Some(int_value(text@) as i64)
        } else {
            None::<i64>
        },
{
    let negative = text[0] == 0x2d;
    let first: usize = if negative {
        1
    } else {
        0
    };
    let ghost d = text@.skip(first as int);
    proof {
        assert(text@.skip(0) =~= text@);
        assert forall|i: int| 0 <= i < d.len() implies is_digit(#[trigger] d[i]) by {
            assert(d[i] == text@[i + first]);
        }
        assert(int_value(text@) == if negative {
            -digits_value(d)
        } else {
            digits_value(d)
        });
    }
    let limit: u64 = if negative {
        0x8000_0000_0000_0000
    } else {
        0x7fff_ffff_ffff_ffff
    };
    let mut n: u64 = 0;
    let mut i: usize = first;
    proof {
        assert(d.take(0) =~= Seq::empty());
    }
    while i < text.len()
        invariant
            first <= i <= text@.len(),
            d == text@.skip(first as int),
            forall|k: int| 0 <= k < d.len() ==> is_digit(#[trigger] d[k]),
            n as int == digits_value(d.take(i - first)),
            n <= limit <= 0x8000_0000_0000_0000,
            limit == if negative {
                0x8000_0000_0000_0000u64
            } else {
                0x7fff_ffff_ffff_ffffu64
            },
            int_value(text@) == if negative {
                -digits_value(d)
            } else {
                digits_value(d)
            },
        decreases text@.len() - i,
    {
        let b: u8 = text[i];
        proof {
            assert(d[i - first] == b);
            assert(d.take(i - first + 1).drop_last() =~= d.take(i - first));
            lemma_digits_value_monotone(d, i - first + 1);
        }
        let digit: u64 = (b - 0x30) as u64;
        if n > (limit - digit) / 10 {
            return None;
        }
        n = n * 10 + digit;
        i += 1;
    }
    proof {
        assert(d.take(i - first) =~= d);
    }
    if negative {
        if n == 0x8000_0000_0000_0000 {
            Some(i64::MIN)
        } else {
            Some(-(n as i64))
        }
    } else {
        Some(n as i64)
    }
}

/// The length in bytes of the UTF-8 scalar that starts with `b`.
fn utf8_len(b: u8) -> (n: usize)
    ensures
        n == scalar_len(b),
{
    if b <= 0x7f {
        1
    } else if 0xc0 <= b && b <= 0xdf {
        2
    } else if 0xe0 <= b && b <= 0xef {
        3
    } else {
        4
    }
}

impl Json {
    /// Parse one JSON value. Bytes after the value, other than whitespace, are a
    /// `TrailingBytes` error. The input leaves room to count past its end.
    pub fn parse(input: &str) -> (r: Result<Json, JsonError>)
        requires
            encode_utf8(input@).len() + 8 <= usize::MAX,
        ensures
            match read_json(encode_utf8(input@)) {
                Ok(v) => r is Ok && r->Ok_0@ == v,
                Err(e) => r == Err::<Json, JsonError>(e),
            },
    {
        let mut p = Parser { bytes: input.as_bytes(), at: 0 };
        let ghost s = p.bytes@;
        proof {
            lemma_ws_end(s, 0);
        }
        p.skip_ws();
        let value = match p.value(0) {
            Ok(v) => v,
            Err(e) => return Err(e),
        };
        proof {
            lemma_ws_end(s, p.at as int);
        }
        p.skip_ws();
        if p.at != p.bytes.len() {
            return Err(p.err(JsonErrorKind::TrailingBytes));
        }
        Ok(value)
    }
}

// --- reading a parsed value ---

/// The value of the first pair with `key`.
pub open spec fn lookup(o: Seq<(Seq<char>, JsonV)>, key: Seq<char>) -> Option<JsonV>
    decreases o.len(),
{
    if o.len() == 0 {
        None
    } else if o[0].0 == key {
        Some(o[0].1)
    } else {
        lookup(o.skip(1), key)
    }
}

/// The value an object has at `key`; any other value has none.
pub open spec fn json_get(j: JsonV, key: Seq<char>) -> Option<JsonV> {
    match j {
        JsonV::Object(o) => lookup(o, key),
        _ => None,
    }
}

impl Json {
    /// The string, if this is a `Str`.
    pub fn as_str(&self) -> (r: Option<&str>)
        ensures
            match self@ {
                JsonV::Str(t) => r is Some && r->Some_0@ == t,
                _ => r is None,
            },
    {
        match self {
            Json::Str(s) => Some(s.as_str()),
            _ => None,
        }
    }

    /// The integer, if this is an `Int`. A `Float` is not coerced.
    pub fn as_i64(&self) -> (r: Option<i64>)
        ensures
            r == match self@ {
                JsonV::Int(n) => Some(n),
                _ => None::<i64>,
            },
    {
        match self {
            Json::Int(n) => Some(*n),
            _ => None,
        }
    }

    /// The boolean, if this is a `Bool`.
    pub fn as_bool(&self) -> (r: Option<bool>)
        ensures
            r == match self@ {
                JsonV::Bool(b) => Some(b),
                _ => None::<bool>,
            },
    {
        match self {
            Json::Bool(b) => Some(*b),
            _ => None,
        }
    }

    /// The items, if this is an `Array`.
    pub fn as_array(&self) -> (r: Option<&[Json]>)
        ensures
            match self@ {
                JsonV::Array(a) => r is Some && items_view(r->Some_0@) == a,
                _ => r is None,
            },
    {
        match self {
            Json::Array(a) => {
                proof {
                    lemma_array_view(*a);
                }
                Some(a.as_slice())
            },
            _ => None,
        }
    }

    /// The key/value pairs in declaration order, if this is an `Object`.
    pub fn as_object(&self) -> (r: Option<&[(String, Json)]>)
        ensures
            match self@ {
                JsonV::Object(o) => r is Some && pairs_view(r->Some_0@) == o,
                _ => r is None,
            },
    {
        match self {
            Json::Object(o) => {
                proof {
                    lemma_object_view(*o);
                }
                Some(o.as_slice())
            },
            _ => None,
        }
    }

    /// The value for `key`, if this is an `Object` that has it.
    pub fn get(&self, key: &str) -> (r: Option<&Json>)
        ensures
            match json_get(self@, key@) {
                Some(v) => r is Some && r->Some_0@ == v,
                None => r is None,
            },
    {
        match self.as_object() {
            None => None,
            Some(o) => {
                let ghost pv = pairs_view(o@);
                let mut i: usize = 0;
                proof {
                    assert(pv.skip(0) =~= pv);
                }
                while i < o.len()
                    invariant
                        i <= o@.len(),
                        pv == pairs_view(o@),
                        json_get(self@, key@) == lookup(pv.skip(i as int), key@),
                    decreases o@.len() - i,
                {
                    proof {
                        assert(pv.skip(i as int)[0] == pv[i as int]);
                        assert(pv.skip(i as int).skip(1) =~= pv.skip(i + 1));
                    }
                    if str_eq(o[i].0.as_str(), key) {
                        return Some(&o[i].1);
                    }
                    i += 1;
                }
                None
            },
        }
    }

    /// A copy of the value.
    pub fn copy(&self) -> (r: Json)
        ensures
            r@ == self@,
        decreases *self,
    {
        match self {
            Json::Null => Json::Null,
            Json::Bool(b) => Json::Bool(*b),
            Json::Int(n) => Json::Int(*n),
            Json::Float(t) => Json::Float(t.clone()),
            Json::Str(t) => Json::Str(t.clone()),
            Json::Array(a) => {
                let mut out: Vec<Json> = Vec::new();
                let mut i: usize = 0;
                while i < a.len()
                    invariant
                        i <= a@.len(),
                        *self == Json::Array(*a),
                        items_view(out@) =~= items_view(a@).take(i as int),
                    decreases a@.len() - i,
                {
                    let ghost before = items_view(out@);
                    proof {
                        assert(decreases_to!(*self => (*self)->Array_0));
                        assert(decreases_to!(*a => a[i as int]));
                    }
                    let item = a[i].copy();
                    out.push(item);
                    proof {
                        assert(items_view(out@) =~= before.push(item@));
                    }
                    i += 1;
                }
                proof {
                    lemma_array_view(*a);
                    lemma_array_view(out);
                    assert(items_view(a@).take(i as int) =~= items_view(a@));
                }
                Json::Array(out)
            },
            Json::Object(o) => {
                let mut out: Vec<(String, Json)> = Vec::new();
                let mut i: usize = 0;
                while i < o.len()
                    invariant
                        i <= o@.len(),
                        *self == Json::Object(*o),
                        pairs_view(out@) =~= pairs_view(o@).take(i as int),
                    decreases o@.len() - i,
                {
                    let ghost before = pairs_view(out@);
                    proof {
                        assert(decreases_to!(*self => (*self)->Object_0));
                        assert(decreases_to!(*o => o[i as int]));
                        assert(decreases_to!(o[i as int] => o[i as int].1));
                    }
                    let key = o[i].0.clone();
                    let value = o[i].1.copy();
                    let ghost pair = (key@, value@);
                    out.push((key, value));
                    proof {
                        assert(pairs_view(out@) =~= before.push(pair));
                    }
                    i += 1;
                }
                proof {
                    lemma_object_view(*o);
                    lemma_object_view(out);
                    assert(pairs_view(o@).take(i as int) =~= pairs_view(o@));
                }
                Json::Object(out)
            },
        }
    }
}

impl JsonErrorKind {
    /// What the kind says went wrong.
    pub open spec fn spec_what(self) -> Seq<char> {
        match self {
            JsonErrorKind::UnexpectedEof => "unexpected end of input"@,
            JsonErrorKind::Unexpected => "unexpected byte"@,
            JsonErrorKind::BadEscape => "invalid string escape"@,
            JsonErrorKind::BadNumber => "invalid number"@,
            JsonErrorKind::BadUnicode => "invalid unicode escape"@,
            JsonErrorKind::DuplicateKey => "duplicate object key"@,
            JsonErrorKind::TrailingBytes => "trailing bytes after value"@,
            JsonErrorKind::DepthLimit => "nesting too deep"@,
        }
    }
}

impl JsonError {
    /// A readable message: what went wrong and the byte it went wrong at.
    pub fn message(&self) -> (m: String)
        ensures
            m@ == self.kind.spec_what() + " at byte "@ + decimal(self.at as nat),
    {
        let what = match self.kind {
            JsonErrorKind::UnexpectedEof => "unexpected end of input",
            JsonErrorKind::Unexpected => "unexpected byte",
            JsonErrorKind::BadEscape => "invalid string escape",
            JsonErrorKind::BadNumber => "invalid number",
            JsonErrorKind::BadUnicode => "invalid unicode escape",
            JsonErrorKind::DuplicateKey => "duplicate object key",
            JsonErrorKind::TrailingBytes => "trailing bytes after value",
            JsonErrorKind::DepthLimit => "nesting too deep",
        };
        let mut m = String::new();
        m.push_str(what);
        m.push_str(" at byte ");
        push_decimal(&mut m, self.at as u64);
        proof {
            assert(m@ =~= self.kind.spec_what() + " at byte "@ + decimal(self.at as nat));
        }
        m
    }
}

// --- laws ---

/// Whether every object in the value has each key once.
pub open spec fn keys_unique(j: JsonV) -> bool
    decreases j,
{
    match j {
        JsonV::Array(a) => forall|i: int| 0 <= i < a.len() ==> keys_unique(#[trigger] a[i]),
        JsonV::Object(o) => distinct(o) && forall|i: int|
            0 <= i < o.len() ==> keys_unique((#[trigger] o[i]).1),
        _ => true,
    }
}

/// Whether no key occurs twice.
pub open spec fn distinct(o: Seq<(Seq<char>, JsonV)>) -> bool {
    forall|i: int, k: int| 0 <= i < k < o.len() ==> (#[trigger] o[i]).0 != (#[trigger] o[k]).0
}

/// Whether the value nests at most `n` deep.
pub open spec fn nests(j: JsonV, n: int) -> bool
    decreases j,
{
    match j {
        JsonV::Array(a) => n >= 1 && forall|i: int|
            0 <= i < a.len() ==> nests(#[trigger] a[i], n - 1),
        JsonV::Object(o) => n >= 1 && forall|i: int|
            0 <= i < o.len() ==> nests((#[trigger] o[i]).1, n - 1),
        _ => true,
    }
}

spec fn good(j: JsonV, depth: nat) -> bool {
    keys_unique(j) && nests(j, MAX_DEPTH - depth)
}

proof fn lemma_value_good(s: Seq<u8>, at: int, depth: nat)
    requires
        depth <= MAX_DEPTH,
    ensures
        read_value(s, at, depth) matches Ok((v, end)) ==> good(v, depth),
    decreases MAX_DEPTH - depth, 3int, 0int,
{
    if 0 <= at < s.len() || at < 0 {
        if depth + 1 <= MAX_DEPTH {
            lemma_items_good(s, ws_end(s, at + 1), depth, Seq::empty());
            lemma_pairs_good(s, ws_end(s, at + 1), depth, Seq::empty());
        }
    }
}

proof fn lemma_items_good(s: Seq<u8>, at: int, depth: nat, done: Seq<JsonV>)
    requires
        depth < MAX_DEPTH,
        forall|i: int| 0 <= i < done.len() ==> good(#[trigger] done[i], depth + 1),
    ensures
        read_items(s, at, depth, done) matches Ok((v, end)) ==> good(v, depth),
    decreases MAX_DEPTH - depth, 1int, s.len() - at,
{
    lemma_value_good(s, ws_end(s, at), depth + 1);
    if let Ok((v, end)) = read_value(s, ws_end(s, at), depth + 1) {
        let next = ws_end(s, end);
        let more = done.push(v);
        assert forall|i: int| 0 <= i < more.len() implies good(#[trigger] more[i], depth + 1) by {
            if i < done.len() {
                assert(more[i] == done[i]);
            }
        }
        if next < s.len() && s[next] == 0x2c && next + 1 > at {
            lemma_items_good(s, next + 1, depth, more);
        }
    }
}

proof fn lemma_pairs_good(s: Seq<u8>, at: int, depth: nat, done: Seq<(Seq<char>, JsonV)>)
    requires
        depth < MAX_DEPTH,
        distinct(done),
        forall|i: int| 0 <= i < done.len() ==> good((#[trigger] done[i]).1, depth + 1),
    ensures
        read_pairs(s, at, depth, done) matches Ok((v, end)) ==> good(v, depth),
    decreases MAX_DEPTH - depth, 1int, s.len() - at,
{
    let key_at = ws_end(s, at);
    if let Ok((key, key_end)) = read_string(s, key_at) {
        let colon = ws_end(s, key_end);
        lemma_value_good(s, ws_end(s, colon + 1), depth + 1);
        if let Ok((v, end)) = read_value(s, ws_end(s, colon + 1), depth + 1) {
            let next = ws_end(s, end);
            let more = done.push((key, v));
            if !has_key(done, key) {
                assert forall|i: int| 0 <= i < more.len() implies good(
                    (#[trigger] more[i]).1,
                    depth + 1,
                ) by {
                    if i < done.len() {
                        assert(more[i] == done[i]);
                    }
                }
                assert forall|i: int, k: int| 0 <= i < k < more.len() implies (#[trigger] more[i]).0
                    != (#[trigger] more[k]).0 by {
                    assert(more[i] == done[i]);
                    if k < done.len() {
                        assert(more[k] == done[k]);
                    }
                }
                if next < s.len() && s[next] == 0x2c && next + 1 > at {
                    lemma_pairs_good(s, next + 1, depth, more);
                }
            }
        }
    }
}

/// A value that parses has each key of each of its objects once, and nests no deeper
/// than the parser admits.
pub proof fn law_parsed_values_are_well_formed(s: Seq<u8>)
    ensures
        read_json(s) matches Ok(v) ==> keys_unique(v) && nests(v, MAX_DEPTH as int),
{
    lemma_value_good(s, ws_end(s, 0), 0);
}

/// In an object without repeated keys, the value found at a key is that of whichever
/// pair has it.
pub proof fn law_lookup_finds_the_only_pair(o: Seq<(Seq<char>, JsonV)>, i: int)
    requires
        distinct(o),
        0 <= i < o.len(),
    ensures
        lookup(o, o[i].0) == Some(o[i].1),
    decreases o.len(),
{
    if i > 0 {
        assert(o[0].0 != o[i].0);
        let t = o.skip(1);
        assert forall|a: int, b: int| 0 <= a < b < t.len() implies (#[trigger] t[a]).0
            != (#[trigger] t[b]).0 by {
            assert(t[a] == o[a + 1] && t[b] == o[b + 1]);
        }
        assert(t[i - 1] == o[i]);
        law_lookup_finds_the_only_pair(t, i - 1);
    }
}

} // verus!
