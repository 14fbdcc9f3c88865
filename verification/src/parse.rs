//! Parsing of inscription bodies: WJK-20 JSON operations and
//! `{N}.wojakmap` block claims.

use crate::text::{
    all_digits, ascii_lowercase, char_is_ascii_alnum, char_is_digit, decimal, digits_value,
    is_ascii_alnum, is_digit, lemma_decimal, lower, parse_unsigned, parse_unsigned_spec, str_eq,
    str_from_utf8, strip_suffix, strip_suffix_str, trim, trim_end, trim_start, trim_str,
};
use vstd::prelude::*;
use vstd::utf8::*;

verus! {

/// The operation of a WJK-20 inscription.
#[derive(Debug, Clone, Copy, PartialEq, Eq, Structural)]
pub enum Wjk20Op {
    Deploy,
    Mint,
    Transfer,
}

/// A WJK-20 operation read from an inscription body.
#[derive(Debug, Clone)]
pub struct ParsedWjk20 {
    pub op: Wjk20Op,
    pub tick: String,
    pub amt: Option<u128>,
    pub max: Option<u128>,
    pub lim: Option<u128>,
    pub dec: Option<u8>,
}

/// [`ParsedWjk20`] with its text as characters.
pub struct ParsedWjk20View {
    pub op: Wjk20Op,
    pub tick: Seq<char>,
    pub amt: Option<u128>,
    pub max: Option<u128>,
    pub lim: Option<u128>,
    pub dec: Option<u8>,
}

impl View for ParsedWjk20 {
    type V = ParsedWjk20View;

    open spec fn view(&self) -> ParsedWjk20View {
        ParsedWjk20View {
            op: self.op,
            tick: self.tick@,
            amt: self.amt,
            max: self.max,
            lim: self.lim,
            dec: self.dec,
        }
    }
}

impl DeepView for ParsedWjk20 {
    type V = ParsedWjk20View;

    open spec fn deep_view(&self) -> ParsedWjk20View {
        self@
    }
}

impl ParsedWjk20 {
    /// A copy with the same contents.
    pub fn duplicate(&self) -> (r: Self)
        ensures
            r@ == self@,
    {
        ParsedWjk20 {
            op: self.op,
            tick: self.tick.clone(),
            amt: self.amt,
            max: self.max,
            lim: self.lim,
            dec: self.dec,
        }
    }
}

/// A member value of a JSON object, as far as WJK-20 reads it: a string, a
/// number that fits in `u64`, or anything else.
pub enum JsonScalar {
    Str(String),
    UInt(u64),
    Other,
}

/// [`JsonScalar`] with its text as characters.
pub enum JsonScalarView {
    Str(Seq<char>),
    UInt(u64),
    Other,
}

impl View for JsonScalar {
    type V = JsonScalarView;

    open spec fn view(&self) -> JsonScalarView {
        match self {
            JsonScalar::Str(s) => JsonScalarView::Str(s@),
            JsonScalar::UInt(n) => JsonScalarView::UInt(*n),
            JsonScalar::Other => JsonScalarView::Other,
        }
    }
}

impl DeepView for JsonScalar {
    type V = JsonScalarView;

    open spec fn deep_view(&self) -> JsonScalarView {
        self@
    }
}

/// The members of the top-level JSON object that `body` holds (`None` where
/// `body` is not JSON or its value is not an object), as `serde_json` reads
/// them.
pub uninterp spec fn json_object_of(body: Seq<u8>) -> Option<Seq<(Seq<char>, JsonScalarView)>>;

/// `serde_json::from_slice::<serde_json::Value>`, then `Value::as_object`:
/// the members of the object, each value reduced to a [`JsonScalar`]
/// (`Number::as_u64` tells the numbers that fit in `u64`). The contract
/// names the result and says nothing more of JSON.
#[verifier::external_body]
fn json_object_entries(body: &[u8]) -> (r: Option<Vec<(String, JsonScalar)>>)
    ensures
        r.deep_view() == json_object_of(body@),
{
    let value: serde_json::Value = serde_json::from_slice(body).ok()?;
    Some(value.as_object()?.iter().map(|(k, v)| (k.clone(), match v {
        serde_json::Value::String(s) => JsonScalar::Str(s.clone()),
        serde_json::Value::Number(n) => match n.as_u64() {
            Some(u) => JsonScalar::UInt(u),
            None => JsonScalar::Other,
        },
        _ => JsonScalar::Other,
    })).collect())
}

/// The value of member `key` of an object.
pub open spec fn json_get(obj: Seq<(Seq<char>, JsonScalarView)>, key: Seq<char>) -> Option<
    JsonScalarView,
>
    decreases obj.len(),
{
    if obj.len() == 0 {
        None
    } else if obj[0].0 == key {
        Some(obj[0].1)
    } else {
        json_get(obj.drop_first(), key)
    }
}

/// A tick: two to eight ASCII letters or digits.
pub open spec fn valid_tick_spec(t: Seq<char>) -> bool {
    2 <= t.len() <= 8 && forall|i: int| 0 <= i < t.len() ==> is_ascii_alnum(#[trigger] t[i])
}

/// An amount written as a string: one or more digits, of value within `u128`.
pub open spec fn amount_str_spec(s: Seq<char>) -> Option<u128> {
    if s.len() > 0 && all_digits(s) && digits_value(s) <= u128::MAX {
        Some(digits_value(s) as u128)
    } else {
        None
    }
}

/// An amount given as a JSON string of digits or as a number within `u64`.
pub open spec fn amount_spec(v: Option<JsonScalarView>) -> Option<u128> {
    match v {
        Some(JsonScalarView::Str(s)) => amount_str_spec(s),
        Some(JsonScalarView::UInt(n)) => Some(n as u128),
        _ => None,
    }
}

/// Decimals given as a number up to 255, or as a string that `u8` parses.
pub open spec fn decimals_spec(v: Option<JsonScalarView>) -> Option<u8> {
    match v {
        Some(JsonScalarView::UInt(n)) => if n <= 255 {
            Some(n as u8)
        } else {
            None
        },
        Some(JsonScalarView::Str(s)) => match parse_unsigned_spec(s, 255) {
            Some(d) => Some(d as u8),
            None => None,
        },
        _ => None,
    }
}

/// The operation named by `op`, in any ASCII case.
pub open spec fn op_spec(op: Seq<char>) -> Option<Wjk20Op> {
    let o = lower(op);
    if o == "deploy"@ {
        Some(Wjk20Op::Deploy)
    } else if o == "mint"@ {
        Some(Wjk20Op::Mint)
    } else if o == "transfer"@ {
        Some(Wjk20Op::Transfer)
    } else {
        None
    }
}

/// What a JSON object says as a WJK-20 operation: `p` is `wjk-20` or `wjk20`
/// in any case, `op` names an operation, `tick` is a valid tick; `lim` falls
/// back on `limit`.
pub open spec fn parse_fields_spec(obj: Seq<(Seq<char>, JsonScalarView)>) -> Option<
    ParsedWjk20View,
> {
    match (json_get(obj, "p"@), json_get(obj, "op"@), json_get(obj, "tick"@)) {
        (
            Some(JsonScalarView::Str(p)),
            Some(JsonScalarView::Str(op)),
            Some(JsonScalarView::Str(tick)),
        ) => if (lower(p) == "wjk-20"@ || lower(p) == "wjk20"@) && op_spec(op) is Some
            && valid_tick_spec(tick) {
            Some(
                ParsedWjk20View {
                    op: op_spec(op).unwrap(),
                    tick: lower(tick),
                    amt: amount_spec(json_get(obj, "amt"@)),
                    max: amount_spec(json_get(obj, "max"@)),
                    lim: match amount_spec(json_get(obj, "lim"@)) {
                        Some(l) => Some(l),
                        None => amount_spec(json_get(obj, "limit"@)),
                    },
                    dec: decimals_spec(json_get(obj, "dec"@)),
                },
            )
        } else {
            None
        },
        _ => None,
    }
}

/// What an inscription body says as a WJK-20 operation.
pub open spec fn parse_body_spec(body: Seq<u8>) -> Option<ParsedWjk20View> {
    match json_object_of(body) {
        Some(obj) => parse_fields_spec(obj),
        None => None,
    }
}

/// The block that a `{N}.wojakmap` body claims: the body is UTF-8 and,
/// without surrounding white space, digits followed by `.wojakmap`.
pub open spec fn wojakmap_claim_spec(body: Seq<u8>) -> Option<u32> {
    if !valid_utf8(body) {
        None
    } else {
        match strip_suffix(trim(decode_utf8(body)), ".wojakmap"@) {
            Some(p) => if p.len() > 0 && all_digits(p) && digits_value(p) <= u32::MAX {
                Some(digits_value(p) as u32)
            } else {
                None
            },
            None => None,
        }
    }
}

proof fn lemma_json_get_skip(obj: Seq<(Seq<char>, JsonScalarView)>, key: Seq<char>, i: int)
    requires
        0 <= i < obj.len(),
        obj[i].0 != key,
    ensures
        json_get(obj.skip(i), key) == json_get(obj.skip(i + 1), key),
{
    assert(obj.skip(i).drop_first() =~= obj.skip(i + 1));
}

/// The value of member `key` of an object.
pub fn object_get<'a>(obj: &'a Vec<(String, JsonScalar)>, key: &str) -> (r: Option<&'a JsonScalar>)
    ensures
        r.deep_view() == json_get(obj.deep_view(), key@),
{
    let ghost dv = obj.deep_view();
    let n = obj.len();
    let mut i: usize = 0;
    assert(dv.skip(0) =~= dv);
    while i < n
        invariant
            n == obj@.len(),
            dv == obj.deep_view(),
            dv.len() == n,
            0 <= i <= n,
            json_get(dv, key@) == json_get(dv.skip(i as int), key@),
        decreases n - i,
    {
        let entry = &obj[i];
        assert(dv[i as int] == (entry.0@, entry.1@));
        if str_eq(entry.0.as_str(), key) {
            assert(dv.skip(i as int)[0] == dv[i as int]);
            return Some(&entry.1);
        }
        proof {
            lemma_json_get_skip(dv, key@, i as int);
        }
        i = i + 1;
    }
    assert(dv.skip(n as int) =~= Seq::<(Seq<char>, JsonScalarView)>::empty());
    None
}

/// Whether `tick` is two to eight ASCII letters or digits.
pub fn valid_tick(tick: &str) -> (r: bool)
    ensures
        r == valid_tick_spec(tick@),
{
    let n = tick.unicode_len();
    if n < 2 || n > 8 {
        return false;
    }
    let mut i: usize = 0;
    while i < n
        invariant
            n == tick@.len(),
            0 <= i <= n,
            forall|j: int| 0 <= j < i ==> is_ascii_alnum(#[trigger] tick@[j]),
        decreases n - i,
    {
        if !char_is_ascii_alnum(tick.get_char(i)) {
            return false;
        }
        i = i + 1;
    }
    true
}

/// A tick in its stored form: ASCII lower case.
pub fn normalize_tick(tick: &str) -> (r: String)
    ensures
        r@ == lower(tick@),
{
    ascii_lowercase(tick)
}

/// Whether every character of `s` is a digit.
fn all_digits_str(s: &str) -> (r: bool)
    ensures
        r == all_digits(s@),
{
    let n = s.unicode_len();
    let mut i: usize = 0;
    while i < n
        invariant
            n == s@.len(),
            0 <= i <= n,
            forall|j: int| 0 <= j < i ==> is_digit(#[trigger] s@[j]),
        decreases n - i,
    {
        if !char_is_digit(s.get_char(i)) {
            return false;
        }
        i = i + 1;
    }
    true
}

/// An amount written as a string of digits.
pub fn parse_amount_str(s: &str) -> (r: Option<u128>)
    ensures
        r == amount_str_spec(s@),
{
    if s.unicode_len() == 0 || !all_digits_str(s) {
        return None;
    }
    let r = parse_unsigned(s, u128::MAX);
    proof {
        if s@.len() > 0 && s@[0] == '+' {
            assert(!is_digit(s@[0]));
        }
    }
    r
}

/// An amount given as a JSON string of digits or as a number within `u64`.
pub fn parse_amount(value: &JsonScalar) -> (r: Option<u128>)
    ensures
        r == amount_spec(Some(value@)),
{
    match value {
        JsonScalar::Str(s) => parse_amount_str(s.as_str()),
        JsonScalar::UInt(n) => Some(*n as u128),
        JsonScalar::Other => None,
    }
}

fn amount_member(obj: &Vec<(String, JsonScalar)>, key: &str) -> (r: Option<u128>)
    ensures
        r == amount_spec(json_get(obj.deep_view(), key@)),
{
    match object_get(obj, key) {
        Some(v) => parse_amount(v),
        None => None,
    }
}

fn decimals_member(obj: &Vec<(String, JsonScalar)>) -> (r: Option<u8>)
    ensures
        r == decimals_spec(json_get(obj.deep_view(), "dec"@)),
{
    match object_get(obj, "dec") {
        Some(JsonScalar::UInt(n)) => if *n <= 255 {
            Some(*n as u8)
        } else {
            None
        },
        Some(JsonScalar::Str(s)) => match parse_unsigned(s.as_str(), 255) {
            Some(d) => Some(d as u8),
            None => None,
        },
        _ => None,
    }
}

fn string_member<'a>(obj: &'a Vec<(String, JsonScalar)>, key: &str) -> (r: Option<&'a String>)
    ensures
        r matches Some(s) ==> json_get(obj.deep_view(), key@) == Some(JsonScalarView::Str(s@)),
        r is None ==> !(json_get(obj.deep_view(), key@) matches Some(JsonScalarView::Str(_))),
{
    match object_get(obj, key) {
        Some(JsonScalar::Str(s)) => Some(s),
        _ => None,
    }
}

/// The operation named by `op`, in any ASCII case.
pub fn parse_op(op: &str) -> (r: Option<Wjk20Op>)
    ensures
        r == op_spec(op@),
{
    let o = ascii_lowercase(op);
    if str_eq(o.as_str(), "deploy") {
        Some(Wjk20Op::Deploy)
    } else if str_eq(o.as_str(), "mint") {
        Some(Wjk20Op::Mint)
    } else if str_eq(o.as_str(), "transfer") {
        Some(Wjk20Op::Transfer)
    } else {
        None
    }
}

/// Reads a WJK-20 operation from the members of a JSON object.
pub fn parse_fields(obj: &Vec<(String, JsonScalar)>) -> (r: Option<ParsedWjk20>)
    ensures
        r.deep_view() == parse_fields_spec(obj.deep_view()),
{
    let p = match string_member(obj, "p") {
        Some(p) => p,
        None => return None,
    };
    let protocol = ascii_lowercase(p.as_str());
    if !str_eq(protocol.as_str(), "wjk-20") && !str_eq(protocol.as_str(), "wjk20") {
        return None;
    }
    let op = match string_member(obj, "op") {
        Some(o) => o,
        None => return None,
    };
    let op = match parse_op(op.as_str()) {
        Some(op) => op,
        None => return None,
    };
    let tick = match string_member(obj, "tick") {
        Some(t) => t,
        None => return None,
    };
    if !valid_tick(tick.as_str()) {
        return None;
    }
    let amt = amount_member(obj, "amt");
    let max = amount_member(obj, "max");
    let lim = match amount_member(obj, "lim") {
        Some(l) => Some(l),
        None => amount_member(obj, "limit"),
    };
    let dec = decimals_member(obj);
    Some(ParsedWjk20 { op, tick: normalize_tick(tick.as_str()), amt, max, lim, dec })
}

/// Reads a WJK-20 operation from an inscription body (JSON such as
/// `{"p":"wjk-20","op":"deploy","tick":"wojk","max":"21000000","lim":"1000"}`).
pub fn parse_body(body: &[u8]) -> (r: Option<ParsedWjk20>)
    ensures
        r.deep_view() == parse_body_spec(body@),
{
    match json_object_entries(body) {
        Some(obj) => parse_fields(&obj),
        None => None,
    }
}

/// Parses a dogemap-style body: trimmed UTF-8 exactly `{digits}.wojakmap`.
pub fn parse_wojakmap_claim(body: &[u8]) -> (r: Option<u32>)
    ensures
        r == wojakmap_claim_spec(body@),
{
    let text = match str_from_utf8(body) {
        Some(t) => t,
        None => return None,
    };
    let trimmed = trim_str(text);
    let prefix = match strip_suffix_str(trimmed, ".wojakmap") {
        Some(p) => p,
        None => return None,
    };
    if prefix.unicode_len() == 0 || !all_digits_str(prefix) {
        return None;
    }
    proof {
        if prefix@.len() > 0 && prefix@[0] == '+' {
            assert(!is_digit(prefix@[0]));
        }
    }
    match parse_unsigned(prefix, 0xffff_ffff) {
        Some(v) => Some(v as u32),
        None => None,
    }
}

/// A body written as `{N}.wojakmap` claims block `N`: the claim that
/// [`parse_wojakmap_claim`] reads back is the number written.
pub proof fn lemma_wojakmap_body_roundtrip(n: u32)
    ensures
        wojakmap_claim_spec(encode_utf8(decimal(n as nat) + ".wojakmap"@)) == Some(n),
{
    broadcast use vstd::utf8::group_utf8_lib;

    reveal_strlit(".wojakmap");
    lemma_decimal(n as nat);
    let d = decimal(n as nat);
    let s = d + ".wojakmap"@;
    assert(valid_utf8(encode_utf8(s)));
    assert(decode_utf8(encode_utf8(s)) == s);
    assert(is_digit(s[0]));
    assert(s.last() == 'p');
    assert(trim_start(s) == s);
    assert(trim_end(s) == s);
    assert(s.subrange(s.len() - 9, s.len() as int) =~= ".wojakmap"@);
    assert(s.subrange(0, s.len() - 9) =~= d);
}

} // verus!
