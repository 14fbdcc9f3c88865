//! What the single operations give, in terms of their inputs: what a
//! WJK-20 body reads as, what a deploy creates, and what a registration
//! records.

use crate::ledger::{
    claim_spec, is_text_plain, register_domain_spec, reveal_prefix_spec, reveal_spec, total_minted_spec,
};
use crate::text::{decimal, is_ascii_alnum, lower};
use crate::parse::{json_get, parse_body_spec, parse_fields_spec, JsonScalarView, ParsedWjk20View, Wjk20Op};
use crate::tables::{id_string, lemma_amount_roundtrip, Wjk20State};
use crate::text::{all_digits, digits_value, parse_u128_spec};
use vstd::prelude::*;
use vstd::utf8::*;

verus! {

/// What an amount member says: a JSON number gives itself, a non-empty
/// string of digits gives its value when it fits in `u128`; anything
/// else, or no member, gives nothing.
pub open spec fn amount_reads(v: Option<JsonScalarView>, field: Option<u128>) -> bool {
    &&& v matches Some(JsonScalarView::UInt(n)) ==> field == Some(n as u128)
    &&& v matches Some(JsonScalarView::Str(d)) ==> (field is Some <==> (d.len() > 0 && all_digits(d)
        && digits_value(d) <= u128::MAX)) && (field is Some ==> field.unwrap() == digits_value(d))
    &&& (v is None || v == Some(JsonScalarView::Other)) ==> field is None
}

/// The amounts of a WJK-20 body are read alike: `amt`, `max` and `lim` (or
/// `limit` where `lim` gives none) each give a JSON number as itself and a
/// string of digits as its value; `dec` gives a number up to 255 as itself.
pub proof fn lemma_parse_amounts(obj: Seq<(Seq<char>, JsonScalarView)>)
    requires
        parse_fields_spec(obj) is Some,
    ensures
        ({
            let p = parse_fields_spec(obj).unwrap();
            &&& amount_reads(json_get(obj, "amt"@), p.amt)
            &&& amount_reads(json_get(obj, "max"@), p.max)
            &&& json_get(obj, "lim"@) matches Some(JsonScalarView::UInt(n)) ==> p.lim == Some(n as u128)
            &&& (json_get(obj, "lim"@) is None || json_get(obj, "lim"@) == Some(JsonScalarView::Other))
                ==> amount_reads(json_get(obj, "limit"@), p.lim)
            &&& json_get(obj, "lim"@) matches Some(JsonScalarView::Str(d)) ==> {
                &&& d.len() > 0 && all_digits(d) && digits_value(d) <= u128::MAX ==> p.lim == Some(
                    digits_value(d) as u128)
                &&& !(d.len() > 0 && all_digits(d) && digits_value(d) <= u128::MAX) ==> amount_reads(
                    json_get(obj, "limit"@),
                    p.lim,
                )
            }
            &&& json_get(obj, "dec"@) matches Some(JsonScalarView::UInt(n)) ==> (n <= 255 ==> p.dec == Some(
                n as u8)) && (n > 255 ==> p.dec is None)
            &&& json_get(obj, "dec"@) matches Some(JsonScalarView::Str(d)) ==> {
                let e = if d.len() > 0 && d[0] == '+' {
                    d.drop_first()
                } else {
                    d
                };
                &&& p.dec is Some <==> (e.len() > 0 && all_digits(e) && digits_value(e) <= 255)
                &&& p.dec is Some ==> p.dec.unwrap() == digits_value(e)
            }
            &&& (json_get(obj, "dec"@) is None || json_get(obj, "dec"@) == Some(JsonScalarView::Other))
                ==> p.dec is None
        }),
{
}

/// The same, for an inscription body whose JSON object is `obj`.
pub proof fn lemma_parse_body_amounts(body: Seq<u8>, obj: Seq<(Seq<char>, JsonScalarView)>)
    requires
        crate::parse::json_object_of(body) == Some(obj),
        parse_body_spec(body) is Some,
    ensures
        parse_body_spec(body) == parse_fields_spec(obj),
        ({
            let p = parse_body_spec(body).unwrap();
            &&& amount_reads(json_get(obj, "amt"@), p.amt)
            &&& amount_reads(json_get(obj, "max"@), p.max)
        }),
{
    lemma_parse_amounts(obj);
}

/// A revealed deploy of a tick that is not deployed, with `0 < lim <= max`,
/// creates its token with what the body says: the tick, `max` and `lim`
/// (as text that reads back as them), the decimals the body names (18
/// where it names none), the deploying inscription's id, number and
/// height, and no deployer yet; and it records a `deploy` event under the
/// inscription's number and the tick. A deploy of a tick that is deployed,
/// or without `max` and `lim` with `0 < lim <= max`, creates no token and
/// records no event.
pub proof fn lemma_deploy_creates_token(
    s: Wjk20State,
    id: (Seq<char>, u32),
    number: u32,
    height: u32,
    timestamp: u32,
    body: Seq<u8>,
    content_type: Option<Seq<char>>,
    domain: Option<Seq<char>>,
    p: ParsedWjk20View,
)
    requires
        parse_body_spec(body) == Some(p),
        p.op == Wjk20Op::Deploy,
    ensures
        ({
            let r = reveal_spec(s, id, number, height, timestamp, Some(body), content_type, domain);
            &&& r is Ok
            &&& !(!s.deploy.contains_key(p.tick) && p.max is Some && p.lim is Some && 0 < p.lim.unwrap()
                <= p.max.unwrap()) ==> {
                &&& r.unwrap().deploy == s.deploy
                &&& r.unwrap().event_by_number == s.event_by_number
                &&& r.unwrap().tick_to_numbers == s.tick_to_numbers
            }
            &&& !s.deploy.contains_key(p.tick) && p.max is Some && p.lim is Some && 0 < p.lim.unwrap()
                <= p.max.unwrap() ==> {
                let e = r.unwrap().event_by_number[number];
                &&& r.unwrap().event_by_number.contains_key(number)
                &&& e.op == "deploy"@
                &&& e.tick == p.tick
                &&& e.amt is None
                &&& e.max is Some && parse_u128_spec(e.max.unwrap()) == p.max
                &&& e.lim is Some && parse_u128_spec(e.lim.unwrap()) == p.lim
                &&& e.inscription_id == id_string(id)
                &&& e.inscription_number == number
                &&& e.height == height
                &&& e.address is None && e.to_address is None
                &&& r.unwrap().tick_to_numbers.contains_key((p.tick, number))
            }
            &&& !s.deploy.contains_key(p.tick) && p.max is Some && p.lim is Some && 0 < p.lim.unwrap()
                <= p.max.unwrap() ==> {
                let d = r.unwrap().deploy[p.tick];
                &&& r.unwrap().deploy.contains_key(p.tick)
                &&& d.tick == p.tick
                &&& parse_u128_spec(d.max) == p.max
                &&& parse_u128_spec(d.lim) == p.lim
                &&& d.dec == (if p.dec is Some {
                    p.dec.unwrap()
                } else {
                    18u8
                })
                &&& d.inscription_id == id_string(id)
                &&& d.inscription_number == number
                &&& d.height == height
                &&& d.deployer == Seq::<char>::empty()
            }
        }),
{
    let s2 = reveal_prefix_spec(s, id, number, height, timestamp, Some(body), content_type, domain);
    assert(s2.deploy == s.deploy);
    assert(s2.event_by_number == s.event_by_number);
    assert(s2.tick_to_numbers == s.tick_to_numbers);
    if p.max is Some && p.lim is Some {
        lemma_amount_roundtrip(p.max.unwrap());
        lemma_amount_roundtrip(p.lim.unwrap());
    }
}

/// A registration of a free name records it with what the reveal gives:
/// the name, its `.wjk` full name, the inscription's id and number, the
/// height and the timestamp of the reveal, and no owner yet; the id then
/// names it, and nothing else changes. A name that is taken keeps its
/// registration (the first registration wins).
pub proof fn lemma_register_records(
    s: Wjk20State,
    id: (Seq<char>, u32),
    number: u32,
    height: u32,
    timestamp: u32,
    name: Seq<char>,
)
    ensures
        ({
            let t = register_domain_spec(s, id, number, height, timestamp, Some(name));
            &&& s.domain_name.contains_key(name) ==> t == s
            &&& !s.domain_name.contains_key(name) ==> {
                let d = t.domain_name[name];
                &&& t.domain_name.contains_key(name)
                &&& d.name == name
                &&& d.full_name == name + ".wjk"@
                &&& d.inscription_id == id_string(id)
                &&& d.inscription_number == number
                &&& d.owner_address == Seq::<char>::empty()
                &&& d.height == height
                &&& d.timestamp == timestamp
                &&& t.domain_id_to_name.contains_key(id) && t.domain_id_to_name[id] == name
                &&& forall|n: Seq<char>| n != name ==> (#[trigger] t.domain_name.contains_key(n)
                    == s.domain_name.contains_key(n) && t.domain_name[n] == s.domain_name[n])
                &&& t.domain_address_to_names == s.domain_address_to_names
                &&& t.deploy == s.deploy && t.balance == s.balance && t.event_by_number == s.event_by_number
            }
        }),
{
}

/// The same for a revealed inscription that carries a `.wjk` name: the
/// record holds the reveal's height and timestamp.
pub proof fn lemma_reveal_registers(
    s: Wjk20State,
    id: (Seq<char>, u32),
    number: u32,
    height: u32,
    timestamp: u32,
    body: Option<Seq<u8>>,
    content_type: Option<Seq<char>>,
    name: Seq<char>,
)
    requires
        !s.domain_name.contains_key(name),
    ensures
        ({
            let t = reveal_prefix_spec(s, id, number, height, timestamp, body, content_type, Some(name));
            &&& t.domain_name.contains_key(name)
            &&& t.domain_name[name].timestamp == timestamp
            &&& t.domain_name[name].height == height
            &&& t.domain_name[name].inscription_number == number
            &&& t.domain_name[name].inscription_id == id_string(id)
        }),
{
}

/// What names a WJK-20 body: it reads exactly where `p` is `wjk-20` or
/// `wjk20` and `op` names an operation (in any ASCII case), and `tick` is
/// two to eight ASCII letters or digits; the tick is then kept in lower
/// case.
pub proof fn lemma_parse_names(obj: Seq<(Seq<char>, JsonScalarView)>)
    ensures
        ({
            &&& json_get(obj, "p"@) matches Some(JsonScalarView::Str(pr)) && (lower(pr) == "wjk-20"@ || lower(pr)
                == "wjk20"@)
            &&& json_get(obj, "op"@) matches Some(JsonScalarView::Str(op)) && (lower(op) == "deploy"@ || lower(op)
                == "mint"@ || lower(op) == "transfer"@)
            &&& json_get(obj, "tick"@) matches Some(JsonScalarView::Str(t)) && 2 <= t.len() <= 8 && forall|i: int|
                0 <= i < t.len() ==> is_ascii_alnum(#[trigger] t[i])
        }) ==> parse_fields_spec(obj) is Some,
        parse_fields_spec(obj) is Some ==> {
            let p = parse_fields_spec(obj).unwrap();
            &&& json_get(obj, "p"@) matches Some(JsonScalarView::Str(pr)) && (lower(pr) == "wjk-20"@ || lower(pr)
                == "wjk20"@)
            &&& json_get(obj, "op"@) matches Some(JsonScalarView::Str(op)) && (p.op == Wjk20Op::Deploy <==> lower(
                op,
            ) == "deploy"@) && (p.op == Wjk20Op::Mint <==> lower(op) == "mint"@) && (p.op == Wjk20Op::Transfer
                <==> lower(op) == "transfer"@)
            &&& json_get(obj, "tick"@) matches Some(JsonScalarView::Str(t)) && p.tick == lower(t) && 2 <= t.len()
                <= 8 && forall|i: int| 0 <= i < t.len() ==> is_ascii_alnum(#[trigger] t[i])
        },
{
    reveal_strlit("deploy");
    reveal_strlit("mint");
    reveal_strlit("transfer");
    assert("deploy"@ != "mint"@ && "deploy"@ != "transfer"@ && "mint"@ != "transfer"@) by {
        assert("deploy"@.len() != "mint"@.len() && "deploy"@.len() != "transfer"@.len());
        assert("mint"@.len() != "transfer"@.len());
    }
}

/// A revealed mint of a deployed token whose stored `lim` and `max` read
/// as numbers: an amount above zero and at most `lim` that keeps the
/// minted supply within `max` (or `max` is `u128::MAX`) is staged for the
/// minting inscription, with a mint event of that amount under its number;
/// any other amount stages nothing and stores no event.
pub proof fn lemma_mint_stages(
    s: Wjk20State,
    id: (Seq<char>, u32),
    number: u32,
    height: u32,
    timestamp: u32,
    body: Seq<u8>,
    content_type: Option<Seq<char>>,
    domain: Option<Seq<char>>,
    p: ParsedWjk20View,
)
    requires
        parse_body_spec(body) == Some(p),
        p.op == Wjk20Op::Mint,
        p.amt is Some,
        s.deploy.contains_key(p.tick),
        parse_u128_spec(s.deploy[p.tick].lim) is Some,
        parse_u128_spec(s.deploy[p.tick].max) is Some,
    ensures
        ({
            let r = reveal_spec(s, id, number, height, timestamp, Some(body), content_type, domain);
            let amt = p.amt.unwrap();
            let lim = parse_u128_spec(s.deploy[p.tick].lim).unwrap();
            let max = parse_u128_spec(s.deploy[p.tick].max).unwrap();
            let total = total_minted_spec(s, p.tick);
            &&& r is Ok
            &&& 0 < amt <= lim && (total + amt <= max || max == u128::MAX) ==> {
                let t = r.unwrap();
                &&& t.pending_mint.contains_key(id) && t.pending_mint[id] == (p.tick, amt)
                &&& t.event_by_number.contains_key(number)
                &&& t.event_by_number[number].op == "mint"@
                &&& t.event_by_number[number].tick == p.tick
                &&& t.event_by_number[number].amt matches Some(a) && parse_u128_spec(a) == Some(amt)
                &&& t.tick_to_numbers.contains_key((p.tick, number))
            }
            &&& (amt == 0 || amt > lim || (total + amt > max && max < u128::MAX)) ==> {
                let t = r.unwrap();
                &&& t.pending_mint == s.pending_mint
                &&& t.event_by_number == s.event_by_number
                &&& t.tick_to_numbers == s.tick_to_numbers
                &&& t.balance == s.balance
            }
        }),
{
    let s2 = reveal_prefix_spec(s, id, number, height, timestamp, Some(body), content_type, domain);
    crate::supply::lemma_minted_same(s, s2, p.tick, 0x1_0000_0000);
    lemma_amount_roundtrip(p.amt.unwrap());
}

/// A revealed transfer of a positive amount of a deployed token is staged
/// for the transferring inscription, with a transfer event under its
/// number; a zero amount, or an undeployed tick, stages nothing.
pub proof fn lemma_transfer_stages(
    s: Wjk20State,
    id: (Seq<char>, u32),
    number: u32,
    height: u32,
    timestamp: u32,
    body: Seq<u8>,
    content_type: Option<Seq<char>>,
    domain: Option<Seq<char>>,
    p: ParsedWjk20View,
)
    requires
        parse_body_spec(body) == Some(p),
        p.op == Wjk20Op::Transfer,
        p.amt is Some,
    ensures
        ({
            let r = reveal_spec(s, id, number, height, timestamp, Some(body), content_type, domain);
            let amt = p.amt.unwrap();
            &&& r is Ok
            &&& amt > 0 && s.deploy.contains_key(p.tick) ==> {
                let t = r.unwrap();
                &&& t.pending_transfer.contains_key(id) && t.pending_transfer[id] == (p.tick, amt)
                &&& t.event_by_number.contains_key(number)
                &&& t.event_by_number[number].op == "transfer"@
                &&& t.event_by_number[number].amt matches Some(a) && parse_u128_spec(a) == Some(amt)
                &&& t.balance == s.balance
            }
            &&& (amt == 0 || !s.deploy.contains_key(p.tick)) ==> {
                let t = r.unwrap();
                &&& t.pending_transfer == s.pending_transfer
                &&& t.event_by_number == s.event_by_number
                &&& t.balance == s.balance
            }
        }),
{
    lemma_amount_roundtrip(p.amt.unwrap());
}

/// A plain-text body `{N}.wojakmap` revealed at a height of at least `N`
/// claims block `N` for the inscription, at the reveal's height and
/// timestamp, unless the block is claimed, whose claim then stands.
pub proof fn lemma_claim_records(
    s: Wjk20State,
    id: (Seq<char>, u32),
    height: u32,
    timestamp: u32,
    n: u32,
    content_type: Option<Seq<char>>,
)
    requires
        is_text_plain(content_type),
        n <= height,
    ensures
        ({
            let t = claim_spec(s, id, height, timestamp, Some(encode_utf8(decimal(n as nat) + ".wojakmap"@)), content_type);
            &&& s.wojakmap_claims.contains_key(n) ==> t == s
            &&& !s.wojakmap_claims.contains_key(n) ==> {
                &&& t.wojakmap_claims.contains_key(n)
                &&& t.wojakmap_claims[n].block_number == n
                &&& t.wojakmap_claims[n].owner_inscription_id == id
                &&& t.wojakmap_claims[n].claim_height == height
                &&& t.wojakmap_claims[n].claim_timestamp == timestamp
                &&& t.wojakmap_claims.remove(n) == s.wojakmap_claims
            }
        }),
{
    crate::parse::lemma_wojakmap_body_roundtrip(n);
    let t = claim_spec(s, id, height, timestamp, Some(encode_utf8(decimal(n as nat) + ".wojakmap"@)), content_type);
    if !s.wojakmap_claims.contains_key(n) {
        assert(t.wojakmap_claims.remove(n) =~= s.wojakmap_claims);
    }
}

} // verus!
