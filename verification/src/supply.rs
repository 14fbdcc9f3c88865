//! The supply cap of WJK-20 tokens: a mint is staged only while it keeps
//! the minted supply of its token at most the token's `max`, and nothing
//! else raises a supply.

use crate::ledger::{
    moves, credit_spec, debit_spec, deploy_spec, deployer_spec, first_deploy_of, is_first_deploy_of,
    mint_amount, mint_spec, minted_below, patch_event_spec, placed_spec,
    reveal_prefix_spec, reveal_spec, sent_spec, set_owner_spec, store_event_spec,
    total_minted_spec, transfer_spec, EventPatchView,
};
use crate::parse::{parse_body_spec, ParsedWjk20View, Wjk20Op};
use crate::tables::{cleared_ledger, empty_state, rebuild_spec, id_string, lemma_amount_roundtrip, EventRecordView, Wjk20State};
use crate::text::parse_u128_spec;
use vstd::prelude::*;

verus! {

// ---------------------------------------------------------------------------
// The invariant
// ---------------------------------------------------------------------------

/// Each number that a tick lists holds an event, and the tick is deployed.
/// Every state the ledger reaches holds this (see
/// [`lemma_reveal_keeps_listed`] and the laws of the replay).
pub open spec fn listed_ok(s: Wjk20State) -> bool {
    forall|t: Seq<char>, n: u32|
        #[trigger] s.tick_to_numbers.contains_key((t, n)) ==> s.event_by_number.contains_key(n)
            && s.deploy.contains_key(t)
}

/// The minted supply of each token is at most its `max`.
pub open spec fn supply_ok(s: Wjk20State) -> bool {
    forall|t: Seq<char>|
        #[trigger] s.deploy.contains_key(t) ==> match parse_u128_spec(s.deploy[t].max) {
            Some(m) => total_minted_spec(s, t) <= m,
            None => true,
        }
}

/// The ledger's invariant: listed numbers are consistent and supplies are
/// capped.
pub open spec fn ledger_ok(s: Wjk20State) -> bool {
    listed_ok(s) && supply_ok(s)
}

/// Empty tables, tables whose ledger was just cleared, and tables whose
/// ledger was rebuilt from tables that hold it, hold the invariant.
pub proof fn lemma_cleared_ledger_ok(s: Wjk20State, fresh: Wjk20State)
    ensures
        ledger_ok(empty_state()),
        ledger_ok(cleared_ledger(s)),
        listed_ok(fresh) ==> listed_ok(rebuild_spec(s, fresh)),
        ledger_ok(fresh) ==> ledger_ok(rebuild_spec(s, fresh)),
{
    let t = rebuild_spec(s, fresh);
    if ledger_ok(fresh) {
        assert(ledger_frame(fresh, t));
        lemma_frame_ok(fresh, t);
    }
    if listed_ok(fresh) {
        assert(ledger_frame(fresh, t));
        lemma_frame_listed(fresh, t);
    }
}

// ---------------------------------------------------------------------------
// Sums
// ---------------------------------------------------------------------------

/// Two states that list the same numbers below `b` for `t`, with the same
/// minted amounts, have the same sum below `b`.
pub proof fn lemma_minted_same(s: Wjk20State, s2: Wjk20State, t: Seq<char>, b: nat)
    requires
        b <= 0x1_0000_0000,
        forall|m: u32|
            #![trigger s.tick_to_numbers.contains_key((t, m))]
            #![trigger s2.tick_to_numbers.contains_key((t, m))]
            m < b ==> s.tick_to_numbers.contains_key((t, m)) == s2.tick_to_numbers.contains_key((t, m))
                && (s.tick_to_numbers.contains_key((t, m)) ==> mint_amount(s.event_by_number, m)
                == mint_amount(s2.event_by_number, m)),
    ensures
        minted_below(s, t, b) == minted_below(s2, t, b),
    decreases b,
{
    if b > 0 {
        lemma_minted_same(s, s2, t, (b - 1) as nat);
        assert(s.tick_to_numbers.contains_key((t, (b - 1) as u32)) == s2.tick_to_numbers.contains_key(
            (t, (b - 1) as u32),
        ));
    }
}

/// A tick that lists no number below `b` sums to zero below `b`.
proof fn lemma_minted_none(s: Wjk20State, t: Seq<char>, b: nat)
    requires
        b <= 0x1_0000_0000,
        forall|m: u32| m < b ==> !#[trigger] s.tick_to_numbers.contains_key((t, m)),
    ensures
        minted_below(s, t, b) == 0,
    decreases b,
{
    if b > 0 {
        lemma_minted_none(s, t, (b - 1) as nat);
        assert(!s.tick_to_numbers.contains_key((t, (b - 1) as u32)));
    }
}

/// Listing one more number `n` for `t` adds its minted amount to the sums
/// from `n` on.
proof fn lemma_minted_add(s: Wjk20State, s2: Wjk20State, t: Seq<char>, n: u32, b: nat)
    requires
        b <= 0x1_0000_0000,
        !s.tick_to_numbers.contains_key((t, n)),
        s2.tick_to_numbers.contains_key((t, n)),
        forall|m: u32|
            #![trigger s.tick_to_numbers.contains_key((t, m))]
            #![trigger s2.tick_to_numbers.contains_key((t, m))]
            m != n ==> s.tick_to_numbers.contains_key((t, m)) == s2.tick_to_numbers.contains_key((t, m))
                && (s.tick_to_numbers.contains_key((t, m)) ==> mint_amount(s.event_by_number, m)
                == mint_amount(s2.event_by_number, m)),
    ensures
        minted_below(s2, t, b) == minted_below(s, t, b) + if n < b {
            mint_amount(s2.event_by_number, n)
        } else {
            0
        },
    decreases b,
{
    if b > 0 {
        lemma_minted_add(s, s2, t, n, (b - 1) as nat);
        let m = (b - 1) as u32;
        if m != n {
            assert(s.tick_to_numbers.contains_key((t, m)) == s2.tick_to_numbers.contains_key((t, m)));
        }
    }
}

// ---------------------------------------------------------------------------
// Transitions that leave supplies alone
// ---------------------------------------------------------------------------

/// `t` lists the same numbers as `s`, deploys the same ticks with the same
/// `max`, and holds events at the same numbers with the same operation,
/// amount and tick.
pub open spec fn ledger_frame(s: Wjk20State, t: Wjk20State) -> bool {
    &&& t.tick_to_numbers == s.tick_to_numbers
    &&& t.deploy.dom() == s.deploy.dom()
    &&& forall|k: Seq<char>| #[trigger] t.deploy.contains_key(k) ==> t.deploy[k].max == s.deploy[k].max
    &&& t.event_by_number.dom() == s.event_by_number.dom()
    &&& forall|n: u32|
        #[trigger] t.event_by_number.contains_key(n) ==> t.event_by_number[n].op
            == s.event_by_number[n].op && t.event_by_number[n].amt == s.event_by_number[n].amt
            && t.event_by_number[n].tick == s.event_by_number[n].tick
}

proof fn lemma_frame_ok(s: Wjk20State, t: Wjk20State)
    requires
        ledger_ok(s),
        ledger_frame(s, t),
    ensures
        ledger_ok(t),
{
    assert forall|tk: Seq<char>, n: u32| #[trigger] t.tick_to_numbers.contains_key((tk, n)) implies t.event_by_number.contains_key(n)
        && t.deploy.contains_key(tk) by {
        assert(s.tick_to_numbers.contains_key((tk, n)));
        assert(s.deploy.contains_key(tk));
        assert(s.event_by_number.contains_key(n));
    }
    assert forall|tk: Seq<char>| #[trigger] t.deploy.contains_key(tk) implies match parse_u128_spec(t.deploy[tk].max) {
        Some(m) => total_minted_spec(t, tk) <= m,
        None => true,
    } by {
        assert(s.deploy.contains_key(tk));
        assert forall|m: u32| m < 0x1_0000_0000nat implies (s.tick_to_numbers.contains_key((tk, m))
            == t.tick_to_numbers.contains_key((tk, m)) && (s.tick_to_numbers.contains_key((tk, m))
            ==> mint_amount(s.event_by_number, m) == mint_amount(t.event_by_number, m))) by {
            if s.event_by_number.contains_key(m) {
                assert(t.event_by_number.contains_key(m));
            } else {
                assert(!t.event_by_number.contains_key(m));
            }
        }
        lemma_minted_same(s, t, tk, 0x1_0000_0000);
    }
}

proof fn lemma_frame_trans(s: Wjk20State, t: Wjk20State, u: Wjk20State)
    requires
        ledger_frame(s, t),
        ledger_frame(t, u),
    ensures
        ledger_frame(s, u),
{
    assert forall|n: u32| #[trigger] u.event_by_number.contains_key(n) implies u.event_by_number[n].op
        == s.event_by_number[n].op && u.event_by_number[n].amt == s.event_by_number[n].amt
        && u.event_by_number[n].tick == s.event_by_number[n].tick by {
        assert(t.event_by_number.contains_key(n));
    }
    assert forall|k: Seq<char>| #[trigger] u.deploy.contains_key(k) implies u.deploy[k].max == s.deploy[k].max by {
        assert(t.deploy.contains_key(k));
    }
}

proof fn lemma_patch_frame(s: Wjk20State, number: u32, patch: EventPatchView)
    ensures
        ledger_frame(s, patch_event_spec(s, number, patch)),
{
    let t = patch_event_spec(s, number, patch);
    if s.event_by_number.contains_key(number) {
        assert(t.event_by_number.dom() =~= s.event_by_number.dom());
    }
}

proof fn lemma_deployer_frame(s: Wjk20State, id: (Seq<char>, u32), deployer: Seq<char>)
    ensures
        ledger_frame(s, deployer_spec(s, id, deployer)),
{
    let id_str = id_string(id);
    let t = deployer_spec(s, id, deployer);
    match first_deploy_of(s.deploy, id_str) {
        Some(f) => {
            assert(is_first_deploy_of(s.deploy, id_str, f)) by {
                let c = choose|u: Seq<char>| is_first_deploy_of(s.deploy, id_str, u);
                assert(c == f);
            }
            assert(t.deploy.dom() =~= s.deploy.dom());
        },
        None => {},
    }
}

/// Placing an inscription changes no supply and keeps the invariant.
pub proof fn lemma_placed_keeps_supply(s: Wjk20State, id: (Seq<char>, u32), number: u32, address: Seq<char>)
    requires
        ledger_ok(s),
    ensures
        ledger_ok(placed_spec(s, id, number, address)),
        ledger_frame(s, placed_spec(s, id, number, address)),
{
    lemma_placed_frame(s, id, number, address);
    lemma_frame_ok(s, placed_spec(s, id, number, address));
}

/// Sending an inscription changes no supply and keeps the invariant.
pub proof fn lemma_sent_keeps_supply(
    s: Wjk20State,
    id: (Seq<char>, u32),
    number: u32,
    from: Seq<char>,
    to: Seq<char>,
)
    requires
        ledger_ok(s),
    ensures
        ledger_ok(sent_spec(s, id, number, from, to)),
        ledger_frame(s, sent_spec(s, id, number, from, to)),
{
    lemma_sent_frame(s, id, number, from, to);
    lemma_frame_ok(s, sent_spec(s, id, number, from, to));
}

// ---------------------------------------------------------------------------
// Revealed operations
// ---------------------------------------------------------------------------

/// Storing an event of a deployed tick under a new number keeps the listed
/// numbers consistent, adds the event's minted amount to its tick's sum, and leaves the
/// sums of other ticks alone.
proof fn lemma_store_fresh(s: Wjk20State, n: u32, tick: Seq<char>, ev: EventRecordView)
    requires
        listed_ok(s),
        !s.event_by_number.contains_key(n),
        s.deploy.contains_key(tick),
    ensures
        listed_ok(store_event_spec(s, n, tick, ev)),
        minted_below(store_event_spec(s, n, tick, ev), tick, 0x1_0000_0000) == minted_below(
            s,
            tick,
            0x1_0000_0000,
        ) + mint_amount(store_event_spec(s, n, tick, ev).event_by_number, n),
        forall|t: Seq<char>|
            t != tick ==> #[trigger] minted_below(store_event_spec(s, n, tick, ev), t, 0x1_0000_0000)
                == minted_below(s, t, 0x1_0000_0000),
{
    let s2 = store_event_spec(s, n, tick, ev);
    assert(!s.tick_to_numbers.contains_key((tick, n)));
    assert forall|m: u32|
        #![trigger s.tick_to_numbers.contains_key((tick, m))]
        #![trigger s2.tick_to_numbers.contains_key((tick, m))]
        m != n implies s.tick_to_numbers.contains_key((tick, m)) == s2.tick_to_numbers.contains_key((tick, m))
            && (s.tick_to_numbers.contains_key((tick, m)) ==> mint_amount(s.event_by_number, m)
            == mint_amount(s2.event_by_number, m)) by {
    }
    lemma_minted_add(s, s2, tick, n, 0x1_0000_0000);
    assert forall|t: Seq<char>| t != tick implies #[trigger] minted_below(s2, t, 0x1_0000_0000) == minted_below(
        s,
        t,
        0x1_0000_0000,
    ) by {
        assert forall|m: u32| m < 0x1_0000_0000nat implies (s.tick_to_numbers.contains_key((t, m))
            == s2.tick_to_numbers.contains_key((t, m)) && (s.tick_to_numbers.contains_key((t, m))
            ==> mint_amount(s.event_by_number, m) == mint_amount(s2.event_by_number, m))) by {
            if s.tick_to_numbers.contains_key((t, m)) {
                assert(s.event_by_number.contains_key(m));
            }
        }
        lemma_minted_same(s, s2, t, 0x1_0000_0000);
    }
}

/// Revealing an inscription under a number that holds no event yet never
/// takes a token's minted supply past its `max` (`ledger_ok` is that bound
/// together with [`listed_ok`], which every reachable state holds): a mint is staged only while the supply with it stays within
/// `max`, a deploy starts its token at zero, and a transfer mints nothing.
/// Where the reveal fails, the ledger is left as it was.
pub proof fn lemma_reveal_keeps_supply(
    s: Wjk20State,
    id: (Seq<char>, u32),
    number: u32,
    height: u32,
    timestamp: u32,
    body: Option<Seq<u8>>,
    content_type: Option<Seq<char>>,
    domain: Option<Seq<char>>,
)
    requires
        ledger_ok(s),
        !s.event_by_number.contains_key(number),
    ensures
        ledger_ok(reveal_prefix_spec(s, id, number, height, timestamp, body, content_type, domain)),
        reveal_spec(s, id, number, height, timestamp, body, content_type, domain) matches Ok(t) ==> ledger_ok(t),
{
    reveal_strlit("deploy");
    reveal_strlit("mint");
    reveal_strlit("transfer");
    let s2 = reveal_prefix_spec(s, id, number, height, timestamp, body, content_type, domain);
    assert(ledger_frame(s, s2));
    lemma_frame_ok(s, s2);
    match body {
        None => {},
        Some(b) => match parse_body_spec(b) {
            None => {},
            Some(p) => match p.op {
                Wjk20Op::Deploy => lemma_deploy_keeps_supply(s2, id, number, height, p),
                Wjk20Op::Mint => lemma_mint_keeps_supply(s2, id, number, height, p),
                Wjk20Op::Transfer => lemma_transfer_keeps_supply(s2, id, number, height, p),
            },
        },
    }
}

proof fn lemma_deploy_keeps_supply(s: Wjk20State, id: (Seq<char>, u32), number: u32, height: u32, p: ParsedWjk20View)
    requires
        ledger_ok(s),
        !s.event_by_number.contains_key(number),
    ensures
        ledger_ok(deploy_spec(s, id, number, height, p)),
{
    reveal_strlit("deploy");
    reveal_strlit("mint");
    let t = deploy_spec(s, id, number, height, p);
    if !s.deploy.contains_key(p.tick) {
        match (p.max, p.lim) {
            (Some(max), Some(lim)) => {
                if !(max == 0 || lim == 0 || max < lim) {
                    let rec = t.deploy[p.tick];
                    let s3 = Wjk20State { deploy: s.deploy.insert(p.tick, rec), ..s };
                    let ev = t.event_by_number[number];
                    assert(t == store_event_spec(s3, number, p.tick, ev));
                    assert(listed_ok(s3)) by {
                        assert forall|tk: Seq<char>, n: u32| #[trigger] s3.tick_to_numbers.contains_key((tk, n)) implies s3.event_by_number.contains_key(n)
                            && s3.deploy.contains_key(tk) by {
                            assert(s.tick_to_numbers.contains_key((tk, n)));
                        }
                    }
                    lemma_store_fresh(s3, number, p.tick, ev);
                    assert(mint_amount(t.event_by_number, number) == 0);
                    assert forall|m: u32| m < 0x1_0000_0000nat implies !#[trigger] s3.tick_to_numbers.contains_key(
                        (p.tick, m),
                    ) by {
                        if s.tick_to_numbers.contains_key((p.tick, m)) {
                            assert(s.deploy.contains_key(p.tick));
                        }
                    }
                    lemma_minted_none(s3, p.tick, 0x1_0000_0000);
                    lemma_amount_roundtrip(max);
                    assert forall|tk: Seq<char>| #[trigger] t.deploy.contains_key(tk) implies match parse_u128_spec(
                        t.deploy[tk].max,
                    ) {
                        Some(m) => total_minted_spec(t, tk) <= m,
                        None => true,
                    } by {
                        if tk != p.tick {
                            assert(s.deploy.contains_key(tk));
                            assert(minted_below(t, tk, 0x1_0000_0000) == minted_below(s3, tk, 0x1_0000_0000));
                            assert(minted_below(s3, tk, 0x1_0000_0000) == minted_below(s, tk, 0x1_0000_0000)) by {
                                lemma_minted_same(s, s3, tk, 0x1_0000_0000);
                            }
                        }
                    }
                }
            },
            _ => {},
        }
    }
}

proof fn lemma_mint_keeps_supply(s: Wjk20State, id: (Seq<char>, u32), number: u32, height: u32, p: ParsedWjk20View)
    requires
        ledger_ok(s),
        !s.event_by_number.contains_key(number),
    ensures
        mint_spec(s, id, number, height, p) matches Ok(t) ==> ledger_ok(t),
{
    reveal_strlit("mint");
    match mint_spec(s, id, number, height, p) {
        Ok(t) => {
            if t != s {
                let amt = p.amt.unwrap();
                let d = s.deploy[p.tick];
                let max = parse_u128_spec(d.max).unwrap();
                let s3 = Wjk20State { pending_mint: s.pending_mint.insert(id, (p.tick, amt)), ..s };
                let ev = t.event_by_number[number];
                assert(t == store_event_spec(s3, number, p.tick, ev));
                assert(ledger_frame(s, s3));
                lemma_frame_ok(s, s3);
                lemma_store_fresh(s3, number, p.tick, ev);
                lemma_amount_roundtrip(amt);
                assert(mint_amount(t.event_by_number, number) == amt);
                assert(minted_below(s3, p.tick, 0x1_0000_0000) == minted_below(s, p.tick, 0x1_0000_0000)) by {
                    lemma_minted_same(s, s3, p.tick, 0x1_0000_0000);
                }
                assert(total_minted_spec(t, p.tick) <= max);
                assert forall|tk: Seq<char>| #[trigger] t.deploy.contains_key(tk) implies match parse_u128_spec(
                    t.deploy[tk].max,
                ) {
                    Some(m) => total_minted_spec(t, tk) <= m,
                    None => true,
                } by {
                    if tk != p.tick {
                        assert(s3.deploy.contains_key(tk));
                        assert(minted_below(t, tk, 0x1_0000_0000) == minted_below(s3, tk, 0x1_0000_0000));
                    }
                }
            }
        },
        Err(_) => {},
    }
}

proof fn lemma_transfer_keeps_supply(s: Wjk20State, id: (Seq<char>, u32), number: u32, height: u32, p: ParsedWjk20View)
    requires
        ledger_ok(s),
        !s.event_by_number.contains_key(number),
    ensures
        ledger_ok(transfer_spec(s, id, number, height, p)),
{
    reveal_strlit("mint");
    reveal_strlit("transfer");
    let t = transfer_spec(s, id, number, height, p);
    if t != s {
        let amt = p.amt.unwrap();
        let s3 = Wjk20State { pending_transfer: s.pending_transfer.insert(id, (p.tick, amt)), ..s };
        let ev = t.event_by_number[number];
        assert(t == store_event_spec(s3, number, p.tick, ev));
        assert(ledger_frame(s, s3));
        lemma_frame_ok(s, s3);
        lemma_store_fresh(s3, number, p.tick, ev);
        assert(t.event_by_number[number].op == "transfer"@);
        assert("transfer"@ != "mint"@) by {
            assert("transfer"@.len() != "mint"@.len());
        }
        assert(mint_amount(t.event_by_number, number) == 0);
        assert forall|tk: Seq<char>| #[trigger] t.deploy.contains_key(tk) implies match parse_u128_spec(
            t.deploy[tk].max,
        ) {
            Some(m) => total_minted_spec(t, tk) <= m,
            None => true,
        } by {
            assert(s3.deploy.contains_key(tk));
            if tk != p.tick {
                assert(minted_below(t, tk, 0x1_0000_0000) == minted_below(s3, tk, 0x1_0000_0000));
            }
        }
    }
}

// ---------------------------------------------------------------------------
// Listed numbers in every reachable state
// ---------------------------------------------------------------------------

proof fn lemma_store_listed(s: Wjk20State, n: u32, tick: Seq<char>, ev: EventRecordView)
    requires
        listed_ok(s),
        s.deploy.contains_key(tick),
    ensures
        listed_ok(store_event_spec(s, n, tick, ev)),
{
    let t = store_event_spec(s, n, tick, ev);
    assert forall|tk: Seq<char>, m: u32| #[trigger] t.tick_to_numbers.contains_key((tk, m)) implies t.event_by_number.contains_key(m)
        && t.deploy.contains_key(tk) by {
        if (tk, m) != (tick, n) {
            assert(s.tick_to_numbers.contains_key((tk, m)));
        }
    }
}

/// Whatever number it comes under, a revealed inscription keeps the listed
/// numbers consistent: each number a tick lists holds an event, and the
/// tick is deployed. With [`lemma_cleared_ledger_ok`], the frame lemmas
/// below and the replay laws, this holds of every state the ledger
/// reaches.
pub proof fn lemma_reveal_keeps_listed(
    s: Wjk20State,
    id: (Seq<char>, u32),
    number: u32,
    height: u32,
    timestamp: u32,
    body: Option<Seq<u8>>,
    content_type: Option<Seq<char>>,
    domain: Option<Seq<char>>,
)
    requires
        listed_ok(s),
    ensures
        listed_ok(reveal_prefix_spec(s, id, number, height, timestamp, body, content_type, domain)),
        reveal_spec(s, id, number, height, timestamp, body, content_type, domain) matches Ok(t) ==> listed_ok(t),
{
    let s2 = reveal_prefix_spec(s, id, number, height, timestamp, body, content_type, domain);
    assert(ledger_frame(s, s2));
    lemma_frame_listed(s, s2);
    match body {
        None => {},
        Some(b) => match parse_body_spec(b) {
            None => {},
            Some(p) => match p.op {
                Wjk20Op::Deploy => {
                    let t = deploy_spec(s2, id, number, height, p);
                    if t != s2 {
                        let s3 = Wjk20State { deploy: s2.deploy.insert(p.tick, t.deploy[p.tick]), ..s2 };
                        assert(t == store_event_spec(s3, number, p.tick, t.event_by_number[number]));
                        assert(listed_ok(s3)) by {
                            assert forall|tk: Seq<char>, n: u32| #[trigger] s3.tick_to_numbers.contains_key((tk, n)) implies s3.event_by_number.contains_key(n)
                                && s3.deploy.contains_key(tk) by {
                                assert(s2.tick_to_numbers.contains_key((tk, n)));
                            }
                        }
                        lemma_store_listed(s3, number, p.tick, t.event_by_number[number]);
                    }
                },
                Wjk20Op::Mint => {
                    match mint_spec(s2, id, number, height, p) {
                        Ok(t) => {
                            if t != s2 {
                                let s3 = Wjk20State {
                                    pending_mint: s2.pending_mint.insert(id, (p.tick, p.amt.unwrap())),
                                    ..s2
                                };
                                assert(t == store_event_spec(s3, number, p.tick, t.event_by_number[number]));
                                assert(ledger_frame(s2, s3));
                                lemma_frame_listed(s2, s3);
                                lemma_store_listed(s3, number, p.tick, t.event_by_number[number]);
                            }
                        },
                        Err(_) => {},
                    }
                },
                Wjk20Op::Transfer => {
                    let t = transfer_spec(s2, id, number, height, p);
                    if t != s2 {
                        let s3 = Wjk20State {
                            pending_transfer: s2.pending_transfer.insert(id, (p.tick, p.amt.unwrap())),
                            ..s2
                        };
                        assert(t == store_event_spec(s3, number, p.tick, t.event_by_number[number]));
                        assert(ledger_frame(s2, s3));
                        lemma_frame_listed(s2, s3);
                        lemma_store_listed(s3, number, p.tick, t.event_by_number[number]);
                    }
                },
            },
        },
    }
}

/// Placing an inscription keeps the ledger's numbers, deploys' `max` and
/// events' operations, amounts and ticks.
pub proof fn lemma_placed_frame(s: Wjk20State, id: (Seq<char>, u32), number: u32, address: Seq<char>)
    ensures
        ledger_frame(s, placed_spec(s, id, number, address)),
{
    let s1 = set_owner_spec(s, id, address);
    assert(ledger_frame(s, s1));
    let s2 = patch_event_spec(s1, number, EventPatchView::Placed(address));
    lemma_patch_frame(s1, number, EventPatchView::Placed(address));
    let s3 = deployer_spec(s2, id, address);
    lemma_deployer_frame(s2, id, address);
    lemma_frame_trans(s, s1, s2);
    lemma_frame_trans(s, s2, s3);
    let t = placed_spec(s, id, number, address);
    assert(ledger_frame(s3, t));
    lemma_frame_trans(s, s3, t);
}

/// Sending an inscription keeps the ledger's numbers, deploys' `max` and
/// events' operations, amounts and ticks.
pub proof fn lemma_sent_frame(s: Wjk20State, id: (Seq<char>, u32), number: u32, from: Seq<char>, to: Seq<char>)
    ensures
        ledger_frame(s, sent_spec(s, id, number, from, to)),
{
    let t = sent_spec(s, id, number, from, to);
    if moves(from, to) {
        let s1 = set_owner_spec(s, id, to);
        assert(ledger_frame(s, s1));
        if s1.pending_transfer.contains_key(id) {
            let p = s1.pending_transfer[id];
            let s3 = credit_spec(debit_spec(s1, p.0, from, p.1), p.0, to, p.1);
            let s4 = Wjk20State { pending_transfer: s3.pending_transfer.remove(id), ..s3 };
            assert(ledger_frame(s, s4));
            lemma_patch_frame(s4, number, EventPatchView::Sent(from, to));
            lemma_frame_trans(s, s4, t);
        }
    }
}

/// Frames keep the listed numbers consistent.
pub proof fn lemma_frame_listed(s: Wjk20State, t: Wjk20State)
    requires
        listed_ok(s),
        ledger_frame(s, t),
    ensures
        listed_ok(t),
{
    assert forall|tk: Seq<char>, n: u32| #[trigger] t.tick_to_numbers.contains_key((tk, n)) implies t.event_by_number.contains_key(n)
        && t.deploy.contains_key(tk) by {
        assert(s.tick_to_numbers.contains_key((tk, n)));
        assert(s.deploy.contains_key(tk));
        assert(s.event_by_number.contains_key(n));
    }
}

} // verus!
