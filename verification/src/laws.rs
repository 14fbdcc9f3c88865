//! What every transition of the ledger keeps: a wojakmap claim, once made,
//! stands; a domain's registration, once made, stands (only its owner
//! changes); each claim names the block it is stored under; and the index
//! of owners lists exactly the owners of registered domains.

use crate::chain::Network;
use crate::ledger::{
    balance_key_of, balance_spec, claim_spec, deployer_spec, first_deploy_of, indexed_owner,
    is_first_deploy_of, lemma_first_deploy_unique, patch_event_spec, placed_spec,
    register_domain_spec, reveal_prefix_spec, reveal_spec, sent_spec, set_owner_spec,
    EventPatchView,
};
use crate::read::{domains_of, owned_domain, owned_entry};
use crate::supply::{lemma_frame_listed, lemma_placed_frame, lemma_reveal_keeps_listed, lemma_sent_frame, listed_ok};
use crate::tables::Wjk20WriteTables;
use crate::text::{lower, lower_char};
use crate::replay::{
    outputs_spec, place_spec, replay_block_spec, replay_tx_spec, replay_txs_spec, BlockData, Flot,
    IdV, ReplayCtx, TxView,
};
use crate::tables::{DeployRecordView, DomainRecordView, Wjk20State};
use vstd::prelude::*;

verus! {

// ---------------------------------------------------------------------------
// The properties
// ---------------------------------------------------------------------------

/// Every claim of `s` stands unchanged in `t`.
pub open spec fn claims_kept(s: Wjk20State, t: Wjk20State) -> bool {
    forall|n: u32|
        #[trigger] s.wojakmap_claims.contains_key(n) ==> t.wojakmap_claims.contains_key(n)
            && t.wojakmap_claims[n] == s.wojakmap_claims[n]
}

/// Each claim is of the block it is stored under, and was made at or above
/// that block's height.
pub open spec fn claims_ok(s: Wjk20State) -> bool {
    forall|n: u32|
        #[trigger] s.wojakmap_claims.contains_key(n) ==> s.wojakmap_claims[n].block_number == n
            && n <= s.wojakmap_claims[n].claim_height
}

/// `b` is the registration `a` with perhaps another owner.
pub open spec fn same_registration(a: DomainRecordView, b: DomainRecordView) -> bool {
    b == DomainRecordView { owner_address: b.owner_address, ..a }
}

/// Every domain registered in `s` is registered in `t`, with the same
/// registration.
pub open spec fn domains_kept(s: Wjk20State, t: Wjk20State) -> bool {
    forall|n: Seq<char>|
        #[trigger] s.domain_name.contains_key(n) ==> t.domain_name.contains_key(n)
            && same_registration(s.domain_name[n], t.domain_name[n])
}

/// Each domain is stored under its name, and the index of owners holds
/// `(a, n)` exactly where `n` is registered to `a` and `a` is an address
/// that the index lists.
pub open spec fn registry_ok(s: Wjk20State) -> bool {
    &&& forall|n: Seq<char>| #[trigger] s.domain_name.contains_key(n) ==> s.domain_name[n].name == n
    &&& owner_index_ok(s)
}

/// The index of owners holds `(a, n)` exactly where `n` is registered to
/// `a` and `a` is an address that the index lists.
pub open spec fn owner_index_ok(s: Wjk20State) -> bool {
    &&& forall|a: Seq<char>, n: Seq<char>|
        #[trigger] s.domain_address_to_names.contains_key((a, n)) ==> s.domain_name.contains_key(n)
            && s.domain_name[n].owner_address == a && indexed_owner(a)
    &&& forall|n: Seq<char>|
        #[trigger] s.domain_name.contains_key(n) && indexed_owner(s.domain_name[n].owner_address)
            ==> s.domain_address_to_names.contains_key((s.domain_name[n].owner_address, n))
}

/// `b` is the deploy `a` with perhaps another deployer recorded.
pub open spec fn same_deploy(a: DeployRecordView, b: DeployRecordView) -> bool {
    b == DeployRecordView { deployer: b.deployer, ..a }
}

/// Every token deployed in `s` is deployed in `t`, with the same tick,
/// supply, limit, decimals and deploy inscription.
pub open spec fn deploys_kept(s: Wjk20State, t: Wjk20State) -> bool {
    forall|k: Seq<char>|
        #[trigger] s.deploy.contains_key(k) ==> t.deploy.contains_key(k) && same_deploy(
            s.deploy[k],
            t.deploy[k],
        )
}

/// `t` keeps what `s` holds: its claims, registrations and deploys stand,
/// and the invariants of the claims, the registry and the listed numbers
/// carry over.
pub open spec fn kept(s: Wjk20State, t: Wjk20State) -> bool {
    &&& claims_kept(s, t)
    &&& domains_kept(s, t)
    &&& deploys_kept(s, t)
    &&& claims_ok(s) ==> claims_ok(t)
    &&& registry_ok(s) ==> registry_ok(t)
    &&& listed_ok(s) ==> listed_ok(t)
    &&& crate::read::deploys_under_tick(s) ==> crate::read::deploys_under_tick(t)
}

/// `t` differs from `s` only outside the claims and the registry.
pub open spec fn registry_frame(s: Wjk20State, t: Wjk20State) -> bool {
    &&& t.wojakmap_claims == s.wojakmap_claims
    &&& t.domain_name == s.domain_name
    &&& t.domain_address_to_names == s.domain_address_to_names
}

// ---------------------------------------------------------------------------
// Single transitions
// ---------------------------------------------------------------------------

proof fn lemma_kept_trans(s: Wjk20State, t: Wjk20State, u: Wjk20State)
    requires
        kept(s, t),
        kept(t, u),
    ensures
        kept(s, u),
{
    assert forall|n: Seq<char>| #[trigger] s.domain_name.contains_key(n) implies u.domain_name.contains_key(n)
        && same_registration(s.domain_name[n], u.domain_name[n]) by {
        assert(t.domain_name.contains_key(n));
    }
    assert forall|n: u32| #[trigger] s.wojakmap_claims.contains_key(n) implies u.wojakmap_claims.contains_key(n)
        && u.wojakmap_claims[n] == s.wojakmap_claims[n] by {
        assert(t.wojakmap_claims.contains_key(n));
    }
    assert forall|k: Seq<char>| #[trigger] s.deploy.contains_key(k) implies u.deploy.contains_key(k)
        && same_deploy(s.deploy[k], u.deploy[k]) by {
        assert(t.deploy.contains_key(k));
    }
}

/// Recording a deployer changes nothing else of a deploy.
proof fn lemma_deployer_kept(s: Wjk20State, id: IdV, deployer: Seq<char>)
    ensures
        deploys_kept(s, deployer_spec(s, id, deployer)),
        registry_frame(s, deployer_spec(s, id, deployer)),
{
    let id_str = crate::tables::id_string(id);
    match first_deploy_of(s.deploy, id_str) {
        Some(f) => {
            assert(is_first_deploy_of(s.deploy, id_str, f)) by {
                let c = choose|u: Seq<char>| is_first_deploy_of(s.deploy, id_str, u);
                assert(c == f);
            }
        },
        None => {},
    }
}

/// The WJK-20 operation of a revealed body only adds tokens.
proof fn lemma_operation_kept(
    s: Wjk20State,
    id: IdV,
    number: u32,
    height: u32,
    timestamp: u32,
    body: Option<Seq<u8>>,
    content_type: Option<Seq<char>>,
    domain: Option<Seq<char>>,
)
    ensures
        reveal_spec(s, id, number, height, timestamp, body, content_type, domain) matches Ok(t) ==> {
            let s2 = reveal_prefix_spec(s, id, number, height, timestamp, body, content_type, domain);
            registry_frame(s2, t) && deploys_kept(s2, t)
        },
{
}

proof fn lemma_claim_kept(
    s: Wjk20State,
    id: IdV,
    height: u32,
    timestamp: u32,
    body: Option<Seq<u8>>,
    content_type: Option<Seq<char>>,
)
    ensures
        kept(s, claim_spec(s, id, height, timestamp, body, content_type)),
{
    let t = claim_spec(s, id, height, timestamp, body, content_type);
    assert forall|n: u32| #[trigger] s.wojakmap_claims.contains_key(n) implies t.wojakmap_claims.contains_key(n)
        && t.wojakmap_claims[n] == s.wojakmap_claims[n] by {
    }
}

proof fn lemma_register_kept(
    s: Wjk20State,
    id: IdV,
    number: u32,
    height: u32,
    timestamp: u32,
    name: Option<Seq<char>>,
)
    ensures
        kept(s, register_domain_spec(s, id, number, height, timestamp, name)),
{
    let t = register_domain_spec(s, id, number, height, timestamp, name);
    match name {
        None => {},
        Some(nm) => {
            if !s.domain_name.contains_key(nm) {
                assert(!indexed_owner(Seq::<char>::empty()));
                if registry_ok(s) {
                    assert forall|a: Seq<char>, n: Seq<char>|
                        #[trigger] t.domain_address_to_names.contains_key((a, n)) implies t.domain_name.contains_key(n)
                        && t.domain_name[n].owner_address == a && indexed_owner(a) by {
                        assert(s.domain_name.contains_key(n));
                    }
                }
            }
        },
    }
}

proof fn lemma_set_owner_kept(s: Wjk20State, id: IdV, address: Seq<char>)
    ensures
        kept(s, set_owner_spec(s, id, address)),
{
    let t = set_owner_spec(s, id, address);
    if s.domain_id_to_name.contains_key(id) {
        let name = s.domain_id_to_name[id];
        if s.domain_name.contains_key(name) {
            let rec = s.domain_name[name];
            if rec.owner_address != address {
                assert(same_registration(rec, t.domain_name[name]));
                if registry_ok(s) {
                    assert forall|a: Seq<char>, n: Seq<char>|
                        #[trigger] t.domain_address_to_names.contains_key((a, n)) implies t.domain_name.contains_key(n)
                        && t.domain_name[n].owner_address == a && indexed_owner(a) by {
                        if n == name {
                            if a != address {
                                assert(s.domain_address_to_names.contains_key((a, n)));
                                assert(a == rec.owner_address);
                            }
                        } else {
                            assert(s.domain_address_to_names.contains_key((a, n)));
                        }
                    }
                    assert forall|n: Seq<char>|
                        #[trigger] t.domain_name.contains_key(n) && indexed_owner(t.domain_name[n].owner_address)
                        implies t.domain_address_to_names.contains_key((t.domain_name[n].owner_address, n)) by {
                        if n != name {
                            assert(s.domain_name.contains_key(n));
                            assert(s.domain_address_to_names.contains_key((s.domain_name[n].owner_address, n)));
                        }
                    }
                    assert forall|n: Seq<char>| #[trigger] t.domain_name.contains_key(n) implies t.domain_name[n].name
                        == n by {
                        assert(s.domain_name.contains_key(n));
                    }
                }
            }
        }
    }
}

proof fn lemma_reveal_prefix_kept(
    s: Wjk20State,
    id: IdV,
    number: u32,
    height: u32,
    timestamp: u32,
    body: Option<Seq<u8>>,
    content_type: Option<Seq<char>>,
    domain: Option<Seq<char>>,
)
    ensures
        kept(s, reveal_prefix_spec(s, id, number, height, timestamp, body, content_type, domain)),
{
    let s1 = claim_spec(s, id, height, timestamp, body, content_type);
    lemma_claim_kept(s, id, height, timestamp, body, content_type);
    lemma_register_kept(s1, id, number, height, timestamp, domain);
    lemma_kept_trans(s, s1, register_domain_spec(s1, id, number, height, timestamp, domain));
}

proof fn lemma_reveal_kept(
    s: Wjk20State,
    id: IdV,
    number: u32,
    height: u32,
    timestamp: u32,
    body: Option<Seq<u8>>,
    content_type: Option<Seq<char>>,
    domain: Option<Seq<char>>,
)
    ensures
        reveal_spec(s, id, number, height, timestamp, body, content_type, domain) matches Ok(t) ==> kept(s, t),
{
    let s2 = reveal_prefix_spec(s, id, number, height, timestamp, body, content_type, domain);
    lemma_reveal_prefix_kept(s, id, number, height, timestamp, body, content_type, domain);
    lemma_operation_kept(s, id, number, height, timestamp, body, content_type, domain);
    if listed_ok(s) {
        lemma_reveal_keeps_listed(s, id, number, height, timestamp, body, content_type, domain);
    }
    match reveal_spec(s, id, number, height, timestamp, body, content_type, domain) {
        Ok(t) => {
            assert(kept(s2, t));
            lemma_kept_trans(s, s2, t);
        },
        Err(_) => {},
    }
}

proof fn lemma_placed_kept(s: Wjk20State, id: IdV, number: u32, address: Seq<char>)
    ensures
        kept(s, placed_spec(s, id, number, address)),
{
    let s1 = set_owner_spec(s, id, address);
    lemma_set_owner_kept(s, id, address);
    let s2 = patch_event_spec(s1, number, EventPatchView::Placed(address));
    lemma_deployer_kept(s2, id, address);
    let t = placed_spec(s, id, number, address);
    lemma_placed_frame(s, id, number, address);
    if listed_ok(s) {
        lemma_frame_listed(s, t);
    }
    assert(registry_frame(s1, t));
    lemma_kept_trans(s, s1, t);
}

proof fn lemma_sent_kept(s: Wjk20State, id: IdV, number: u32, from: Seq<char>, to: Seq<char>)
    ensures
        kept(s, sent_spec(s, id, number, from, to)),
{
    if !(from == to || from == "unbound"@ || to == "unbound"@) {
        let s1 = set_owner_spec(s, id, to);
        lemma_set_owner_kept(s, id, to);
        let t = sent_spec(s, id, number, from, to);
        lemma_sent_frame(s, id, number, from, to);
        if listed_ok(s) {
            lemma_frame_listed(s, t);
        }
        assert(registry_frame(s1, t));
        lemma_kept_trans(s, s1, t);
    }
}

/// One change of owner keeps the index of owners in step: the domain that
/// the inscription registered now belongs to `address` with its
/// registration unchanged, every other domain stays as it was, and the
/// index lists exactly the indexed owners of registered domains.
pub proof fn lemma_owner_change(s: Wjk20State, id: IdV, address: Seq<char>)
    requires
        owner_index_ok(s),
    ensures
        ({
            let t = set_owner_spec(s, id, address);
            &&& owner_index_ok(t)
            &&& registry_ok(s) ==> registry_ok(t)
            &&& domains_kept(s, t)
            &&& t.domain_name.dom() == s.domain_name.dom()
            &&& s.domain_id_to_name.contains_key(id) && s.domain_name.contains_key(s.domain_id_to_name[id])
                ==> t.domain_name[s.domain_id_to_name[id]].owner_address == address
            &&& forall|n: Seq<char>|
                #[trigger] s.domain_name.contains_key(n) && !(s.domain_id_to_name.contains_key(id)
                    && n == s.domain_id_to_name[id]) ==> t.domain_name[n] == s.domain_name[n]
        }),
{
    lemma_set_owner_kept(s, id, address);
    let t = set_owner_spec(s, id, address);
    if s.domain_id_to_name.contains_key(id) {
        let name = s.domain_id_to_name[id];
        if s.domain_name.contains_key(name) {
            assert(t.domain_name.dom() =~= s.domain_name.dom());
            let rec = s.domain_name[name];
            if rec.owner_address != address {
                assert forall|a: Seq<char>, n: Seq<char>|
                    #[trigger] t.domain_address_to_names.contains_key((a, n)) implies t.domain_name.contains_key(n)
                    && t.domain_name[n].owner_address == a && indexed_owner(a) by {
                    if n == name {
                        if a != address {
                            assert(s.domain_address_to_names.contains_key((a, n)));
                            assert(a == rec.owner_address);
                        }
                    } else {
                        assert(s.domain_address_to_names.contains_key((a, n)));
                    }
                }
                assert forall|n: Seq<char>|
                    #[trigger] t.domain_name.contains_key(n) && indexed_owner(t.domain_name[n].owner_address)
                    implies t.domain_address_to_names.contains_key((t.domain_name[n].owner_address, n)) by {
                    if n != name {
                        assert(s.domain_name.contains_key(n));
                        assert(s.domain_address_to_names.contains_key((s.domain_name[n].owner_address, n)));
                    }
                }
            }
        }
    }
}

// ---------------------------------------------------------------------------
// The replay
// ---------------------------------------------------------------------------

proof fn lemma_place_kept(
    c: ReplayCtx,
    tx: TxView,
    f: Flot,
    newi: Option<(IdV, u32)>,
    height: u32,
    timestamp: u32,
    network: Network,
    i: int,
    ov: int,
)
    ensures
        kept(c.state, place_spec(c, tx, f, newi, height, timestamp, network, i, ov).1.state),
{
    let r = place_spec(c, tx, f, newi, height, timestamp, network, i, ov);
    if f.2 {
        match newi {
            Some(n) => {
                if f.0 == n.0 {
                    let body = crate::replay::inscription_body(tx);
                    let domain = crate::replay::inscription_domain(tx);
                    let content_type = crate::replay::inscription_content_type(tx);
                    lemma_reveal_kept(c.state, n.0, n.1, height, timestamp, body, content_type, domain);
                    lemma_reveal_prefix_kept(c.state, n.0, n.1, height, timestamp, body, content_type, domain);
                    match reveal_spec(c.state, n.0, n.1, height, timestamp, body, content_type, domain) {
                        Ok(s1) => {
                            let address = crate::replay::output_address(tx, i, network);
                            lemma_placed_kept(s1, n.0, n.1, address);
                            lemma_kept_trans(c.state, s1, placed_spec(s1, n.0, n.1, address));
                        },
                        Err(_) => {},
                    }
                }
            },
            None => {},
        }
    } else if c.addrs.contains_key(f.0) {
        let from = c.addrs[f.0];
        let address = crate::replay::output_address(tx, i, network);
        match crate::ledger::number_for_id_spec(c.state.event_by_number, crate::tables::id_string(f.0)) {
            Some(num) => {
                lemma_sent_kept(c.state, f.0, num, from, address);
            },
            None => {
                if crate::ledger::moves(from, address) {
                    lemma_set_owner_kept(c.state, f.0, address);
                }
            },
        }
    }
}

proof fn lemma_outputs_kept(
    c: ReplayCtx,
    tx: TxView,
    flot: Seq<Flot>,
    newi: Option<(IdV, u32)>,
    height: u32,
    timestamp: u32,
    network: Network,
    i: int,
    j: int,
    ov: int,
)
    ensures
        kept(c.state, outputs_spec(c, tx, flot, newi, height, timestamp, network, i, j, ov).1.state),
    decreases tx.outputs.len() - i, flot.len() - j,
{
    if i < 0 || i >= tx.outputs.len() {
    } else if 0 <= j < flot.len() && flot[j].1 < ov + tx.outputs[i].0 {
        let r = place_spec(c, tx, flot[j], newi, height, timestamp, network, i, ov);
        lemma_place_kept(c, tx, flot[j], newi, height, timestamp, network, i, ov);
        match r.0 {
            Err(_) => {},
            Ok(_) => {
                lemma_outputs_kept(r.1, tx, flot, newi, height, timestamp, network, i, j + 1, ov);
                lemma_kept_trans(
                    c.state,
                    r.1.state,
                    outputs_spec(r.1, tx, flot, newi, height, timestamp, network, i, j + 1, ov).1.state,
                );
            },
        }
    } else {
        lemma_outputs_kept(c, tx, flot, newi, height, timestamp, network, i + 1, j, ov + tx.outputs[i].0);
    }
}

proof fn lemma_tx_kept(c: ReplayCtx, tx: TxView, height: u32, timestamp: u32, subsidy: u64, network: Network)
    ensures
        kept(c.state, replay_tx_spec(c, tx, height, timestamp, subsidy, network).1.state),
{
    let ins = crate::replay::inputs_spec(c.sat, c.addrs, tx.inputs, subsidy);
    match tx.inscription {
        Some(_) => {
            let id = (tx.txid, 0u32);
            let number = match tx.known_number {
                Some(n) => n,
                None => c.next_number,
            };
            lemma_outputs_kept(
                ReplayCtx {
                    sat: ins.0,
                    next_number: crate::replay::bump_number(c.next_number, number),
                    ..c
                },
                tx,
                ins.1.push((id, 0u64, true)),
                Some((id, number)),
                height,
                timestamp,
                network,
                0,
                0,
                0,
            );
        },
        None => {
            lemma_outputs_kept(
                ReplayCtx { sat: ins.0, ..c },
                tx,
                ins.1,
                None,
                height,
                timestamp,
                network,
                0,
                0,
                0,
            );
        },
    }
}

proof fn lemma_txs_kept(
    c: ReplayCtx,
    txs: Seq<TxView>,
    height: u32,
    timestamp: u32,
    subsidy: u64,
    network: Network,
)
    ensures
        kept(c.state, replay_txs_spec(c, txs, height, timestamp, subsidy, network).1.state),
    decreases txs.len(),
{
    if txs.len() > 0 {
        let r = replay_txs_spec(c, txs.drop_last(), height, timestamp, subsidy, network);
        lemma_txs_kept(c, txs.drop_last(), height, timestamp, subsidy, network);
        match r.0 {
            Err(_) => {},
            Ok(_) => {
                lemma_tx_kept(r.1, txs.last(), height, timestamp, subsidy, network);
                lemma_kept_trans(
                    c.state,
                    r.1.state,
                    replay_tx_spec(r.1, txs.last(), height, timestamp, subsidy, network).1.state,
                );
            },
        }
    }
}

/// Replaying a block keeps what came before: every wojakmap claim made
/// before stands unchanged (the first claim of a block wins), every domain
/// registered before keeps its registration (only its owner may change),
/// every token deployed before keeps its deploy (only its deployer may be
/// recorded), each claim stays on the block it names and at or above it,
/// the index of owners stays in step with the owners, and each number a
/// tick lists holds an event of a deployed tick. This holds
/// whether the replay succeeds or stops at an error.
pub proof fn lemma_replay_keeps_history(
    s: Wjk20State,
    sat: Map<((Seq<char>, u32), u64), IdV>,
    addrs: Map<IdV, Seq<char>>,
    height: u32,
    block: &BlockData,
    network: Network,
)
    ensures
        kept(s, replay_block_spec(s, sat, addrs, height, block, network).1.state),
{
    lemma_txs_kept(
        ReplayCtx { state: s, sat, addrs, next_number: 0 },
        crate::replay::block_order(crate::replay::block_txs(block)),
        height,
        block.time,
        block.subsidy,
        network,
    );
}

/// Only a `text/plain` body claims a block: a revealed inscription of any
/// other content type, or of none, leaves the claims as they were.
pub proof fn lemma_claim_needs_text_plain(
    s: Wjk20State,
    id: IdV,
    number: u32,
    height: u32,
    timestamp: u32,
    body: Option<Seq<u8>>,
    content_type: Option<Seq<char>>,
    domain: Option<Seq<char>>,
)
    requires
        !crate::ledger::is_text_plain(content_type),
    ensures
        reveal_prefix_spec(s, id, number, height, timestamp, body, content_type, domain).wojakmap_claims
            == s.wojakmap_claims,
        reveal_spec(s, id, number, height, timestamp, body, content_type, domain) matches Ok(t)
            ==> t.wojakmap_claims == s.wojakmap_claims,
{
}

// ---------------------------------------------------------------------------
// Sends across blocks
// ---------------------------------------------------------------------------

/// With no inscription in transit, walking the outputs changes nothing.
proof fn lemma_outputs_empty(
    c: ReplayCtx,
    tx: TxView,
    newi: Option<(IdV, u32)>,
    height: u32,
    timestamp: u32,
    network: Network,
    i: int,
    ov: int,
)
    ensures
        outputs_spec(c, tx, Seq::<Flot>::empty(), newi, height, timestamp, network, i, 0, ov) == (
            Ok::<(), crate::tables::Wjk20Error>(()),
            c,
        ),
    decreases tx.outputs.len() - i,
{
    if 0 <= i < tx.outputs.len() {
        lemma_outputs_empty(c, tx, newi, height, timestamp, network, i + 1, ov + tx.outputs[i].0);
    }
}

/// What the send of a tracked inscription does to the tables: the send of
/// its WJK-20 event where it has one, else the passing of its domain.
pub open spec fn tracked_send_spec(s: Wjk20State, id: IdV, from: Seq<char>, to: Seq<char>) -> Wjk20State {
    match crate::ledger::number_for_id_spec(s.event_by_number, crate::tables::id_string(id)) {
        Some(n) => sent_spec(s, id, n, from, to),
        None => crate::ledger::owner_sent_spec(s, id, from, to),
    }
}

/// A send is seen in whatever block it comes: where earlier blocks left
/// inscription `id` at offset 0 of outpoint `o`, held by `from`, a block
/// whose one transaction besides its coinbase spends `o` into a single
/// output paying `to` replays as the send of `id` from `from` to `to` (a
/// staged transfer settles, a domain passes), and then `id` lies at that
/// output, held by `to`.
pub proof fn lemma_send_in_later_block(
    s: Wjk20State,
    sat: Map<((Seq<char>, u32), u64), IdV>,
    addrs: Map<IdV, Seq<char>>,
    height: u32,
    block: &BlockData,
    network: Network,
    o: (Seq<char>, u32),
    id: IdV,
    from: Seq<char>,
    to: Seq<char>,
)
    requires
        sat.contains_key((o, 0u64)),
        sat[(o, 0u64)] == id,
        addrs.contains_key(id),
        addrs[id] == from,
        crate::replay::block_txs(block).len() == 2,
        crate::replay::block_txs(block)[0].inputs == seq![None::<(Seq<char>, u32)>],
        crate::replay::block_txs(block)[0].inscription is None,
        crate::replay::block_txs(block)[1].inputs == seq![Some(o)],
        crate::replay::block_txs(block)[1].inscription is None,
        crate::replay::block_txs(block)[1].outputs.len() == 1,
        crate::replay::block_txs(block)[1].outputs[0].0 >= 1,
        crate::chain::script_address_of(crate::replay::block_txs(block)[1].outputs[0].1, network) == Some(to),
    ensures
        ({
            let r = replay_block_spec(s, sat, addrs, height, block, network);
            let spend = crate::replay::block_txs(block)[1];
            &&& r.0 is Ok
            &&& r.1.state == tracked_send_spec(s, id, from, to)
            &&& r.1.addrs == addrs.insert(id, to)
            &&& r.1.sat == sat.remove((o, 0u64)).insert(((spend.txid, 0u32), 0u64), id)
        }),
{
    let txs = crate::replay::block_txs(block);
    let order = crate::replay::block_order(txs);
    let coinbase = txs[0];
    let spend = txs[1];
    assert(order =~= seq![spend, coinbase]);
    let c0 = ReplayCtx { state: s, sat, addrs, next_number: 0 };
    // the spend
    let ins = crate::replay::inputs_spec(sat, addrs, spend.inputs, block.subsidy);
    let no_inputs = Seq::<Option<(Seq<char>, u32)>>::empty();
    assert(spend.inputs.drop_last() =~= no_inputs);
    assert(spend.inputs.last() == Some(o));
    assert(crate::replay::inputs_spec(sat, addrs, no_inputs, block.subsidy) == (sat, Seq::<Flot>::empty(), 0int));
    assert(Seq::<Flot>::empty().push((id, 0u64, false)) =~= seq![(id, 0u64, false)]);
    assert(ins == (sat.remove((o, 0u64)), seq![(id, 0u64, false)], 1int));
    let c1 = ReplayCtx { sat: ins.0, ..c0 };
    let flot = ins.1;
    let p = place_spec(c1, spend, flot[0], None, height, block.time, network, 0, 0);
    let address = crate::replay::output_address(spend, 0, network);
    assert(address == to);
    assert(p.0 is Ok);
    assert(p.1.state == tracked_send_spec(s, id, from, to));
    let q = outputs_spec(p.1, spend, flot, None, height, block.time, network, 0, 1, 0);
    assert(q == outputs_spec(p.1, spend, flot, None, height, block.time, network, 1, 1, spend.outputs[0].0 as int));
    assert(q == (Ok::<(), crate::tables::Wjk20Error>(()), p.1));
    let r1 = replay_tx_spec(c0, spend, height, block.time, block.subsidy, network);
    assert(r1 == q);
    assert(order.take(1).drop_last() =~= Seq::<TxView>::empty());
    assert(order.take(1).last() == spend);
    assert(replay_txs_spec(c0, Seq::<TxView>::empty(), height, block.time, block.subsidy, network) == (
        Ok::<(), crate::tables::Wjk20Error>(()),
        c0,
    ));
    assert(replay_txs_spec(c0, order.take(1), height, block.time, block.subsidy, network) == r1);
    // the coinbase
    let c2 = r1.1;
    let ins2 = crate::replay::inputs_spec(c2.sat, c2.addrs, coinbase.inputs, block.subsidy);
    assert(coinbase.inputs.drop_last() =~= no_inputs);
    assert(coinbase.inputs.last() == None::<(Seq<char>, u32)>);
    assert(crate::replay::inputs_spec(c2.sat, c2.addrs, no_inputs, block.subsidy) == (
        c2.sat,
        Seq::<Flot>::empty(),
        0int,
    ));
    assert(ins2.1 =~= Seq::<Flot>::empty());
    assert(ins2.0 == c2.sat);
    lemma_outputs_empty(ReplayCtx { sat: ins2.0, ..c2 }, coinbase, None, height, block.time, network, 0, 0);
    assert(ReplayCtx { sat: ins2.0, ..c2 } == c2);
    assert(order.drop_last() =~= order.take(1));
    assert(order.last() == coinbase);
}

// ---------------------------------------------------------------------------
// Listing by owner
// ---------------------------------------------------------------------------

/// With the index of owners in step, the domains listed for an address are
/// exactly the registered domains that it owns (where it is an address the
/// index lists).
pub proof fn lemma_domains_of_owner(t: &Wjk20WriteTables, address: Seq<char>, n: Seq<char>)
    requires
        t.wf(),
        registry_ok(t.state()),
    ensures
        (exists|i: int| 0 <= i < domains_of(t, address).len() && #[trigger] domains_of(t, address)[i].1.name == n)
            <==> (t.state().domain_name.contains_key(n) && t.state().domain_name[n].owner_address == address
            && indexed_owner(address)),
{
    broadcast use vstd::seq_lib::group_filter_ensures;

    let st = t.state();
    let seq = t.domain_address_to_names.seq();
    let dn = t.domain_name.vmap();
    let pred = owned_entry(t, address);
    let f = owned_domain(t);
    let fl = seq.filter(pred);
    let d = domains_of(t, address);
    if exists|i: int| 0 <= i < d.len() && #[trigger] d[i].1.name == n {
        let i = choose|i: int| 0 <= i < d.len() && #[trigger] d[i].1.name == n;
        let e = fl[i];
        assert(pred(e));
        assert(seq.contains(e)) by {
            seq.lemma_filter_contains_rev(pred, e);
        }
        let j = choose|j: int| 0 <= j < seq.len() && seq[j] == e;
        t.domain_address_to_names.lemma_seq_map(j);
        assert(st.domain_address_to_names.contains_key((address, e.0.1)));
        assert(d[i] == f(e));
        assert(st.domain_name.contains_key(e.0.1));
        assert(dn[e.0.1].name == e.0.1);
    }
    if st.domain_name.contains_key(n) && st.domain_name[n].owner_address == address && indexed_owner(address) {
        assert(st.domain_address_to_names.contains_key((address, n)));
        assert(t.domain_address_to_names.map().contains_key((address, n)));
        let j = choose|j: int| 0 <= j < seq.len() && seq[j].0 == (address, n);
        assert(pred(seq[j]));
        seq.lemma_filter_contains(pred, j);
        let i = choose|i: int| 0 <= i < fl.len() && fl[i] == seq[j];
        assert(d[i] == f(seq[j]));
        assert(d[i].1.name == n);
    }
}

// ---------------------------------------------------------------------------
// Settlement
// ---------------------------------------------------------------------------

/// Placing an inscription a second time at the same address changes
/// nothing: its domain, its event and its deploy already record the
/// address, and its staged mint was credited the first time (a mint
/// settles once).
pub proof fn lemma_placed_twice(s: Wjk20State, id: IdV, number: u32, address: Seq<char>)
    ensures
        placed_spec(placed_spec(s, id, number, address), id, number, address) == placed_spec(
            s,
            id,
            number,
            address,
        ),
{
    let p = EventPatchView::Placed(address);
    let s1 = set_owner_spec(s, id, address);
    let s2 = patch_event_spec(s1, number, p);
    let s3 = deployer_spec(s2, id, address);
    let t = placed_spec(s, id, number, address);
    // the second placement, step by step
    let u1 = set_owner_spec(t, id, address);
    assert(u1 == t);
    let u2 = patch_event_spec(u1, number, p);
    if t.event_by_number.contains_key(number) {
        assert(t.event_by_number[number] == s2.event_by_number[number]);
        assert(u2.event_by_number =~= t.event_by_number);
    }
    assert(u2 == t);
    let u3 = deployer_spec(u2, id, address);
    let id_str = crate::tables::id_string(id);
    match first_deploy_of(s2.deploy, id_str) {
        Some(f) => {
            assert(is_first_deploy_of(s2.deploy, id_str, f)) by {
                let c = choose|u: Seq<char>| is_first_deploy_of(s2.deploy, id_str, u);
                assert(c == f);
            }
            assert(is_first_deploy_of(t.deploy, id_str, f)) by {
                assert forall|u: Seq<char>|
                    #![trigger t.deploy[u]]
                    t.deploy.contains_key(u) && t.deploy[u].inscription_id == id_str implies u == f
                    || crate::table::chars_lt(f, u) by {
                    assert(s2.deploy.contains_key(u));
                    assert(s2.deploy[u].inscription_id == id_str);
                }
            }
            lemma_first_deploy_unique(t.deploy, id_str, f);
            assert(u3.deploy =~= t.deploy);
        },
        None => {
            assert(s3.deploy == s2.deploy);
            assert(u3.deploy == t.deploy);
        },
    }
    assert(u3 == t);
    assert(!t.pending_mint.contains_key(id));
}

/// Placing a mint inscription credits its staged amount to the address it
/// lands at (saturating at `u128::MAX`), and no other balance changes.
pub proof fn lemma_mint_settles(s: Wjk20State, id: IdV, number: u32, address: Seq<char>)
    requires
        s.pending_mint.contains_key(id),
    ensures
        ({
            let (tick, amt) = s.pending_mint[id];
            let t = placed_spec(s, id, number, address);
            &&& balance_spec(t, tick, address) == crate::ledger::sat_add(balance_spec(s, tick, address), amt)
            &&& !t.pending_mint.contains_key(id)
            &&& forall|k: (Seq<char>, Seq<char>)|
                k != balance_key_of(tick, address) ==> (#[trigger] t.balance.contains_key(k)
                    == s.balance.contains_key(k) && t.balance[k] == s.balance[k])
        }),
{
    let s1 = set_owner_spec(s, id, address);
    let s2 = patch_event_spec(s1, number, EventPatchView::Placed(address));
    let s3 = deployer_spec(s2, id, address);
    assert(s3.pending_mint == s.pending_mint);
    assert(s3.balance == s.balance);
}

/// Once a transfer inscription has been sent between two different bound
/// addresses, its staged transfer is gone: sending it again moves no
/// balance (a transfer moves its amount once).
pub proof fn lemma_transfer_moves_once(
    s: Wjk20State,
    id: IdV,
    number: u32,
    from: Seq<char>,
    to: Seq<char>,
    number2: u32,
    from2: Seq<char>,
    to2: Seq<char>,
)
    requires
        from != to,
        from != "unbound"@,
        to != "unbound"@,
    ensures
        !sent_spec(s, id, number, from, to).pending_transfer.contains_key(id),
        sent_spec(sent_spec(s, id, number, from, to), id, number2, from2, to2).balance == sent_spec(
            s,
            id,
            number,
            from,
            to,
        ).balance,
{
}

/// A sent transfer moves its amount from the sender to the receiver: where
/// the sender holds the amount and the receiver's balance has room for it,
/// the sender loses exactly the amount, the receiver gains it, and no other
/// balance changes. Where the sender holds less, its balance stays and the
/// receiver still gains the amount (the debit alone is skipped). Either way
/// the staged transfer is gone.
pub proof fn lemma_transfer_conserves(s: Wjk20State, id: IdV, number: u32, from: Seq<char>, to: Seq<char>)
    requires
        from != to,
        from != "unbound"@,
        to != "unbound"@,
        s.pending_transfer.contains_key(id),
    ensures
        ({
            let (tick, amt) = s.pending_transfer[id];
            let t = sent_spec(s, id, number, from, to);
            &&& !t.pending_transfer.contains_key(id)
            &&& balance_spec(s, tick, to) + amt <= u128::MAX ==> {
                &&& balance_spec(t, tick, to) == balance_spec(s, tick, to) + amt
                &&& balance_spec(t, tick, from) == if balance_spec(s, tick, from) >= amt {
                    balance_spec(s, tick, from) - amt
                } else {
                    balance_spec(s, tick, from) as int
                }
                &&& forall|k: (Seq<char>, Seq<char>)|
                    k != balance_key_of(tick, from) && k != balance_key_of(tick, to) ==> (
                    #[trigger] t.balance.contains_key(k) == s.balance.contains_key(k) && t.balance[k]
                        == s.balance[k])
            }
        }),
{
    let (tick, amt) = s.pending_transfer[id];
    assert(balance_key_of(tick, from) != balance_key_of(tick, to));
}

/// Normalizing a tick twice is normalizing it once.
pub proof fn lemma_normalize_idempotent(tick: Seq<char>)
    ensures
        lower(lower(tick)) == lower(tick),
{
    assert forall|i: int| 0 <= i < tick.len() implies #[trigger] lower_char(lower_char(tick[i])) == lower_char(
        tick[i],
    ) by {
        let c = tick[i];
        if 'A' <= c && c <= 'Z' {
            assert(lower_char(c) as u32 == c as u32 + 32);
        }
    }
    assert(lower(lower(tick)) =~= lower(tick));
}

} // verus!
