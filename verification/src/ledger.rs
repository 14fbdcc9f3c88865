//! The WJK-20 ledger as a state machine over the tables: deploys, staged
//! mints and transfers and their settlement into balances, wojakmap block
//! claims, and `.wjk` domain registration and ownership.

use crate::chain::Network;
use crate::parse::{parse_body, parse_body_spec, parse_wojakmap_claim, wojakmap_claim_spec, normalize_tick, ParsedWjk20View, Wjk20Op};
use crate::table::{Table, chars_lt, lemma_chars_lt_irreflexive, lemma_chars_lt_transitive, TableKey};
use crate::tables::{
    amount_to_string, id_string, DeployRecord, DeployRecordView, DomainRecord,
    DomainRecordView, EventRecord, EventRecordView, InscriptionId, PendingMint, PendingTransfer,
    WojakmapClaimEntry, WojakmapClaimView, Wjk20Error, Wjk20State, Wjk20WriteTables,
};
use crate::text::{decimal, lower, parse_u128_spec, parse_unsigned, starts_with, starts_with_str, str_eq};
use vstd::prelude::*;
use vstd::string::*;

verus! {

// ---------------------------------------------------------------------------
// The transitions, stated over the contents of the tables
// ---------------------------------------------------------------------------

/// Records the parent of a wojakmap collection, unless it is recorded.
pub open spec fn mark_root_spec(s: Wjk20State, parent_number: u32) -> Wjk20State {
    if s.wojakmap_roots.contains_key(parent_number) {
        s
    } else {
        Wjk20State { wojakmap_roots: s.wojakmap_roots.insert(parent_number, 1u8), ..s }
    }
}

/// A content type of plain text: one that starts with `text/plain`.
pub open spec fn is_text_plain(content_type: Option<Seq<char>>) -> bool {
    content_type matches Some(c) && starts_with(c, "text/plain"@)
}

/// The first `text/plain` body `{N}.wojakmap` claims block `N` when `N` is
/// at most the height of the inscription and no one has claimed it.
pub open spec fn claim_spec(
    s: Wjk20State,
    id: (Seq<char>, u32),
    height: u32,
    timestamp: u32,
    body: Option<Seq<u8>>,
    content_type: Option<Seq<char>>,
) -> Wjk20State {
    if !is_text_plain(content_type) {
        s
    } else {
        match body {
        None => s,
        Some(b) => match wojakmap_claim_spec(b) {
            None => s,
            Some(target) => if target > height || s.wojakmap_claims.contains_key(target) {
                s
            } else {
                Wjk20State {
                    wojakmap_claims: s.wojakmap_claims.insert(
                        target,
                        WojakmapClaimView {
                            block_number: target,
                            owner_inscription_id: id,
                            claim_height: height,
                            claim_timestamp: timestamp,
                        },
                    ),
                    ..s
                }
            },
        },
        }
    }
}

/// The first inscription of a `.wjk` name registers it, with no owner yet.
pub open spec fn register_domain_spec(
    s: Wjk20State,
    id: (Seq<char>, u32),
    number: u32,
    height: u32,
    timestamp: u32,
    name: Option<Seq<char>>,
) -> Wjk20State {
    match name {
        None => s,
        Some(n) => if s.domain_name.contains_key(n) {
            s
        } else {
            Wjk20State {
                domain_name: s.domain_name.insert(
                    n,
                    DomainRecordView {
                        name: n,
                        full_name: n + ".wjk"@,
                        inscription_id: id_string(id),
                        inscription_number: number,
                        owner_address: Seq::empty(),
                        height,
                        timestamp,
                    },
                ),
                domain_id_to_name: s.domain_id_to_name.insert(id, n),
                ..s
            }
        },
    }
}

/// An address that owns domains in the registry's index of owners.
pub open spec fn indexed_owner(address: Seq<char>) -> bool {
    address.len() > 0 && address != "unknown"@ && address != "unbound"@
}

/// The domain registered by an inscription passes to `address`.
pub open spec fn set_owner_spec(s: Wjk20State, id: (Seq<char>, u32), address: Seq<char>) -> Wjk20State {
    if !s.domain_id_to_name.contains_key(id) {
        s
    } else {
        let name = s.domain_id_to_name[id];
        if !s.domain_name.contains_key(name) {
            s
        } else {
            let rec = s.domain_name[name];
            if rec.owner_address == address {
                s
            } else {
                let removed = if rec.owner_address.len() > 0 {
                    s.domain_address_to_names.remove((rec.owner_address, name))
                } else {
                    s.domain_address_to_names
                };
                Wjk20State {
                    domain_name: s.domain_name.insert(
                        name,
                        DomainRecordView { owner_address: address, ..rec },
                    ),
                    domain_address_to_names: if indexed_owner(address) {
                        removed.insert((address, name), ())
                    } else {
                        removed
                    },
                    ..s
                }
            }
        }
    }
}

/// An event as the ledger first stores it.
pub open spec fn new_event(
    op: Seq<char>,
    tick: Seq<char>,
    amt: Option<Seq<char>>,
    max: Option<Seq<char>>,
    lim: Option<Seq<char>>,
    id: (Seq<char>, u32),
    number: u32,
    height: u32,
) -> EventRecordView {
    EventRecordView {
        op,
        tick,
        amt,
        max,
        lim,
        inscription_id: id_string(id),
        inscription_number: number,
        height,
        address: None,
        to_address: None,
    }
}

/// Stores an event under its inscription number and its tick.
pub open spec fn store_event_spec(s: Wjk20State, number: u32, tick: Seq<char>, event: EventRecordView) -> Wjk20State {
    Wjk20State {
        event_by_number: s.event_by_number.insert(number, event),
        tick_to_numbers: s.tick_to_numbers.insert((tick, number), ()),
        ..s
    }
}

/// A deploy of a new tick with `0 < lim <= max` creates the token.
pub open spec fn deploy_spec(
    s: Wjk20State,
    id: (Seq<char>, u32),
    number: u32,
    height: u32,
    p: ParsedWjk20View,
) -> Wjk20State {
    if s.deploy.contains_key(p.tick) {
        s
    } else {
        match (p.max, p.lim) {
            (Some(max), Some(lim)) => if max == 0 || lim == 0 || max < lim {
                s
            } else {
                let rec = DeployRecordView {
                    tick: p.tick,
                    max: decimal(max as nat),
                    lim: decimal(lim as nat),
                    dec: match p.dec {
                        Some(d) => d,
                        None => 18u8,
                    },
                    inscription_id: id_string(id),
                    inscription_number: number,
                    height,
                    deployer: Seq::empty(),
                };
                store_event_spec(
                    Wjk20State { deploy: s.deploy.insert(p.tick, rec), ..s },
                    number,
                    p.tick,
                    new_event(
                        "deploy"@,
                        p.tick,
                        None,
                        Some(decimal(max as nat)),
                        Some(decimal(lim as nat)),
                        id,
                        number,
                        height,
                    ),
                )
            },
            _ => s,
        }
    }
}

/// What an event counts towards the minted supply of its tick: the amount
/// of a mint event, where it reads as a number.
pub open spec fn mint_amount(events: Map<u32, EventRecordView>, n: u32) -> nat {
    if events.contains_key(n) && events[n].op == "mint"@ && events[n].amt is Some
        && parse_u128_spec(events[n].amt.unwrap()) is Some {
        parse_u128_spec(events[n].amt.unwrap()).unwrap() as nat
    } else {
        0
    }
}

/// The minted amounts of the events that `tick` lists below number `b`.
pub open spec fn minted_below(s: Wjk20State, tick: Seq<char>, b: nat) -> nat
    decreases b,
{
    if b == 0 {
        0
    } else {
        minted_below(s, tick, (b - 1) as nat) + if s.tick_to_numbers.contains_key(
            (tick, (b - 1) as u32),
        ) {
            mint_amount(s.event_by_number, (b - 1) as u32)
        } else {
            0
        }
    }
}

/// The minted supply of `tick`, saturating at `u128::MAX`.
pub open spec fn total_minted_spec(s: Wjk20State, tick: Seq<char>) -> u128 {
    let t = minted_below(s, tick, 0x1_0000_0000);
    if t > u128::MAX {
        u128::MAX
    } else {
        t as u128
    }
}

/// `a + b`, saturating at `u128::MAX`.
pub open spec fn sat_add(a: u128, b: u128) -> u128 {
    if a + b > u128::MAX {
        u128::MAX
    } else {
        (a + b) as u128
    }
}

/// A mint of an existing tick, of `0 < amt <= lim` that keeps the supply at
/// most `max`, is staged until its inscription is placed. It fails where the
/// stored `lim` or `max` of the token does not read as a number.
pub open spec fn mint_spec(
    s: Wjk20State,
    id: (Seq<char>, u32),
    number: u32,
    height: u32,
    p: ParsedWjk20View,
) -> Result<Wjk20State, Wjk20Error> {
    match p.amt {
        None => Ok(s),
        Some(amt) => if !s.deploy.contains_key(p.tick) {
            Ok(s)
        } else {
            let d = s.deploy[p.tick];
            match (parse_u128_spec(d.lim), parse_u128_spec(d.max)) {
                (Some(lim), Some(max)) => if amt == 0 || amt > lim {
                    Ok(s)
                } else if sat_add(total_minted_spec(s, p.tick), amt) > max {
                    Ok(s)
                } else {
                    Ok(
                        store_event_spec(
                            Wjk20State {
                                pending_mint: s.pending_mint.insert(id, (p.tick, amt)),
                                ..s
                            },
                            number,
                            p.tick,
                            new_event(
                                "mint"@,
                                p.tick,
                                Some(decimal(amt as nat)),
                                None,
                                None,
                                id,
                                number,
                                height,
                            ),
                        ),
                    )
                },
                _ => Err(Wjk20Error::InvalidAmount),
            }
        },
    }
}

/// A transfer of a positive amount of an existing tick is staged until its
/// inscription is sent.
pub open spec fn transfer_spec(
    s: Wjk20State,
    id: (Seq<char>, u32),
    number: u32,
    height: u32,
    p: ParsedWjk20View,
) -> Wjk20State {
    match p.amt {
        None => s,
        Some(amt) => if amt == 0 || !s.deploy.contains_key(p.tick) {
            s
        } else {
            store_event_spec(
                Wjk20State { pending_transfer: s.pending_transfer.insert(id, (p.tick, amt)), ..s },
                number,
                p.tick,
                new_event(
                    "transfer"@,
                    p.tick,
                    Some(decimal(amt as nat)),
                    None,
                    None,
                    id,
                    number,
                    height,
                ),
            )
        },
    }
}

/// What a revealed inscription does before its WJK-20 operation: claims a
/// block and registers a domain.
pub open spec fn reveal_prefix_spec(
    s: Wjk20State,
    id: (Seq<char>, u32),
    number: u32,
    height: u32,
    timestamp: u32,
    body: Option<Seq<u8>>,
    content_type: Option<Seq<char>>,
    domain: Option<Seq<char>>,
) -> Wjk20State {
    register_domain_spec(
        claim_spec(s, id, height, timestamp, body, content_type),
        id,
        number,
        height,
        timestamp,
        domain,
    )
}

/// What a revealed inscription does: claims a block, registers a domain, and
/// applies the WJK-20 operation its body holds.
pub open spec fn reveal_spec(
    s: Wjk20State,
    id: (Seq<char>, u32),
    number: u32,
    height: u32,
    timestamp: u32,
    body: Option<Seq<u8>>,
    content_type: Option<Seq<char>>,
    domain: Option<Seq<char>>,
) -> Result<Wjk20State, Wjk20Error> {
    let s2 = reveal_prefix_spec(s, id, number, height, timestamp, body, content_type, domain);
    match body {
        None => Ok(s2),
        Some(b) => match parse_body_spec(b) {
            None => Ok(s2),
            Some(p) => match p.op {
                Wjk20Op::Deploy => Ok(deploy_spec(s2, id, number, height, p)),
                Wjk20Op::Mint => mint_spec(s2, id, number, height, p),
                Wjk20Op::Transfer => Ok(transfer_spec(s2, id, number, height, p)),
            },
        },
    }
}

/// The key of a balance.
pub open spec fn balance_key_of(tick: Seq<char>, address: Seq<char>) -> (Seq<char>, Seq<char>) {
    (lower(tick), address)
}

/// The balance of `address` in `tick` (0 where none is stored).
pub open spec fn balance_spec(s: Wjk20State, tick: Seq<char>, address: Seq<char>) -> u128 {
    let k = balance_key_of(tick, address);
    if s.balance.contains_key(k) {
        s.balance[k]
    } else {
        0
    }
}

/// Adds `amt` to a balance, saturating at `u128::MAX`.
pub open spec fn credit_spec(s: Wjk20State, tick: Seq<char>, address: Seq<char>, amt: u128) -> Wjk20State {
    Wjk20State {
        balance: s.balance.insert(
            balance_key_of(tick, address),
            sat_add(balance_spec(s, tick, address), amt),
        ),
        ..s
    }
}

/// Takes `amt` from a balance that holds it (a balance that falls to zero
/// is removed); a balance that holds less is left as it is.
pub open spec fn debit_spec(s: Wjk20State, tick: Seq<char>, address: Seq<char>, amt: u128) -> Wjk20State {
    let cur = balance_spec(s, tick, address);
    if cur < amt {
        s
    } else if cur - amt == 0 {
        Wjk20State { balance: s.balance.remove(balance_key_of(tick, address)), ..s }
    } else {
        Wjk20State {
            balance: s.balance.insert(balance_key_of(tick, address), (cur - amt) as u128),
            ..s
        }
    }
}

/// A change to a stored event.
pub enum EventPatch {
    /// The inscription was placed at an address.
    Placed(String),
    /// The inscription was sent from one address to another.
    Sent(String, String),
}

/// [`EventPatch`] with its texts as characters.
pub enum EventPatchView {
    Placed(Seq<char>),
    Sent(Seq<char>, Seq<char>),
}

impl View for EventPatch {
    type V = EventPatchView;

    open spec fn view(&self) -> EventPatchView {
        match self {
            EventPatch::Placed(a) => EventPatchView::Placed(a@),
            EventPatch::Sent(f, t) => EventPatchView::Sent(f@, t@),
        }
    }
}

/// Applies a patch to the event stored under `number`, if there is one.
pub open spec fn patch_event_spec(s: Wjk20State, number: u32, patch: EventPatchView) -> Wjk20State {
    if !s.event_by_number.contains_key(number) {
        s
    } else {
        let e = s.event_by_number[number];
        let patched = match patch {
            EventPatchView::Placed(a) => EventRecordView { address: Some(a), ..e },
            EventPatchView::Sent(f, t) => EventRecordView { address: Some(f), to_address: Some(t), ..e },
        };
        Wjk20State { event_by_number: s.event_by_number.insert(number, patched), ..s }
    }
}

/// `t` is the first tick, in tick order, whose deploy record was made by the
/// inscription `id_str`.
pub open spec fn is_first_deploy_of(deploy: Map<Seq<char>, DeployRecordView>, id_str: Seq<char>, t: Seq<char>) -> bool {
    &&& deploy.contains_key(t)
    &&& deploy[t].inscription_id == id_str
    &&& forall|u: Seq<char>|
        #![trigger deploy[u]]
        deploy.contains_key(u) && deploy[u].inscription_id == id_str ==> u == t || chars_lt(t, u)
}

/// The deploy that an inscription made, first in tick order.
pub open spec fn first_deploy_of(deploy: Map<Seq<char>, DeployRecordView>, id_str: Seq<char>) -> Option<Seq<char>> {
    if exists|t: Seq<char>| is_first_deploy_of(deploy, id_str, t) {
        Some(choose|t: Seq<char>| is_first_deploy_of(deploy, id_str, t))
    } else {
        None
    }
}

/// Records `deployer` in the deploy record that the inscription made.
pub open spec fn deployer_spec(s: Wjk20State, id: (Seq<char>, u32), deployer: Seq<char>) -> Wjk20State {
    match first_deploy_of(s.deploy, id_string(id)) {
        None => s,
        Some(t) => Wjk20State {
            deploy: s.deploy.insert(t, DeployRecordView { deployer, ..s.deploy[t] }),
            ..s
        },
    }
}

/// What the placing of a new inscription at `address` does: the domain it
/// registered passes to the address, its event records the address, a
/// deploy records its deployer, and a staged mint settles into the balance.
pub open spec fn placed_spec(s: Wjk20State, id: (Seq<char>, u32), number: u32, address: Seq<char>) -> Wjk20State {
    let s1 = set_owner_spec(s, id, address);
    let s2 = patch_event_spec(s1, number, EventPatchView::Placed(address));
    let s3 = deployer_spec(s2, id, address);
    if !s3.pending_mint.contains_key(id) {
        s3
    } else {
        let p = s3.pending_mint[id];
        credit_spec(Wjk20State { pending_mint: s3.pending_mint.remove(id), ..s3 }, p.0, address, p.1)
    }
}

/// Whether a send from `from` to `to` moves anything: the two differ and
/// neither is `unbound`.
pub open spec fn moves(from: Seq<char>, to: Seq<char>) -> bool {
    !(from == to || from == "unbound"@ || to == "unbound"@)
}

/// What sending any tracked inscription from `from` to `to` does to the
/// registry: the domain it registered passes to `to`.
pub open spec fn owner_sent_spec(s: Wjk20State, id: (Seq<char>, u32), from: Seq<char>, to: Seq<char>) -> Wjk20State {
    if !moves(from, to) {
        s
    } else {
        set_owner_spec(s, id, to)
    }
}

/// What sending an inscription from `from` to `to` does: the domain passes
/// to `to`, and a staged transfer settles: its amount is taken from `from`
/// where `from` holds it (a balance that holds less is left as it is), and
/// credited to `to` either way; the staged transfer is gone and its event
/// records the send.
pub open spec fn sent_spec(s: Wjk20State, id: (Seq<char>, u32), number: u32, from: Seq<char>, to: Seq<char>) -> Wjk20State {
    if !moves(from, to) {
        s
    } else {
        let s1 = set_owner_spec(s, id, to);
        if !s1.pending_transfer.contains_key(id) {
            s1
        } else {
            let p = s1.pending_transfer[id];
            let s3 = credit_spec(debit_spec(s1, p.0, from, p.1), p.0, to, p.1);
            let s4 = Wjk20State { pending_transfer: s3.pending_transfer.remove(id), ..s3 };
            patch_event_spec(s4, number, EventPatchView::Sent(from, to))
        }
    }
}

/// `n` is the first event number, in number order, whose event was made by
/// the inscription `id_str`.
pub open spec fn is_first_event_of(events: Map<u32, EventRecordView>, id_str: Seq<char>, n: u32) -> bool {
    &&& events.contains_key(n)
    &&& events[n].inscription_id == id_str
    &&& forall|m: u32|
        #![trigger events[m]]
        events.contains_key(m) && events[m].inscription_id == id_str ==> n <= m
}

/// The inscription number that the ledger's events record for an
/// inscription: that of its first event in number order.
pub open spec fn number_for_id_spec(events: Map<u32, EventRecordView>, id_str: Seq<char>) -> Option<u32> {
    if exists|n: u32| is_first_event_of(events, id_str, n) {
        Some(events[choose|n: u32| is_first_event_of(events, id_str, n)].inscription_number)
    } else {
        None
    }
}

// ---------------------------------------------------------------------------
// The updater
// ---------------------------------------------------------------------------

/// Applies inscription events to the tables, and keeps, from one block to
/// the next, where each tracked inscription lies (by outpoint and offset)
/// and the address that holds it.
pub struct Wjk20Updater {
    tables: Wjk20WriteTables,
    network: Network,
    positions: Table<((String, u32), u64), InscriptionId>,
    holders: Table<InscriptionId, String>,
}

impl Wjk20Updater {
    /// The contents of the tables.
    pub closed spec fn state(&self) -> Wjk20State {
        self.tables.state()
    }

    /// The tables are ordered by key.
    pub closed spec fn wf(&self) -> bool {
        self.tables.wf() && self.positions.wf() && self.holders.wf()
    }

    /// The network whose addresses outputs pay to.
    pub closed spec fn network_spec(&self) -> Network {
        self.network
    }

    /// Where each tracked inscription lies: its outpoint and offset.
    pub closed spec fn positions_spec(&self) -> Map<((Seq<char>, u32), u64), (Seq<char>, u32)> {
        self.positions.vmap()
    }

    /// The address that holds each tracked inscription.
    pub closed spec fn holders_spec(&self) -> Map<(Seq<char>, u32), Seq<char>> {
        self.holders.vmap()
    }

    /// An updater over `tables`, tracking no inscription yet.
    pub fn new(tables: Wjk20WriteTables, network: Network) -> (r: Self)
        ensures
            r.state() == tables.state(),
            r.wf() == tables.wf(),
            r.network_spec() == network,
            r.positions_spec() == Map::<((Seq<char>, u32), u64), (Seq<char>, u32)>::empty(),
            r.holders_spec() == Map::<(Seq<char>, u32), Seq<char>>::empty(),
    {
        Self { tables, network, positions: Table::new(), holders: Table::new() }
    }

    /// The tables.
    pub fn tables(&self) -> (r: &Wjk20WriteTables)
        ensures
            r.state() == self.state(),
            self.wf() ==> r.wf(),
    {
        &self.tables
    }

    /// The network.
    pub fn network(&self) -> (r: Network)
        ensures
            r == self.network_spec(),
    {
        self.network
    }

    /// Gives back the tables.
    pub fn into_tables(self) -> (r: Wjk20WriteTables)
        ensures
            r.state() == self.state(),
            self.wf() ==> r.wf(),
    {
        self.tables
    }

    /// Takes out the positions and holders of tracked inscriptions, leaving
    /// none tracked.
    pub(crate) fn take_positions(&mut self) -> (r: (
        Table<((String, u32), u64), InscriptionId>,
        Table<InscriptionId, String>,
    ))
        requires
            old(self).wf(),
        ensures
            final(self).wf(),
            final(self).state() == old(self).state(),
            final(self).network_spec() == old(self).network_spec(),
            r.0.wf(),
            r.1.wf(),
            r.0.vmap() == old(self).positions_spec(),
            r.1.vmap() == old(self).holders_spec(),
    {
        let mut sat = Table::new();
        let mut addrs = Table::new();
        std::mem::swap(&mut sat, &mut self.positions);
        std::mem::swap(&mut addrs, &mut self.holders);
        (sat, addrs)
    }

    /// Puts back the positions and holders of tracked inscriptions.
    pub(crate) fn restore_positions(
        &mut self,
        sat: Table<((String, u32), u64), InscriptionId>,
        addrs: Table<InscriptionId, String>,
    )
        requires
            old(self).wf(),
            sat.wf(),
            addrs.wf(),
        ensures
            final(self).wf(),
            final(self).state() == old(self).state(),
            final(self).network_spec() == old(self).network_spec(),
            final(self).positions_spec() == sat.vmap(),
            final(self).holders_spec() == addrs.vmap(),
    {
        self.positions = sat;
        self.holders = addrs;
    }

    /// Records the parent of a wojakmap collection, unless it is recorded.
    pub fn mark_wojakmap_root(&mut self, parent_number: u32)
        requires
            old(self).wf(),
        ensures
            final(self).wf(),
            final(self).network_spec() == old(self).network_spec(),
            final(self).state() == mark_root_spec(old(self).state(), parent_number),
    {
        if !self.tables.wojakmap_roots.contains(&parent_number) {
            self.tables.wojakmap_roots.insert(parent_number, 1u8);
        }
    }

    /// Dogemap-style: the first `text/plain` body `{N}.wojakmap` claims
    /// block N if N is at most the inscription height.
    pub fn try_claim_wojakmap(
        &mut self,
        inscription_id: InscriptionId,
        height: u32,
        timestamp: u32,
        body: Option<&[u8]>,
        content_type: Option<&str>,
    )
        requires
            old(self).wf(),
        ensures
            final(self).wf(),
            final(self).network_spec() == old(self).network_spec(),
            final(self).state() == claim_spec(
                old(self).state(),
                inscription_id@,
                height,
                timestamp,
                match body {
                    Some(b) => Some(b@),
                    None => None,
                },
                match content_type {
                    Some(c) => Some(c@),
                    None => None,
                },
            ),
    {
        let plain = match content_type {
            Some(c) => starts_with_str(c, "text/plain"),
            None => false,
        };
        if !plain {
            return;
        }
        let body = match body {
            Some(b) => b,
            None => return,
        };
        let target_block = match parse_wojakmap_claim(body) {
            Some(t) => t,
            None => return,
        };
        if target_block > height {
            return;
        }
        if self.tables.wojakmap_claims.contains(&target_block) {
            return;
        }
        let entry = WojakmapClaimEntry {
            block_number: target_block,
            owner_inscription_id: inscription_id,
            claim_height: height,
            claim_timestamp: timestamp,
        };
        self.tables.wojakmap_claims.insert(target_block, entry);
    }

    /// Dash-style: the first inscription of a `{label}.wjk` name registers
    /// it. `domain_name` is the name that the inscription's text carries.
    pub fn try_register_domain(
        &mut self,
        inscription_id: InscriptionId,
        inscription_number: u32,
        height: u32,
        timestamp: u32,
        domain_name: Option<&str>,
    )
        requires
            old(self).wf(),
        ensures
            final(self).wf(),
            final(self).network_spec() == old(self).network_spec(),
            final(self).state() == register_domain_spec(
                old(self).state(),
                inscription_id@,
                inscription_number,
                height,
                timestamp,
                match domain_name {
                    Some(n) => Some(n@),
                    None => None,
                },
            ),
    {
        let name = match domain_name {
            Some(n) => String::from_str(n),
            None => return,
        };
        if self.tables.domain_name.contains(&name) {
            return;
        }
        let mut full_name = name.clone();
        full_name.append(".wjk");
        let record = DomainRecord {
            name: name.clone(),
            full_name,
            inscription_id: inscription_id.to_string(),
            inscription_number,
            owner_address: String::new(),
            height,
            timestamp,
        };
        self.tables.domain_name.insert(name.clone(), record);
        self.tables.domain_id_to_name.insert(inscription_id, name);
    }

    /// The domain registered by an inscription passes to `address`.
    fn set_domain_owner(&mut self, inscription_id: &InscriptionId, address: &str)
        requires
            old(self).wf(),
        ensures
            final(self).wf(),
            final(self).network_spec() == old(self).network_spec(),
            final(self).state() == set_owner_spec(old(self).state(), inscription_id@, address@),
    {
        let name = match self.tables.domain_id_to_name.get(inscription_id) {
            Some(n) => n.clone(),
            None => return,
        };
        let mut record = match self.tables.domain_name.get(&name) {
            Some(r) => r.duplicate(),
            None => return,
        };
        let old_owner = record.owner_address.clone();
        if str_eq(old_owner.as_str(), address) {
            return;
        }
        if old_owner.as_str().unicode_len() > 0 {
            self.tables.domain_address_to_names.remove(&(old_owner, name.clone()));
        }
        record.owner_address = String::from_str(address);
        self.tables.domain_name.insert(name.clone(), record);
        if address.unicode_len() > 0 && !str_eq(address, "unknown") && !str_eq(address, "unbound") {
            self.tables.domain_address_to_names.insert((String::from_str(address), name), ());
        }
    }

    /// Applies what a revealed inscription does: claims a block (a
    /// `text/plain` body), registers a domain, and applies its WJK-20
    /// operation.
    pub fn on_inscription_revealed(
        &mut self,
        inscription_id: InscriptionId,
        inscription_number: u32,
        height: u32,
        timestamp: u32,
        body: Option<&[u8]>,
        content_type: Option<&str>,
        domain_name: Option<&str>,
    ) -> (r: Result<(), Wjk20Error>)
        requires
            old(self).wf(),
        ensures
            final(self).wf(),
            final(self).network_spec() == old(self).network_spec(),
            ({
                let b = match body {
                    Some(b) => Some(b@),
                    None => None,
                };
                let c = match content_type {
                    Some(c) => Some(c@),
                    None => None,
                };
                let d = match domain_name {
                    Some(n) => Some(n@),
                    None => None,
                };
                let spec = reveal_spec(
                    old(self).state(),
                    inscription_id@,
                    inscription_number,
                    height,
                    timestamp,
                    b,
                    c,
                    d,
                );
                &&& r is Ok <==> spec is Ok
                &&& r matches Err(e) ==> spec == Err::<Wjk20State, Wjk20Error>(e)
                    && final(self).state() == reveal_prefix_spec(
                    old(self).state(),
                    inscription_id@,
                    inscription_number,
                    height,
                    timestamp,
                    b,
                    c,
                    d,
                )
                &&& r is Ok ==> spec == Ok::<Wjk20State, Wjk20Error>(final(self).state())
            }),
    {
        self.try_claim_wojakmap(inscription_id.duplicate(), height, timestamp, body, content_type);
        self.try_register_domain(inscription_id.duplicate(), inscription_number, height, timestamp, domain_name);
        let body = match body {
            Some(b) => b,
            None => return Ok(()),
        };
        let parsed = match parse_body(body) {
            Some(p) => p,
            None => return Ok(()),
        };
        match parsed.op {
            Wjk20Op::Deploy => {
                self.apply_deploy(&inscription_id, inscription_number, height, &parsed);
                Ok(())
            },
            Wjk20Op::Mint => {
                self.stage_mint(&inscription_id, inscription_number, height, &parsed)
            },
            Wjk20Op::Transfer => {
                self.stage_transfer(&inscription_id, inscription_number, height, &parsed);
                Ok(())
            },
        }
    }

    /// Stores an event under its inscription number and its tick.
    fn store_event(&mut self, inscription_number: u32, tick: &str, event: EventRecord)
        requires
            old(self).wf(),
        ensures
            final(self).wf(),
            final(self).network_spec() == old(self).network_spec(),
            final(self).state() == store_event_spec(old(self).state(), inscription_number, tick@, event@),
    {
        self.tables.event_by_number.insert(inscription_number, event);
        self.tables.tick_to_numbers.insert((String::from_str(tick), inscription_number), ());
    }

    /// Creates a token from a deploy of a new tick with `0 < lim <= max`.
    fn apply_deploy(&mut self, inscription_id: &InscriptionId, inscription_number: u32, height: u32, parsed: &crate::parse::ParsedWjk20)
        requires
            old(self).wf(),
        ensures
            final(self).wf(),
            final(self).network_spec() == old(self).network_spec(),
            final(self).state() == deploy_spec(old(self).state(), inscription_id@, inscription_number, height, parsed@),
    {
        if self.tables.deploy.contains(&parsed.tick) {
            return;
        }
        let max = match parsed.max {
            Some(m) => m,
            None => return,
        };
        let lim = match parsed.lim {
            Some(l) => l,
            None => return,
        };
        if max == 0 || lim == 0 || max < lim {
            return;
        }
        let record = DeployRecord {
            tick: parsed.tick.clone(),
            max: amount_to_string(max),
            lim: amount_to_string(lim),
            dec: match parsed.dec {
                Some(d) => d,
                None => 18,
            },
            inscription_id: inscription_id.to_string(),
            inscription_number,
            height,
            deployer: String::new(),
        };
        self.tables.deploy.insert(parsed.tick.clone(), record);
        let event = EventRecord {
            op: String::from_str("deploy"),
            tick: parsed.tick.clone(),
            amt: None,
            max: Some(amount_to_string(max)),
            lim: Some(amount_to_string(lim)),
            inscription_id: inscription_id.to_string(),
            inscription_number,
            height,
            address: None,
            to_address: None,
        };
        self.store_event(inscription_number, parsed.tick.as_str(), event);
    }

    /// Whether `tick` is deployed.
    fn deploy_exists(&self, tick: &String) -> (r: bool)
        requires
            self.wf(),
        ensures
            r == self.state().deploy.contains_key(tick@),
    {
        self.tables.deploy.contains(tick)
    }

    /// The minted supply of `tick`, saturating at `u128::MAX`.
    fn total_minted(&self, tick: &String) -> (r: u128)
        requires
            self.wf(),
        ensures
            r == total_minted_spec(self.state(), tick@),
    {
        let n = self.tables.tick_to_numbers.entries.len();
        let ghost s = self.state();
        let ghost t = tick@;
        let ghost seq = self.tables.tick_to_numbers.seq();
        let mut minted: u128 = 0;
        let mut i: usize = 0;
        let ghost mut b: nat = 0;
        while i < n
            invariant
                n == seq.len(),
                seq == self.tables.tick_to_numbers.seq(),
                s == self.state(),
                self.wf(),
                t == tick@,
                0 <= i <= n,
                b <= 0x1_0000_0000,
                forall|m: u32|
                    #![trigger s.tick_to_numbers.contains_key((t, m))]
                    s.tick_to_numbers.contains_key((t, m)) ==> (m < b <==> exists|j: int|
                        0 <= j < i && #[trigger] seq[j].0 == (t, m)),
                minted == (if minted_below(s, t, b) > u128::MAX {
                    u128::MAX
                } else {
                    minted_below(s, t, b) as u128
                }),
            decreases n - i,
        {
            let entry_tick = &self.tables.tick_to_numbers.entries[i].0.0;
            let number = self.tables.tick_to_numbers.entries[i].0.1;
            assert(seq[i as int].0 == (entry_tick@, number));
            if str_eq(entry_tick.as_str(), tick.as_str()) {
                proof {
                    lemma_no_numbers_between(s, t, b, number, self.tables.tick_to_numbers, i as int);
                }
                let amount: u128 = match self.tables.event_by_number.get(&number) {
                    Some(event) => {
                        if str_eq(event.op.as_str(), "mint") {
                            match &event.amt {
                                Some(a) => match parse_unsigned(a.as_str(), u128::MAX) {
                                    Some(v) => v,
                                    None => 0,
                                },
                                None => 0,
                            }
                        } else {
                            0
                        }
                    },
                    None => 0,
                };
                assert(amount as nat == mint_amount(s.event_by_number, number));
                minted = minted.saturating_add(amount);
                proof {
                    assert(minted_below(s, t, number as nat + 1) == minted_below(s, t, number as nat)
                        + mint_amount(s.event_by_number, number));
                    b = number as nat + 1;
                    assert forall|m: u32| #[trigger]
                        s.tick_to_numbers.contains_key((t, m)) implies (m < b <==> exists|j: int|
                        0 <= j < i + 1 && #[trigger] seq[j].0 == (t, m)) by {
                        if m < b {
                            if m == number {
                                assert(seq[i as int].0 == (t, m));
                            } else {
                                lemma_entry_before(self.tables.tick_to_numbers, t, m, number, i as int);
                            }
                        } else {
                            if exists|j: int| 0 <= j < i + 1 && #[trigger] seq[j].0 == (t, m) {
                                let j = choose|j: int| 0 <= j < i + 1 && #[trigger] seq[j].0 == (t, m);
                                if j < i {
                                    assert(<(String, u32) as TableKey>::key_lt(seq[j].0, seq[i as int].0));
                                    lemma_chars_lt_irreflexive(t);
                                }
                            }
                        }
                    }
                }
            } else {
                proof {
                    assert forall|m: u32| #[trigger]
                        s.tick_to_numbers.contains_key((t, m)) implies (m < b <==> exists|j: int|
                        0 <= j < i + 1 && #[trigger] seq[j].0 == (t, m)) by {
                        if exists|j: int| 0 <= j < i + 1 && #[trigger] seq[j].0 == (t, m) {
                            let j = choose|j: int| 0 <= j < i + 1 && #[trigger] seq[j].0 == (t, m);
                            assert(j < i);
                        }
                    }
                }
            }
            i = i + 1;
        }
        proof {
            assert forall|m: u32| #[trigger] s.tick_to_numbers.contains_key((t, m)) implies exists|j: int|
                0 <= j < seq.len() && #[trigger] seq[j].0 == (t, m) by {
                assert(self.tables.tick_to_numbers.map().contains_key((t, m)));
            }
            lemma_no_numbers_after(s, t, b, seq);
        }
        minted
    }

    /// The balance of `address` in `tick`.
    fn balance_of(&self, tick: &str, address: &str) -> (r: u128)
        requires
            self.wf(),
        ensures
            r == balance_spec(self.state(), tick@, address@),
    {
        let key = (normalize_tick(tick), String::from_str(address));
        match self.tables.balance.get(&key) {
            Some(v) => *v,
            None => 0,
        }
    }

    /// Adds `amt` to a balance, saturating at `u128::MAX`.
    fn credit(&mut self, tick: &str, address: &str, amt: u128)
        requires
            old(self).wf(),
        ensures
            final(self).wf(),
            final(self).network_spec() == old(self).network_spec(),
            final(self).state() == credit_spec(old(self).state(), tick@, address@, amt),
    {
        let current = self.balance_of(tick, address);
        let new_balance = current.saturating_add(amt);
        let key = (normalize_tick(tick), String::from_str(address));
        self.tables.balance.insert(key, new_balance);
    }

    /// Takes `amt` from a balance that holds it.
    fn debit(&mut self, tick: &str, address: &str, amt: u128)
        requires
            old(self).wf(),
        ensures
            final(self).wf(),
            final(self).network_spec() == old(self).network_spec(),
            final(self).state() == debit_spec(old(self).state(), tick@, address@, amt),
    {
        let current = self.balance_of(tick, address);
        if current < amt {
            return;
        }
        let new_balance = current - amt;
        let key = (normalize_tick(tick), String::from_str(address));
        if new_balance == 0 {
            self.tables.balance.remove(&key);
        } else {
            self.tables.balance.insert(key, new_balance);
        }
    }

    /// Stages a mint of an existing tick, of `0 < amt <= lim` that keeps the
    /// supply at most `max`.
    fn stage_mint(&mut self, inscription_id: &InscriptionId, inscription_number: u32, height: u32, parsed: &crate::parse::ParsedWjk20) -> (r: Result<(), Wjk20Error>)
        requires
            old(self).wf(),
        ensures
            final(self).wf(),
            final(self).network_spec() == old(self).network_spec(),
            ({
                let spec = mint_spec(old(self).state(), inscription_id@, inscription_number, height, parsed@);
                &&& r is Ok <==> spec is Ok
                &&& r matches Err(e) ==> spec == Err::<Wjk20State, Wjk20Error>(e)
                    && final(self).state() == old(self).state()
                &&& r is Ok ==> spec == Ok::<Wjk20State, Wjk20Error>(final(self).state())
            }),
    {
        let amt = match parsed.amt {
            Some(a) => a,
            None => return Ok(()),
        };
        if !self.deploy_exists(&parsed.tick) {
            return Ok(());
        }
        let (lim_text, max_text) = match self.tables.deploy.get(&parsed.tick) {
            Some(d) => (d.lim.clone(), d.max.clone()),
            None => return Ok(()),
        };
        let lim = match parse_unsigned(lim_text.as_str(), u128::MAX) {
            Some(l) => l,
            None => return Err(Wjk20Error::InvalidAmount),
        };
        let max = match parse_unsigned(max_text.as_str(), u128::MAX) {
            Some(m) => m,
            None => return Err(Wjk20Error::InvalidAmount),
        };
        if amt == 0 || amt > lim {
            return Ok(());
        }
        let minted = self.total_minted(&parsed.tick);
        if minted.saturating_add(amt) > max {
            return Ok(());
        }
        let pending = PendingMint { tick: parsed.tick.clone(), amt };
        self.tables.pending_mint.insert(inscription_id.duplicate(), pending);
        let event = EventRecord {
            op: String::from_str("mint"),
            tick: parsed.tick.clone(),
            amt: Some(amount_to_string(amt)),
            max: None,
            lim: None,
            inscription_id: inscription_id.to_string(),
            inscription_number,
            height,
            address: None,
            to_address: None,
        };
        self.store_event(inscription_number, parsed.tick.as_str(), event);
        Ok(())
    }

    /// Stages a transfer of a positive amount of an existing tick.
    fn stage_transfer(&mut self, inscription_id: &InscriptionId, inscription_number: u32, height: u32, parsed: &crate::parse::ParsedWjk20)
        requires
            old(self).wf(),
        ensures
            final(self).wf(),
            final(self).network_spec() == old(self).network_spec(),
            final(self).state() == transfer_spec(old(self).state(), inscription_id@, inscription_number, height, parsed@),
    {
        let amt = match parsed.amt {
            Some(a) => a,
            None => return,
        };
        if amt == 0 || !self.deploy_exists(&parsed.tick) {
            return;
        }
        let pending = PendingTransfer { tick: parsed.tick.clone(), amt };
        self.tables.pending_transfer.insert(inscription_id.duplicate(), pending);
        let event = EventRecord {
            op: String::from_str("transfer"),
            tick: parsed.tick.clone(),
            amt: Some(amount_to_string(amt)),
            max: None,
            lim: None,
            inscription_id: inscription_id.to_string(),
            inscription_number,
            height,
            address: None,
            to_address: None,
        };
        self.store_event(inscription_number, parsed.tick.as_str(), event);
    }

    /// Applies a patch to the event stored under `inscription_number`.
    fn patch_event(&mut self, inscription_number: u32, patch: EventPatch)
        requires
            old(self).wf(),
        ensures
            final(self).wf(),
            final(self).network_spec() == old(self).network_spec(),
            final(self).state() == patch_event_spec(old(self).state(), inscription_number, patch@),
    {
        let mut event = match self.tables.event_by_number.get(&inscription_number) {
            Some(e) => e.duplicate(),
            None => return,
        };
        match patch {
            EventPatch::Placed(a) => {
                event.address = Some(a);
            },
            EventPatch::Sent(f, t) => {
                event.address = Some(f);
                event.to_address = Some(t);
            },
        }
        self.tables.event_by_number.insert(inscription_number, event);
    }

    /// Records `deployer` in the deploy record that the inscription made.
    fn set_deploy_deployer(&mut self, inscription_id: &InscriptionId, deployer: &str)
        requires
            old(self).wf(),
        ensures
            final(self).wf(),
            final(self).network_spec() == old(self).network_spec(),
            final(self).state() == deployer_spec(old(self).state(), inscription_id@, deployer@),
    {
        let id_str = inscription_id.to_string();
        let found = find_first_deploy(&self.tables, id_str.as_str());
        match found {
            Some(i) => {
                let tick = self.tables.deploy.entries[i].0.clone();
                let mut record = self.tables.deploy.entries[i].1.duplicate();
                proof {
                    self.tables.deploy.lemma_seq_map(i as int);
                }
                record.deployer = String::from_str(deployer);
                self.tables.deploy.insert(tick, record);
            },
            None => {},
        }
    }

    /// Applies the placing of a new inscription at `address`.
    pub fn on_inscription_placed(&mut self, inscription_id: InscriptionId, inscription_number: u32, address: &str)
        requires
            old(self).wf(),
        ensures
            final(self).wf(),
            final(self).network_spec() == old(self).network_spec(),
            final(self).state() == placed_spec(old(self).state(), inscription_id@, inscription_number, address@),
    {
        self.set_domain_owner(&inscription_id, address);
        self.patch_event(inscription_number, EventPatch::Placed(String::from_str(address)));
        self.set_deploy_deployer(&inscription_id, address);
        let pending = match self.tables.pending_mint.get(&inscription_id) {
            Some(p) => PendingMint { tick: p.tick.clone(), amt: p.amt },
            None => return,
        };
        self.tables.pending_mint.remove(&inscription_id);
        self.credit(pending.tick.as_str(), address, pending.amt);
    }

    /// Applies the sending of a tracked inscription that has no WJK-20
    /// event: the domain it registered passes to `to_address`.
    pub(crate) fn on_inscription_moved(&mut self, inscription_id: &InscriptionId, from_address: &str, to_address: &str)
        requires
            old(self).wf(),
        ensures
            final(self).wf(),
            final(self).network_spec() == old(self).network_spec(),
            final(self).state() == owner_sent_spec(old(self).state(), inscription_id@, from_address@, to_address@),
    {
        if str_eq(from_address, to_address) || str_eq(from_address, "unbound") || str_eq(
            to_address,
            "unbound",
        ) {
            return;
        }
        self.set_domain_owner(inscription_id, to_address);
    }

    /// Applies the sending of an inscription from `from_address` to
    /// `to_address`.
    pub fn on_inscription_sent(
        &mut self,
        inscription_id: InscriptionId,
        inscription_number: u32,
        from_address: &str,
        to_address: &str,
    )
        requires
            old(self).wf(),
        ensures
            final(self).wf(),
            final(self).network_spec() == old(self).network_spec(),
            final(self).state() == sent_spec(
                old(self).state(),
                inscription_id@,
                inscription_number,
                from_address@,
                to_address@,
            ),
    {
        if str_eq(from_address, to_address) || str_eq(from_address, "unbound") || str_eq(
            to_address,
            "unbound",
        ) {
            return;
        }
        self.set_domain_owner(&inscription_id, to_address);
        let pending = match self.tables.pending_transfer.get(&inscription_id) {
            Some(p) => PendingTransfer { tick: p.tick.clone(), amt: p.amt },
            None => return,
        };
        self.debit(pending.tick.as_str(), from_address, pending.amt);
        self.credit(pending.tick.as_str(), to_address, pending.amt);
        self.tables.pending_transfer.remove(&inscription_id);
        self.patch_event(
            inscription_number,
            EventPatch::Sent(String::from_str(from_address), String::from_str(to_address)),
        );
    }
}

/// The position of the first deploy record, in tick order, made by the
/// inscription `id_str`.
fn find_first_deploy(tables: &Wjk20WriteTables, id_str: &str) -> (r: Option<usize>)
    requires
        tables.wf(),
    ensures
        r matches Some(i) ==> i < tables.deploy.seq().len() && first_deploy_of(
            tables.state().deploy,
            id_str@,
        ) == Some(tables.deploy.seq()[i as int].0),
        r is None ==> first_deploy_of(tables.state().deploy, id_str@) is None,
{
    let n = tables.deploy.entries.len();
    let ghost seq = tables.deploy.seq();
    let ghost d = tables.state().deploy;
    let mut i: usize = 0;
    while i < n
        invariant
            n == seq.len(),
            seq == tables.deploy.seq(),
            d == tables.state().deploy,
            tables.wf(),
            0 <= i <= n,
            forall|j: int| 0 <= j < i ==> (#[trigger] seq[j]).1@.inscription_id != id_str@,
        decreases n - i,
    {
        if str_eq(tables.deploy.entries[i].1.inscription_id.as_str(), id_str) {
            proof {
                let t = seq[i as int].0;
                tables.deploy.lemma_seq_map(i as int);
                assert forall|u: Seq<char>|
                    #![trigger d[u]]
                    d.contains_key(u) && d[u].inscription_id == id_str@ implies u == t || chars_lt(t, u) by {
                    let j = choose|j: int| 0 <= j < seq.len() && seq[j].0 == u;
                    tables.deploy.lemma_seq_map(j);
                    if j < i {
                    } else if j > i {
                    } else {
                    }
                }
                assert(is_first_deploy_of(d, id_str@, t));
                lemma_first_deploy_unique(d, id_str@, t);
            }
            return Some(i);
        }
        i = i + 1;
    }
    proof {
        if exists|t: Seq<char>| is_first_deploy_of(d, id_str@, t) {
            let t = choose|t: Seq<char>| is_first_deploy_of(d, id_str@, t);
            let j = choose|j: int| 0 <= j < seq.len() && seq[j].0 == t;
            tables.deploy.lemma_seq_map(j);
        }
    }
    None
}

pub proof fn lemma_first_deploy_unique(d: Map<Seq<char>, DeployRecordView>, id_str: Seq<char>, t: Seq<char>)
    requires
        is_first_deploy_of(d, id_str, t),
    ensures
        first_deploy_of(d, id_str) == Some(t),
{
    let c = choose|u: Seq<char>| is_first_deploy_of(d, id_str, u);
    assert(is_first_deploy_of(d, id_str, c));
    if c != t {
        assert(d[c].inscription_id == id_str);
        assert(d[t].inscription_id == id_str);
        assert(chars_lt(t, c));
        assert(chars_lt(c, t));
        lemma_chars_lt_transitive(t, c, t);
        lemma_chars_lt_irreflexive(t);
    }
}

/// The inscription number that the events record for an inscription: that
/// of its first event in number order.
pub fn inscription_number_for_id(tables: &Wjk20WriteTables, inscription_id: &InscriptionId) -> (r: Option<u32>)
    requires
        tables.wf(),
    ensures
        r == number_for_id_spec(tables.state().event_by_number, id_string(inscription_id@)),
{
    let id_str = inscription_id.to_string();
    let n = tables.event_by_number.entries.len();
    let ghost seq = tables.event_by_number.seq();
    let ghost e = tables.state().event_by_number;
    let mut i: usize = 0;
    while i < n
        invariant
            n == seq.len(),
            seq == tables.event_by_number.seq(),
            e == tables.state().event_by_number,
            tables.wf(),
            id_str@ == id_string(inscription_id@),
            0 <= i <= n,
            forall|j: int| 0 <= j < i ==> (#[trigger] seq[j]).1@.inscription_id != id_str@,
        decreases n - i,
    {
        if str_eq(tables.event_by_number.entries[i].1.inscription_id.as_str(), id_str.as_str()) {
            proof {
                let k = seq[i as int].0;
                tables.event_by_number.lemma_seq_map(i as int);
                assert forall|m: u32|
                    #![trigger e[m]]
                    e.contains_key(m) && e[m].inscription_id == id_str@ implies k <= m by {
                    let j = choose|j: int| 0 <= j < seq.len() && seq[j].0 == m;
                    tables.event_by_number.lemma_seq_map(j);
                }
                assert(is_first_event_of(e, id_str@, k));
                let c = choose|c: u32| is_first_event_of(e, id_str@, c);
                assert(c == k);
            }
            return Some(tables.event_by_number.entries[i].1.inscription_number);
        }
        i = i + 1;
    }
    proof {
        if exists|k: u32| is_first_event_of(e, id_str@, k) {
            let k = choose|k: u32| is_first_event_of(e, id_str@, k);
            let j = choose|j: int| 0 <= j < seq.len() && seq[j].0 == k;
            tables.event_by_number.lemma_seq_map(j);
        }
    }
    None
}

/// The sum over numbers does not grow across a gap with no number of `t`.
proof fn lemma_gap(s: Wjk20State, t: Seq<char>, b: nat, c: nat)
    requires
        b <= c <= 0x1_0000_0000,
        forall|m: u32| b <= m < c ==> !#[trigger] s.tick_to_numbers.contains_key((t, m)),
    ensures
        minted_below(s, t, c) == minted_below(s, t, b),
    decreases c - b,
{
    if c > b {
        lemma_gap(s, t, b, (c - 1) as nat);
        assert(!s.tick_to_numbers.contains_key((t, (c - 1) as u32)));
    }
}

/// When the numbers of `t` below `b` are those of the entries before `i`,
/// and the entry at `i` is `(t, num)`, no number of `t` lies in `[b, num)`.
proof fn lemma_no_numbers_between(
    s: Wjk20State,
    t: Seq<char>,
    b: nat,
    num: u32,
    table: crate::table::Table<(String, u32), ()>,
    i: int,
)
    requires
        table.wf(),
        0 <= i < table.seq().len(),
        table.seq()[i].0 == (t, num),
        b <= 0x1_0000_0000,
        s.tick_to_numbers == table.vmap(),
        forall|m: u32|
            #![trigger s.tick_to_numbers.contains_key((t, m))]
            s.tick_to_numbers.contains_key((t, m)) ==> (m < b <==> exists|j: int|
                0 <= j < i && #[trigger] table.seq()[j].0 == (t, m)),
    ensures
        b <= num,
        minted_below(s, t, num as nat) == minted_below(s, t, b),
{
    let seq = table.seq();
    table.lemma_seq_map(i);
    assert(s.tick_to_numbers.contains_key((t, num)));
    if num < b {
        let j = choose|j: int| 0 <= j < i && #[trigger] seq[j].0 == (t, num);
        assert(<(String, u32) as TableKey>::key_lt(seq[j].0, seq[i].0));
        lemma_chars_lt_irreflexive(t);
    }
    assert forall|m: u32| b <= m < num implies !#[trigger] s.tick_to_numbers.contains_key((t, m)) by {
        if s.tick_to_numbers.contains_key((t, m)) {
            assert(table.map().contains_key((t, m)));
            let j = choose|j: int| 0 <= j < seq.len() && seq[j].0 == (t, m);
            if j > i {
                assert(<(String, u32) as TableKey>::key_lt(seq[i].0, seq[j].0));
                lemma_chars_lt_irreflexive(t);
            }
            assert(j < i);
        }
    }
    lemma_gap(s, t, b, num as nat);
}

/// The numbers of `t` are all below `b`, so the sum stops growing at `b`.
proof fn lemma_no_numbers_after(s: Wjk20State, t: Seq<char>, b: nat, seq: Seq<((Seq<char>, u32), ())>)
    requires
        b <= 0x1_0000_0000,
        forall|m: u32|
            #![trigger s.tick_to_numbers.contains_key((t, m))]
            s.tick_to_numbers.contains_key((t, m)) ==> (m < b <==> exists|j: int|
                0 <= j < seq.len() && #[trigger] seq[j].0 == (t, m)),
        forall|m: u32| #[trigger] s.tick_to_numbers.contains_key((t, m)) ==> exists|j: int|
            0 <= j < seq.len() && #[trigger] seq[j].0 == (t, m),
    ensures
        minted_below(s, t, 0x1_0000_0000) == minted_below(s, t, b),
{
    lemma_gap(s, t, b, 0x1_0000_0000);
}

/// An entry of `t` with a number below that of the entry at `i` stands
/// before `i`.
proof fn lemma_entry_before(table: crate::table::Table<(String, u32), ()>, t: Seq<char>, m: u32, num: u32, i: int)
    requires
        table.wf(),
        0 <= i < table.seq().len(),
        table.seq()[i].0 == (t, num),
        m < num,
        table.map().contains_key((t, m)),
    ensures
        exists|j: int| 0 <= j < i && #[trigger] table.seq()[j].0 == (t, m),
{
    let seq = table.seq();
    let j = choose|j: int| 0 <= j < seq.len() && seq[j].0 == (t, m);
    if j >= i {
        if j > i {
            assert(<(String, u32) as TableKey>::key_lt(seq[i].0, seq[j].0));
            lemma_chars_lt_irreflexive(t);
        }
    }
}

} // verus!
