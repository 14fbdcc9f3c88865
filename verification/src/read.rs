//! Queries over the tables: tokens, deploys, balances, wojakmap claims and
//! domains, as the explorer's JSON API lists them.

use crate::ledger::balance_spec;
use crate::table::chars_lt;
use crate::parse::normalize_tick;
use crate::sort::{
    keyed, lemma_keyed_push, lemma_page_order, lemma_sorted_distinct, lemma_sorted_members, lemma_sorted_order, page, stable_sort, stable_sort_of, take_page, Desc, DescCount, SortKey,
};
use crate::tables::{
    amount_to_string, DeployRecord, DeployRecordView, DomainRecord, DomainRecordView, EventRecord,
    EventRecordView, InscriptionId, WojakmapClaimEntry, WojakmapClaimView, Wjk20State, Wjk20WriteTables,
};
use crate::text::{decimal, ends_with, lower, str_eq, trim, trim_str, ascii_lowercase};
use vstd::prelude::*;
use vstd::string::*;

verus! {

// ---------------------------------------------------------------------------
// What the queries answer with
// ---------------------------------------------------------------------------

/// The balance of one tick.
#[derive(Debug, Clone)]
pub struct Wjk20Balance {
    pub tick: String,
    pub balance: String,
}

impl View for Wjk20Balance {
    type V = (Seq<char>, Seq<char>);

    open spec fn view(&self) -> (Seq<char>, Seq<char>) {
        (self.tick@, self.balance@)
    }
}

/// A wojakmap block claim.
#[derive(Debug, Clone)]
pub struct WojakmapClaim {
    pub block_number: u32,
    pub inscription_id: InscriptionId,
    pub claim_height: u32,
    pub claim_timestamp: u32,
}

impl View for WojakmapClaim {
    type V = WojakmapClaimView;

    open spec fn view(&self) -> WojakmapClaimView {
        WojakmapClaimView {
            block_number: self.block_number,
            owner_inscription_id: self.inscription_id@,
            claim_height: self.claim_height,
            claim_timestamp: self.claim_timestamp,
        }
    }
}

/// A registered domain.
#[derive(Debug, Clone)]
pub struct DomainInfo {
    pub name: String,
    pub full_name: String,
    pub inscription_id: String,
    pub inscription_number: u32,
    pub owner_address: String,
    pub height: u32,
    pub timestamp: u32,
}

impl View for DomainInfo {
    type V = DomainRecordView;

    open spec fn view(&self) -> DomainRecordView {
        DomainRecordView {
            name: self.name@,
            full_name: self.full_name@,
            inscription_id: self.inscription_id@,
            inscription_number: self.inscription_number,
            owner_address: self.owner_address@,
            height: self.height,
            timestamp: self.timestamp,
        }
    }
}

/// The answer to a name query: the normalized name, whether it is free,
/// and its registration if it is taken.
#[derive(Debug, Clone)]
pub struct DomainLookup {
    pub name: String,
    pub full_name: String,
    pub available: bool,
    pub domain: Option<DomainInfo>,
}

/// How many domains are registered, and how many distinct owners hold them.
#[derive(Debug, Clone, Copy, PartialEq, Eq, Structural)]
pub struct DomainStats {
    pub total: u64,
    pub unique_owners: u64,
}

impl SortKey for DeployRecord {
    type Key = String;

    open spec fn key_of(v: DeployRecordView) -> Seq<char> {
        v.tick
    }

    fn sort_key(&self) -> (r: String) {
        self.tick.clone()
    }
}

impl SortKey for EventRecord {
    type Key = Desc;

    open spec fn key_of(v: EventRecordView) -> u32 {
        v.height
    }

    fn sort_key(&self) -> (r: Desc) {
        let r = Desc(self.height);
        assert(r@ == self@.height);
        r
    }
}

impl SortKey for Wjk20Balance {
    type Key = String;

    open spec fn key_of(v: (Seq<char>, Seq<char>)) -> Seq<char> {
        v.0
    }

    fn sort_key(&self) -> (r: String) {
        self.tick.clone()
    }
}

impl SortKey for WojakmapClaim {
    type Key = u32;

    open spec fn key_of(v: WojakmapClaimView) -> u32 {
        v.block_number
    }

    fn sort_key(&self) -> (r: u32) {
        self.block_number
    }
}

impl SortKey for DomainRecord {
    type Key = String;

    open spec fn key_of(v: DomainRecordView) -> Seq<char> {
        v.name
    }

    fn sort_key(&self) -> (r: String) {
        self.name.clone()
    }
}

impl SortKey for DomainInfo {
    type Key = (Desc, String);

    open spec fn key_of(v: DomainRecordView) -> (u32, Seq<char>) {
        (v.height, v.name)
    }

    fn sort_key(&self) -> (r: (Desc, String)) {
        (Desc(self.height), self.name.clone())
    }
}

/// The number of entries a listing returns when the query names none.
pub fn default_limit() -> (r: usize)
    ensures
        r == 100,
{
    100
}

/// A collection: a parent inscription and how many children it has.
#[derive(Debug, Clone)]
pub struct CollectionSummary {
    pub inscription_id: InscriptionId,
    pub inscription_number: u32,
    pub child_count: u64,
}

impl View for CollectionSummary {
    type V = ((Seq<char>, u32), u32, u64);

    open spec fn view(&self) -> ((Seq<char>, u32), u32, u64) {
        (self.inscription_id@, self.inscription_number, self.child_count)
    }
}

impl SortKey for CollectionSummary {
    type Key = DescCount;

    open spec fn key_of(v: ((Seq<char>, u32), u32, u64)) -> u64 {
        v.2
    }

    fn sort_key(&self) -> (r: DescCount) {
        let r = DescCount(self.child_count);
        assert(r@ == self@.2);
        r
    }
}

/// The summary of a collection: none where its parent has no inscription
/// id; otherwise the parent and the number of its children.
pub fn collection_summary(
    parent_id: Option<InscriptionId>,
    parent_number: u32,
    children: &Vec<InscriptionId>,
) -> (r: Option<CollectionSummary>)
    ensures
        parent_id is None ==> r is None,
        parent_id matches Some(id) ==> r matches Some(c) && c@ == (id@, parent_number, children@.len() as u64),
{
    match parent_id {
        None => None,
        Some(id) => Some(
            CollectionSummary {
                inscription_id: id,
                inscription_number: parent_number,
                child_count: children.len() as u64,
            },
        ),
    }
}

/// Collections, most children first (ties in the order given), one page
/// of them.
pub fn list_collections(summaries: Vec<CollectionSummary>, limit: usize, offset: usize) -> (r: Vec<
    CollectionSummary,
>)
    ensures
        exists|sorted: Seq<(u64, ((Seq<char>, u32), u32, u64))>|
            stable_sort_of::<DescCount, ((Seq<char>, u32), u32, u64)>(sorted, keyed(summaries@))
                && keyed(r@) == page(sorted, offset, limit),
        r@.len() <= limit,
        forall|i: int, j: int|
            0 <= i < j < r@.len() ==> (#[trigger] r@[i]).child_count >= (#[trigger] r@[j]).child_count,
{
    let sorted = stable_sort(summaries);
    let r = take_page(sorted, offset, limit);
    assert(keyed(r@) =~= page(keyed(sorted@), offset, limit));
    proof {
        lemma_page_order(r@, keyed(sorted@), offset, limit);
        assert forall|i: int, j: int| 0 <= i < j < r@.len() implies (#[trigger] r@[i]).child_count
            >= (#[trigger] r@[j]).child_count by {
            assert(!<DescCount as crate::table::TableKey>::key_lt(
                <CollectionSummary as SortKey>::key_of(r@[j]@),
                <CollectionSummary as SortKey>::key_of(r@[i]@),
            ));
        }
    }
    r
}

/// A domain record as the API shows it.
pub fn domain_record_to_api(record: &DomainRecord) -> (r: DomainInfo)
    ensures
        r@ == record@,
{
    DomainInfo {
        name: record.name.clone(),
        full_name: record.full_name.clone(),
        inscription_id: record.inscription_id.clone(),
        inscription_number: record.inscription_number,
        owner_address: record.owner_address.clone(),
        height: record.height,
        timestamp: record.timestamp,
    }
}

/// A claim as the API shows it.
pub fn claim_to_api(claim: &WojakmapClaimEntry) -> (r: WojakmapClaim)
    ensures
        r@ == claim@,
{
    WojakmapClaim {
        block_number: claim.block_number,
        inscription_id: claim.owner_inscription_id.duplicate(),
        claim_height: claim.claim_height,
        claim_timestamp: claim.claim_timestamp,
    }
}

// ---------------------------------------------------------------------------
// Specifications of the queries
// ---------------------------------------------------------------------------

/// `e` is an event the tables hold.
pub open spec fn is_stored_event(s: Wjk20State, e: EventRecordView) -> bool {
    exists|n: u32| s.event_by_number.contains_key(n) && s.event_by_number[n] == e
}

/// `d` is the registration of a domain.
pub open spec fn is_registered(s: Wjk20State, d: DomainRecordView) -> bool {
    exists|n: Seq<char>| s.domain_name.contains_key(n) && s.domain_name[n] == d
}

/// `d` is the record of a deployed token.
pub open spec fn is_deployed(s: Wjk20State, d: DeployRecordView) -> bool {
    exists|k: Seq<char>| s.deploy.contains_key(k) && s.deploy[k] == d
}

/// Each token is stored under its own tick (every reachable state holds
/// this).
pub open spec fn deploys_under_tick(s: Wjk20State) -> bool {
    forall|k: Seq<char>| #[trigger] s.deploy.contains_key(k) ==> s.deploy[k].tick == k
}

/// `s` with `suffix` taken off its end as often as it ends with it
/// (`str::trim_end_matches`).
pub open spec fn strip_all_suffix(s: Seq<char>, suffix: Seq<char>) -> Seq<char>
    decreases s.len(),
{
    if suffix.len() > 0 && ends_with(s, suffix) {
        strip_all_suffix(s.subrange(0, s.len() - suffix.len()), suffix)
    } else {
        s
    }
}

/// The name that a domain query asks for: trimmed, without trailing `.wjk`
/// and then `.WJK` suffixes, in ASCII lower case.
pub open spec fn domain_query_name(name: Seq<char>) -> Seq<char> {
    lower(strip_all_suffix(strip_all_suffix(trim(name), ".wjk"@), ".WJK"@))
}

/// The events that are deploys, by number, each keyed by height.
pub open spec fn deploy_events(t: &Wjk20WriteTables) -> Seq<(u32, EventRecordView)> {
    keyed(t.event_by_number.values()).filter(|e: (u32, EventRecordView)| e.1.op == "deploy"@)
}

/// The balances of `address`, by tick.
pub open spec fn balances_of(t: &Wjk20WriteTables, address: Seq<char>) -> Seq<(Seq<char>, (Seq<char>, Seq<char>))> {
    t.balance.seq().filter(|e: ((Seq<char>, Seq<char>), u128)| e.0.1 == address).map_values(
        |e: ((Seq<char>, Seq<char>), u128)| (e.0.0, (e.0.0, decimal(e.1 as nat))),
    )
}

/// An entry of the index of owners that is `address`'s, for a registered
/// name.
pub open spec fn owned_entry(t: &Wjk20WriteTables, address: Seq<char>) -> spec_fn(
    ((Seq<char>, Seq<char>), ()),
) -> bool {
    |e: ((Seq<char>, Seq<char>), ())| e.0.0 == address && t.domain_name.vmap().contains_key(e.0.1)
}

/// The registration that an entry of the index of owners names, keyed by
/// its name.
pub open spec fn owned_domain(t: &Wjk20WriteTables) -> spec_fn(((Seq<char>, Seq<char>), ())) -> (
    Seq<char>,
    DomainRecordView,
) {
    |e: ((Seq<char>, Seq<char>), ())| (t.domain_name.vmap()[e.0.1].name, t.domain_name.vmap()[e.0.1])
}

/// The names that `address` owns, in name order, with a registration.
pub open spec fn domains_of(t: &Wjk20WriteTables, address: Seq<char>) -> Seq<(Seq<char>, DomainRecordView)> {
    t.domain_address_to_names.seq().filter(owned_entry(t, address)).map_values(owned_domain(t))
}

/// `n` is the first block, in block order, claimed by inscription `id`.
pub open spec fn is_first_claim_of(claims: Map<u32, WojakmapClaimView>, id: (Seq<char>, u32), n: u32) -> bool {
    &&& claims.contains_key(n)
    &&& claims[n].owner_inscription_id == id
    &&& forall|m: u32|
        #![trigger claims[m]]
        claims.contains_key(m) && claims[m].owner_inscription_id == id ==> n <= m
}

/// The owners of registered domains (the empty owner left out).
pub open spec fn domain_owners(t: &Wjk20WriteTables) -> Set<Seq<char>> {
    Set::new(
        |o: Seq<char>|
            o.len() > 0 && exists|i: int|
                0 <= i < t.domain_name.seq().len() && (#[trigger] t.domain_name.seq()[i]).1@.owner_address == o,
    )
}

/// Takes off `suffix` as often as `s` ends with it.
fn strip_all_suffix_str(s: &str, suffix: &str) -> (r: String)
    ensures
        r@ == strip_all_suffix(s@, suffix@),
{
    let m = suffix.unicode_len();
    let mut cur = String::from_str(s);
    if m == 0 {
        return cur;
    }
    while cur.as_str().unicode_len() >= m && str_eq(
        cur.as_str().substring_char(cur.as_str().unicode_len() - m, cur.as_str().unicode_len()),
        suffix,
    )
        invariant
            m == suffix@.len(),
            m > 0,
            strip_all_suffix(s@, suffix@) == strip_all_suffix(cur@, suffix@),
        decreases cur@.len(),
    {
        let n = cur.as_str().unicode_len();
        let next = String::from_str(cur.as_str().substring_char(0, n - m));
        cur = next;
    }
    cur
}

impl Wjk20WriteTables {
    /// All deployed tokens, sorted by tick.
    pub fn wjk20_list_tokens(&self) -> (r: Vec<DeployRecord>)
        requires
            self.wf(),
        ensures
            stable_sort_of::<String, DeployRecordView>(keyed(r@), keyed(self.deploy.values())),
            forall|i: int, j: int| 0 <= i < j < r@.len() ==> !chars_lt(#[trigger] r@[j].tick@, #[trigger] r@[i].tick@),
            forall|i: int| 0 <= i < r@.len() ==> is_deployed(self.state(), #[trigger] r@[i]@),
            deploys_under_tick(self.state()) ==> forall|i: int, j: int|
                0 <= i < j < r@.len() ==> chars_lt(#[trigger] r@[i].tick@, #[trigger] r@[j].tick@),
    {
        let n = self.deploy.entries.len();
        let mut v: Vec<DeployRecord> = Vec::new();
        let mut i: usize = 0;
        while i < n
            invariant
                n == self.deploy.seq().len(),
                0 <= i <= n,
                keyed(v@) == keyed(self.deploy.values().take(i as int)),
            decreases n - i,
        {
            let d = self.deploy.entries[i].1.duplicate();
            proof {
                let vals = self.deploy.values();
                lemma_keyed_push(v@, d);
                assert(vals[i as int] == self.deploy.entries@[i as int].1);
                assert(vals.take(i + 1) =~= vals.take(i as int).push(vals[i as int]));
                lemma_keyed_push(vals.take(i as int), vals[i as int]);
            }
            v.push(d);
            i = i + 1;
        }
        assert(self.deploy.values().take(n as int) =~= self.deploy.values());
        let r = stable_sort(v);
        proof {
            let kr = keyed(r@);
            let ks = keyed(self.deploy.values());
            assert forall|i: int| 0 <= i < r@.len() implies #[trigger] kr[i] == (r@[i].tick@, r@[i]@) by {}
            assert forall|i: int, j: int| 0 <= i < j < r@.len() implies !chars_lt(
                #[trigger] r@[j].tick@,
                #[trigger] r@[i].tick@,
            ) by {
                assert(kr[i] == (r@[i].tick@, r@[i]@));
                assert(kr[j] == (r@[j].tick@, r@[j]@));
                assert(!<String as crate::table::TableKey>::key_lt(kr[j].0, kr[i].0));
            }
            assert forall|i: int| 0 <= i < r@.len() implies is_deployed(self.state(), #[trigger] r@[i]@) by {
                lemma_sorted_members::<String, DeployRecordView>(kr, ks, i);
                assert(kr[i] == (r@[i].tick@, r@[i]@));
                let j = choose|j: int| 0 <= j < ks.len() && ks[j] == kr[i];
                self.deploy.lemma_seq_map(j);
                assert(self.deploy.values()[j] == self.deploy.seq()[j].1);
                let k = self.deploy.seq()[j].0;
                assert(ks[j] == (self.deploy.values()[j]@.tick, self.deploy.values()[j]@));
                assert(self.deploy.vmap()[k] == self.deploy.map()[k]@);
                assert(self.state().deploy.contains_key(k) && self.state().deploy[k] == r@[i]@);
            }
            if deploys_under_tick(self.state()) {
                assert forall|a: int, b: int| 0 <= a < b < ks.len() implies #[trigger] ks[a].0 != #[trigger] ks[b].0 by {
                    self.deploy.lemma_seq_map(a);
                    self.deploy.lemma_seq_map(b);
                    let sq = self.deploy.seq();
                    assert(ks[a] == (self.deploy.values()[a]@.tick, self.deploy.values()[a]@));
                    assert(ks[b] == (self.deploy.values()[b]@.tick, self.deploy.values()[b]@));
                    assert(self.deploy.values()[a] == sq[a].1);
                    assert(self.deploy.values()[b] == sq[b].1);
                    assert(self.state().deploy.contains_key(sq[a].0));
                    assert(self.state().deploy.contains_key(sq[b].0));
                    assert(self.deploy.vmap()[sq[a].0] == self.deploy.map()[sq[a].0]@);
                    assert(self.deploy.vmap()[sq[b].0] == self.deploy.map()[sq[b].0]@);
                    assert(self.state().deploy[sq[a].0].tick == sq[a].0);
                    assert(self.state().deploy[sq[b].0].tick == sq[b].0);
                    crate::table::lemma_chars_lt_irreflexive(sq[a].0);
                }
                lemma_sorted_distinct::<String, DeployRecordView>(kr, ks);
                assert forall|i: int, j: int| 0 <= i < j < r@.len() implies chars_lt(
                    #[trigger] r@[i].tick@,
                    #[trigger] r@[j].tick@,
                ) by {
                    assert(kr[i] == (r@[i].tick@, r@[i]@));
                    assert(kr[j] == (r@[j].tick@, r@[j]@));
                    assert(<String as crate::table::TableKey>::key_lt(kr[i].0, kr[j].0));
                }
            }
        }
        r
    }

    /// The token deployed under a tick (in any case).
    pub fn wjk20_get_token(&self, tick: &str) -> (r: Option<DeployRecord>)
        requires
            self.wf(),
        ensures
            r matches Some(d) ==> self.state().deploy.contains_key(lower(tick@))
                && d@ == self.state().deploy[lower(tick@)],
            r is None ==> !self.state().deploy.contains_key(lower(tick@)),
    {
        let tick = normalize_tick(tick);
        match self.deploy.get(&tick) {
            Some(d) => Some(d.duplicate()),
            None => None,
        }
    }

    /// Deploy events, newest height first (ties in inscription-number
    /// order), one page of them.
    pub fn wjk20_list_deploys(&self, limit: usize, offset: usize) -> (r: Vec<EventRecord>)
        requires
            self.wf(),
        ensures
            exists|sorted: Seq<(u32, EventRecordView)>|
                stable_sort_of::<Desc, EventRecordView>(sorted, deploy_events(self)) && keyed(r@)
                    == page(sorted, offset, limit),
            r@.len() <= limit,
            forall|i: int| 0 <= i < r@.len() ==> (#[trigger] r@[i]).op@ == "deploy"@,
            forall|i: int| 0 <= i < r@.len() ==> is_stored_event(self.state(), #[trigger] r@[i]@),
            forall|i: int, j: int| 0 <= i < j < r@.len() ==> (#[trigger] r@[i]).height >= (#[trigger] r@[j]).height,
    {
        let n = self.event_by_number.entries.len();
        let ghost all = keyed(self.event_by_number.values());
        let ghost pred = |e: (u32, EventRecordView)| e.1.op == "deploy"@;
        let mut v: Vec<EventRecord> = Vec::new();
        let mut i: usize = 0;
        while i < n
            invariant
                n == self.event_by_number.seq().len(),
                all == keyed(self.event_by_number.values()),
                pred == (|e: (u32, EventRecordView)| e.1.op == "deploy"@),
                0 <= i <= n,
                keyed(v@) == all.take(i as int).filter(pred),
            decreases n - i,
        {
            let e = &self.event_by_number.entries[i].1;
            proof {
                assert(all.take(i + 1) =~= all.take(i as int).push(all[i as int]));
                all.take(i as int).lemma_filter_push(all[i as int], pred);
                assert(all[i as int] == (e@.height, e@));
            }
            if str_eq(e.op.as_str(), "deploy") {
                v.push(e.duplicate());
                assert(keyed(v@) =~= all.take(i + 1).filter(pred));
            } else {
                assert(keyed(v@) =~= all.take(i + 1).filter(pred));
            }
            i = i + 1;
        }
        assert(all.take(n as int) =~= all);
        let sorted = stable_sort(v);
        let r = take_page(sorted, offset, limit);
        assert(keyed(r@) =~= page(keyed(sorted@), offset, limit));
        proof {
            let ks = keyed(sorted@);
            let de = deploy_events(self);
            let kr = keyed(r@);
            let len = ks.len() as int;
            let from = if offset <= len { offset as int } else { len };
            assert forall|i: int| 0 <= i < r@.len() implies (#[trigger] r@[i]).op@ == "deploy"@
                && is_stored_event(self.state(), r@[i]@) by {
                assert(kr[i] == (r@[i]@.height, r@[i]@));
                assert(kr[i] == ks[from + i]);
                lemma_sorted_members::<Desc, EventRecordView>(ks, de, from + i);
                let x = ks[from + i];
                let q = choose|q: int| 0 <= q < de.len() && de[q] == x;
                all.lemma_filter_pred(pred, q);
                assert(pred(x));
                all.lemma_filter_contains_rev(pred, x);
                let j = choose|j: int| 0 <= j < all.len() && all[j] == x;
                let vals = self.event_by_number.values();
                assert(all[j] == (vals[j]@.height, vals[j]@));
                assert(vals[j] == self.event_by_number.seq()[j].1);
                self.event_by_number.lemma_seq_map(j);
                let k = self.event_by_number.seq()[j].0;
                assert(self.event_by_number.vmap()[k] == self.event_by_number.map()[k]@);
                assert(self.state().event_by_number.contains_key(k));
            }
            assert forall|i: int, j: int| 0 <= i < j < r@.len() implies (#[trigger] r@[i]).height
                >= (#[trigger] r@[j]).height by {
                assert(kr[i] == (r@[i]@.height, r@[i]@));
                assert(kr[j] == (r@[j]@.height, r@[j]@));
                assert(kr[i] == ks[from + i]);
                assert(kr[j] == ks[from + j]);
                assert(!<Desc as crate::table::TableKey>::key_lt(ks[from + j].0, ks[from + i].0));
            }
        }
        r
    }

    /// The balance of `address` in a tick, as decimal text ("0" where none
    /// is stored).
    pub fn wjk20_balance(&self, address: &str, tick: &str) -> (r: String)
        requires
            self.wf(),
        ensures
            r@ == decimal(balance_spec(self.state(), tick@, address@) as nat),
    {
        let key = (normalize_tick(tick), String::from_str(address));
        match self.balance.get(&key) {
            Some(v) => amount_to_string(*v),
            None => amount_to_string(0),
        }
    }

    /// The balance of `address` in a tick, with the tick normalized.
    pub fn wjk20_balance_entry(&self, address: &str, tick: &str) -> (r: Wjk20Balance)
        requires
            self.wf(),
        ensures
            r.tick@ == lower(tick@),
            r.balance@ == decimal(balance_spec(self.state(), tick@, address@) as nat),
    {
        let balance = self.wjk20_balance(address, tick);
        Wjk20Balance { tick: normalize_tick(tick), balance }
    }

    /// All balances of `address`, sorted by tick.
    pub fn wjk20_balances(&self, address: &str) -> (r: Vec<Wjk20Balance>)
        requires
            self.wf(),
        ensures
            stable_sort_of::<String, (Seq<char>, Seq<char>)>(keyed(r@), balances_of(self, address@)),
            forall|i: int, j: int| 0 <= i < j < r@.len() ==> !chars_lt(#[trigger] r@[j].tick@, #[trigger] r@[i].tick@),
            forall|i: int|
                0 <= i < r@.len() ==> self.state().balance.contains_key(((#[trigger] r@[i]).tick@, address@))
                    && r@[i].balance@ == decimal(self.state().balance[(r@[i].tick@, address@)] as nat),
    {
        let n = self.balance.entries.len();
        let ghost seq = self.balance.seq();
        let ghost pred = |e: ((Seq<char>, Seq<char>), u128)| e.0.1 == address@;
        let ghost f = |e: ((Seq<char>, Seq<char>), u128)| (e.0.0, (e.0.0, decimal(e.1 as nat)));
        let mut v: Vec<Wjk20Balance> = Vec::new();
        let mut i: usize = 0;
        while i < n
            invariant
                n == seq.len(),
                seq == self.balance.seq(),
                pred == (|e: ((Seq<char>, Seq<char>), u128)| e.0.1 == address@),
                f == (|e: ((Seq<char>, Seq<char>), u128)| (e.0.0, (e.0.0, decimal(e.1 as nat)))),
                0 <= i <= n,
                keyed(v@) == seq.take(i as int).filter(pred).map_values(f),
            decreases n - i,
        {
            let entry = &self.balance.entries[i];
            proof {
                assert(seq.take(i + 1) =~= seq.take(i as int).push(seq[i as int]));
                seq.take(i as int).lemma_filter_push(seq[i as int], pred);
                assert(seq[i as int] == ((entry.0.0@, entry.0.1@), entry.1));
            }
            if str_eq(entry.0.1.as_str(), address) {
                let b = Wjk20Balance { tick: entry.0.0.clone(), balance: amount_to_string(entry.1) };
                proof {
                    let before = seq.take(i as int).filter(pred);
                    lemma_keyed_push(v@, b);
                    assert(before.push(seq[i as int]).map_values(f) =~= before.map_values(f).push(
                        f(seq[i as int]),
                    ));
                }
                v.push(b);
                assert(keyed(v@) =~= seq.take(i + 1).filter(pred).map_values(f));
            } else {
                assert(keyed(v@) =~= seq.take(i + 1).filter(pred).map_values(f));
            }
            i = i + 1;
        }
        assert(seq.take(n as int) =~= seq);
        let r = stable_sort(v);
        proof {
            lemma_sorted_order(r@, v@);
            assert forall|i: int, j: int| 0 <= i < j < r@.len() implies !chars_lt(
                #[trigger] r@[j].tick@,
                #[trigger] r@[i].tick@,
            ) by {
                assert(!<String as crate::table::TableKey>::key_lt(
                    <Wjk20Balance as SortKey>::key_of(r@[j]@),
                    <Wjk20Balance as SortKey>::key_of(r@[i]@),
                ));
            }
            let kr = keyed(r@);
            let kv = keyed(v@);
            let fl = seq.filter(pred);
            assert(kv == fl.map_values(f));
            assert forall|i: int| 0 <= i < r@.len() implies self.state().balance.contains_key(
                ((#[trigger] r@[i]).tick@, address@),
            ) && r@[i].balance@ == decimal(self.state().balance[(r@[i].tick@, address@)] as nat) by {
                lemma_sorted_members::<String, (Seq<char>, Seq<char>)>(kr, kv, i);
                assert(kr[i] == (r@[i].tick@, r@[i]@));
                let q = choose|q: int| 0 <= q < kv.len() && kv[q] == kr[i];
                let e = fl[q];
                assert(kv[q] == f(e));
                seq.lemma_filter_pred(pred, q);
                seq.lemma_filter_contains_rev(pred, e);
                let j = choose|j: int| 0 <= j < seq.len() && seq[j] == e;
                self.balance.lemma_seq_map(j);
                assert(e.0 == (r@[i].tick@, address@));
                assert(self.balance.vmap()[e.0] == self.balance.map()[e.0]);
            }
        }
        r
    }

    /// Wojakmap block claims, by block, one page of them.
    pub fn wjk20_list_wojakmaps(&self, limit: usize, offset: usize) -> (r: Vec<WojakmapClaim>)
        requires
            self.wf(),
        ensures
            exists|sorted: Seq<(u32, WojakmapClaimView)>|
                stable_sort_of::<u32, WojakmapClaimView>(
                    sorted,
                    self.wojakmap_claims.values().map_values(
                        |c: WojakmapClaimEntry| (c@.block_number, c@),
                    ),
                ) && keyed(r@) == page(sorted, offset, limit),
            r@.len() <= limit,
            forall|i: int, j: int|
                0 <= i < j < r@.len() ==> (#[trigger] r@[i]).block_number <= (#[trigger] r@[j]).block_number,
    {
        let n = self.wojakmap_claims.entries.len();
        let ghost all = self.wojakmap_claims.values().map_values(
            |c: WojakmapClaimEntry| (c@.block_number, c@),
        );
        let mut v: Vec<WojakmapClaim> = Vec::new();
        let mut i: usize = 0;
        while i < n
            invariant
                n == self.wojakmap_claims.seq().len(),
                all == self.wojakmap_claims.values().map_values(
                    |c: WojakmapClaimEntry| (c@.block_number, c@),
                ),
                0 <= i <= n,
                keyed(v@) == all.take(i as int),
            decreases n - i,
        {
            let c = claim_to_api(&self.wojakmap_claims.entries[i].1);
            proof {
                lemma_keyed_push(v@, c);
                assert(self.wojakmap_claims.values()[i as int] == self.wojakmap_claims.entries@[i as int].1);
                assert(all.take(i + 1) =~= all.take(i as int).push(all[i as int]));
            }
            v.push(c);
            assert(keyed(v@) =~= all.take(i + 1));
            i = i + 1;
        }
        assert(all.take(n as int) =~= all);
        let sorted = stable_sort(v);
        let r = take_page(sorted, offset, limit);
        assert(keyed(r@) =~= page(keyed(sorted@), offset, limit));
        proof {
            lemma_page_order(r@, keyed(sorted@), offset, limit);
            assert forall|i: int, j: int| 0 <= i < j < r@.len() implies (#[trigger] r@[i]).block_number
                <= (#[trigger] r@[j]).block_number by {
                assert(!<u32 as crate::table::TableKey>::key_lt(
                    <WojakmapClaim as SortKey>::key_of(r@[j]@),
                    <WojakmapClaim as SortKey>::key_of(r@[i]@),
                ));
            }
        }
        r
    }

    /// The claim of a block.
    pub fn wojakmap_claim(&self, block_number: u32) -> (r: Option<WojakmapClaim>)
        requires
            self.wf(),
        ensures
            r matches Some(c) ==> self.state().wojakmap_claims.contains_key(block_number)
                && c@ == self.state().wojakmap_claims[block_number],
            r is None ==> !self.state().wojakmap_claims.contains_key(block_number),
    {
        match self.wojakmap_claims.get(&block_number) {
            Some(c) => Some(claim_to_api(c)),
            None => None,
        }
    }

    /// The claim owned by an inscription: the first, in block order.
    pub fn wojakmap_claim_by_inscription(&self, inscription_id: &InscriptionId) -> (r: Option<WojakmapClaim>)
        requires
            self.wf(),
        ensures
            r matches Some(c) ==> exists|k: u32|
                is_first_claim_of(self.state().wojakmap_claims, inscription_id@, k) && c@
                    == self.state().wojakmap_claims[k],
            r is None ==> !exists|n: u32| is_first_claim_of(self.state().wojakmap_claims, inscription_id@, n),
    {
        let n = self.wojakmap_claims.entries.len();
        let ghost seq = self.wojakmap_claims.seq();
        let ghost m = self.state().wojakmap_claims;
        let mut i: usize = 0;
        while i < n
            invariant
                n == seq.len(),
                seq == self.wojakmap_claims.seq(),
                m == self.state().wojakmap_claims,
                self.wf(),
                0 <= i <= n,
                forall|j: int| 0 <= j < i ==> (#[trigger] seq[j]).1@.owner_inscription_id != inscription_id@,
            decreases n - i,
        {
            let c = &self.wojakmap_claims.entries[i].1;
            if c.owner_inscription_id.same(inscription_id) {
                proof {
                    let k = seq[i as int].0;
                    self.wojakmap_claims.lemma_seq_map(i as int);
                    assert forall|q: u32|
                        #![trigger m[q]]
                        m.contains_key(q) && m[q].owner_inscription_id == inscription_id@ implies k <= q by {
                        let j = choose|j: int| 0 <= j < seq.len() && seq[j].0 == q;
                        self.wojakmap_claims.lemma_seq_map(j);
                    }
                    assert(is_first_claim_of(m, inscription_id@, k));
                }
                let r = claim_to_api(c);
                assert(r@ == m[seq[i as int].0]);
                return Some(r);
            }
            i = i + 1;
        }
        proof {
            if exists|q: u32| is_first_claim_of(m, inscription_id@, q) {
                let q = choose|q: u32| is_first_claim_of(m, inscription_id@, q);
                let j = choose|j: int| 0 <= j < seq.len() && seq[j].0 == q;
                self.wojakmap_claims.lemma_seq_map(j);
            }
        }
        None
    }

    /// Registered domains, newest height first (ties by name), one page.
    pub fn list_domains(&self, limit: usize, offset: usize) -> (r: Vec<DomainInfo>)
        requires
            self.wf(),
        ensures
            exists|sorted: Seq<((u32, Seq<char>), DomainRecordView)>|
                stable_sort_of::<(Desc, String), DomainRecordView>(
                    sorted,
                    self.domain_name.values().map_values(
                        |d: DomainRecord| ((d@.height, d@.name), d@),
                    ),
                ) && keyed(r@) == page(sorted, offset, limit),
            r@.len() <= limit,
            forall|i: int, j: int|
                0 <= i < j < r@.len() ==> (#[trigger] r@[i]).height > (#[trigger] r@[j]).height || (r@[i].height
                    == r@[j].height && !chars_lt(r@[j].name@, r@[i].name@)),
    {
        let n = self.domain_name.entries.len();
        let ghost all = self.domain_name.values().map_values(
            |d: DomainRecord| ((d@.height, d@.name), d@),
        );
        let mut v: Vec<DomainInfo> = Vec::new();
        let mut i: usize = 0;
        while i < n
            invariant
                n == self.domain_name.seq().len(),
                all == self.domain_name.values().map_values(
                    |d: DomainRecord| ((d@.height, d@.name), d@),
                ),
                0 <= i <= n,
                keyed(v@) == all.take(i as int),
            decreases n - i,
        {
            let d = domain_record_to_api(&self.domain_name.entries[i].1);
            proof {
                lemma_keyed_push(v@, d);
                assert(self.domain_name.values()[i as int] == self.domain_name.entries@[i as int].1);
                assert(all.take(i + 1) =~= all.take(i as int).push(all[i as int]));
            }
            v.push(d);
            assert(keyed(v@) =~= all.take(i + 1));
            i = i + 1;
        }
        assert(all.take(n as int) =~= all);
        let sorted = stable_sort(v);
        let r = take_page(sorted, offset, limit);
        assert(keyed(r@) =~= page(keyed(sorted@), offset, limit));
        proof {
            lemma_page_order(r@, keyed(sorted@), offset, limit);
            assert forall|i: int, j: int| 0 <= i < j < r@.len() implies (#[trigger] r@[i]).height > (
            #[trigger] r@[j]).height || (r@[i].height == r@[j].height && !chars_lt(r@[j].name@, r@[i].name@)) by {
                assert(!<(Desc, String) as crate::table::TableKey>::key_lt(
                    <DomainInfo as SortKey>::key_of(r@[j]@),
                    <DomainInfo as SortKey>::key_of(r@[i]@),
                ));
            }
        }
        r
    }

    /// The registration of a name (queried in any case, with or without
    /// `.wjk`).
    pub fn get_domain(&self, name: &str) -> (r: Option<DomainInfo>)
        requires
            self.wf(),
        ensures
            r matches Some(d) ==> self.state().domain_name.contains_key(domain_query_name(name@))
                && d@ == self.state().domain_name[domain_query_name(name@)],
            r is None ==> !self.state().domain_name.contains_key(domain_query_name(name@)),
    {
        let trimmed = trim_str(name);
        let a = strip_all_suffix_str(trimmed, ".wjk");
        let b = strip_all_suffix_str(a.as_str(), ".WJK");
        let key = ascii_lowercase(b.as_str());
        match self.domain_name.get(&key) {
            Some(d) => Some(domain_record_to_api(d)),
            None => None,
        }
    }

    /// Whether a name is free, and its registration if it is taken.
    pub fn domain_lookup(&self, name: &str) -> (r: DomainLookup)
        requires
            self.wf(),
        ensures
            r.name@ == domain_query_name(name@),
            r.full_name@ == domain_query_name(name@) + ".wjk"@,
            r.available == !self.state().domain_name.contains_key(
                domain_query_name(domain_query_name(name@)),
            ),
            r.domain matches Some(d) ==> self.state().domain_name.contains_key(
                domain_query_name(domain_query_name(name@)),
            ) && d@ == self.state().domain_name[domain_query_name(domain_query_name(name@))],
            r.domain is None == r.available,
    {
        let trimmed = trim_str(name);
        let a = strip_all_suffix_str(trimmed, ".wjk");
        let b = strip_all_suffix_str(a.as_str(), ".WJK");
        let normalized = ascii_lowercase(b.as_str());
        let mut full_name = normalized.clone();
        full_name.append(".wjk");
        let domain = self.get_domain(normalized.as_str());
        let available = domain.is_none();
        DomainLookup { name: normalized, full_name, available, domain }
    }

    /// The domains that `address` owns, sorted by name.
    pub fn domains_by_address(&self, address: &str) -> (r: Vec<DomainInfo>)
        requires
            self.wf(),
        ensures
            exists|sorted: Seq<(Seq<char>, DomainRecordView)>|
                stable_sort_of::<String, DomainRecordView>(sorted, domains_of(self, address@))
                    && r@.len() == sorted.len() && forall|j: int|
                    0 <= j < sorted.len() ==> #[trigger] r@[j]@ == sorted[j].1,
            forall|i: int, j: int| 0 <= i < j < r@.len() ==> !chars_lt(#[trigger] r@[j].name@, #[trigger] r@[i].name@),
            forall|i: int| 0 <= i < r@.len() ==> is_registered(self.state(), #[trigger] r@[i]@),
            crate::laws::owner_index_ok(self.state()) ==> forall|i: int|
                0 <= i < r@.len() ==> (#[trigger] r@[i]).owner_address@ == address@,
    {
        let n = self.domain_address_to_names.entries.len();
        let ghost seq = self.domain_address_to_names.seq();
        let ghost pred = owned_entry(self, address@);
        let ghost f = owned_domain(self);
        let mut v: Vec<DomainRecord> = Vec::new();
        let mut i: usize = 0;
        while i < n
            invariant
                n == seq.len(),
                seq == self.domain_address_to_names.seq(),
                self.wf(),
                pred == owned_entry(self, address@),
                f == owned_domain(self),
                0 <= i <= n,
                keyed(v@) == seq.take(i as int).filter(pred).map_values(f),
            decreases n - i,
        {
            let entry = &self.domain_address_to_names.entries[i];
            proof {
                assert(seq.take(i + 1) =~= seq.take(i as int).push(seq[i as int]));
                seq.take(i as int).lemma_filter_push(seq[i as int], pred);
                assert(seq[i as int] == ((entry.0.0@, entry.0.1@), ()));
            }
            if str_eq(entry.0.0.as_str(), address) {
                match self.domain_name.get(&entry.0.1) {
                    Some(d) => {
                        let d = d.duplicate();
                        proof {
                            let before = seq.take(i as int).filter(pred);
                            lemma_keyed_push(v@, d);
                            assert(before.push(seq[i as int]).map_values(f) =~= before.map_values(
                                f,
                            ).push(f(seq[i as int])));
                        }
                        v.push(d);
                        assert(keyed(v@) =~= seq.take(i + 1).filter(pred).map_values(f));
                    },
                    None => {
                        assert(keyed(v@) =~= seq.take(i + 1).filter(pred).map_values(f));
                    },
                }
            } else {
                assert(keyed(v@) =~= seq.take(i + 1).filter(pred).map_values(f));
            }
            i = i + 1;
        }
        assert(seq.take(n as int) =~= seq);
        let sorted = stable_sort(v);
        let n2 = sorted.len();
        let mut r: Vec<DomainInfo> = Vec::new();
        let mut k: usize = 0;
        while k < n2
            invariant
                n2 == sorted@.len(),
                0 <= k <= n2,
                r@.len() == k,
                forall|j: int| 0 <= j < k ==> #[trigger] r@[j]@ == sorted@[j]@,
            decreases n2 - k,
        {
            r.push(domain_record_to_api(&sorted[k]));
            k = k + 1;
        }
        assert(domains_of(self, address@) == seq.filter(pred).map_values(f));
        assert(forall|j: int| 0 <= j < n2 ==> #[trigger] keyed(sorted@)[j].1 == sorted@[j]@);
        proof {
            lemma_sorted_order(sorted@, v@);
            let ks = keyed(sorted@);
            let kv = keyed(v@);
            let fl = seq.filter(pred);
            let st = self.state();
            assert forall|i: int, j: int| 0 <= i < j < r@.len() implies !chars_lt(
                #[trigger] r@[j].name@,
                #[trigger] r@[i].name@,
            ) by {
                assert(r@[i]@ == sorted@[i]@);
                assert(r@[j]@ == sorted@[j]@);
                assert(!<String as crate::table::TableKey>::key_lt(
                    <DomainRecord as SortKey>::key_of(sorted@[j]@),
                    <DomainRecord as SortKey>::key_of(sorted@[i]@),
                ));
            }
            assert forall|i: int| 0 <= i < r@.len() implies is_registered(st, #[trigger] r@[i]@) && (
            crate::laws::owner_index_ok(st) ==> r@[i].owner_address@ == address@) by {
                assert(r@[i]@ == sorted@[i]@);
                lemma_sorted_members::<String, DomainRecordView>(ks, kv, i);
                assert(ks[i] == (sorted@[i]@.name, sorted@[i]@));
                let q = choose|q: int| 0 <= q < kv.len() && kv[q] == ks[i];
                let e = fl[q];
                assert(kv[q] == f(e));
                seq.lemma_filter_pred(pred, q);
                assert(pred(e));
                assert(st.domain_name.contains_key(e.0.1));
                assert(st.domain_name[e.0.1] == r@[i]@);
                if crate::laws::owner_index_ok(st) {
                    seq.lemma_filter_contains_rev(pred, e);
                    let j = choose|j: int| 0 <= j < seq.len() && seq[j] == e;
                    self.domain_address_to_names.lemma_seq_map(j);
                    assert(st.domain_address_to_names.contains_key((address@, e.0.1)));
                    assert(st.domain_name[e.0.1].owner_address == address@);
                    assert(r@[i].owner_address@ == address@);
                }
            }
            if crate::laws::owner_index_ok(st) {
                assert forall|i: int| 0 <= i < r@.len() implies (#[trigger] r@[i]).owner_address@ == address@ by {
                    assert(is_registered(st, r@[i]@));
                }
            }
        }
        r
    }

    /// How many domains are registered, and how many distinct owners hold
    /// them.
    pub fn domain_stats(&self) -> (r: DomainStats)
        requires
            self.wf(),
        ensures
            r.total == self.domain_name.seq().len(),
            r.unique_owners == domain_owners(self).len(),
    {
        let n = self.domain_name.entries.len();
        let ghost seq = self.domain_name.seq();
        let mut owners: Vec<String> = Vec::new();
        let mut total: u64 = 0;
        let mut i: usize = 0;
        while i < n
            invariant
                n == seq.len(),
                seq == self.domain_name.seq(),
                0 <= i <= n,
                total == i,
                owners@.map_values(|o: String| o@).no_duplicates(),
                owners@.map_values(|o: String| o@).to_set() == Set::new(
                    |o: Seq<char>|
                        o.len() > 0 && exists|j: int|
                            0 <= j < i && (#[trigger] seq[j]).1@.owner_address == o,
                ),
            decreases n - i,
        {
            let owner = &self.domain_name.entries[i].1.owner_address;
            let ghost before = owners@.map_values(|o: String| o@);
            let ghost cur = Set::new(
                |o: Seq<char>|
                    o.len() > 0 && exists|j: int| 0 <= j < i && (#[trigger] seq[j]).1@.owner_address == o,
            );
            let ghost next = Set::new(
                |o: Seq<char>|
                    o.len() > 0 && exists|j: int| 0 <= j < i + 1 && (#[trigger] seq[j]).1@.owner_address == o,
            );
            proof {
                assert(seq[i as int].1 == self.domain_name.entries@[i as int].1);
                assert(seq[i as int].1@.owner_address == owner@);
                assert forall|o: Seq<char>| #[trigger] next.contains(o) && o != owner@ implies cur.contains(o) by {
                    let j = choose|j: int| 0 <= j < i + 1 && (#[trigger] seq[j]).1@.owner_address == o;
                    assert(j != i);
                }
                assert forall|o: Seq<char>| #[trigger] cur.contains(o) implies next.contains(o) by {
                    let j = choose|j: int| 0 <= j < i && (#[trigger] seq[j]).1@.owner_address == o;
                    assert(0 <= j < i + 1);
                }
            }
            total = total + 1;
            if owner.as_str().unicode_len() > 0 {
                let mut seen = false;
                let mut q: usize = 0;
                while q < owners.len()
                    invariant
                        0 <= q <= owners@.len(),
                        !seen ==> forall|p: int| 0 <= p < q ==> owners@[p]@ != owner@,
                        seen ==> exists|p: int| 0 <= p < owners@.len() && owners@[p]@ == owner@,
                    decreases owners@.len() - q,
                {
                    if str_eq(owners[q].as_str(), owner.as_str()) {
                        seen = true;
                    }
                    q = q + 1;
                }
                if !seen {
                    owners.push(owner.clone());
                    proof {
                        let after = owners@.map_values(|o: String| o@);
                        assert(after =~= before.push(owner@));
                        assert forall|a: int, b: int| 0 <= a < b < after.len() implies after[a] != after[b] by {
                            if b == after.len() - 1 {
                                assert(owners@[a]@ != owner@);
                            }
                        }
                        before.lemma_push_to_set_commute(owner@);
                        assert(next.contains(owner@)) by {
                            assert(seq[i as int].1@.owner_address == owner@);
                        }
                        assert(after.to_set() =~= next);
                    }
                } else {
                    proof {
                        let p = choose|p: int| 0 <= p < owners@.len() && owners@[p]@ == owner@;
                        assert(before[p] == owner@);
                        assert(before.to_set().contains(owner@));
                        assert(owners@.map_values(|o: String| o@).to_set() =~= next);
                    }
                }
            } else {
                proof {
                    assert(!next.contains(owner@));
                    assert(owners@.map_values(|o: String| o@).to_set() =~= next);
                }
            }
            i = i + 1;
        }
        proof {
            owners@.map_values(|o: String| o@).unique_seq_to_set();
        }
        DomainStats { total, unique_owners: owners.len() as u64 }
    }
}

} // verus!
