//! The records of the WJK-20 ledger, the wojakmap claims and the domain
//! registry, and the tables that hold them.

use crate::table::{KeyOrder, Table, TableKey};
use crate::text::{
    ascii_lowercase, decimal, decimal_string, lemma_decimal, lower, parse_u128_spec,
    parse_unsigned, push_decimal, str_from_utf8, string_push,
};
use vstd::prelude::*;
use vstd::string::*;
use vstd::utf8::*;

verus! {

/// Errors of the ledger.
#[derive(Debug, Clone, Copy, PartialEq, Eq, Structural)]
pub enum Wjk20Error {
    /// Stored bytes that should hold text are not UTF-8.
    InvalidUtf8,
    /// Stored text that should hold an amount is not a number within `u128`.
    InvalidAmount,
}

// ---------------------------------------------------------------------------
// Inscription ids
// ---------------------------------------------------------------------------

/// An inscription id: the id of the revealing transaction (as its display
/// text) and the inscription's index in it.
#[derive(Debug, Clone)]
pub struct InscriptionId {
    pub txid: String,
    pub index: u32,
}

impl View for InscriptionId {
    type V = (Seq<char>, u32);

    open spec fn view(&self) -> (Seq<char>, u32) {
        (self.txid@, self.index)
    }
}

/// The display form of an inscription id: `{txid}i{index}`.
pub open spec fn id_string(id: (Seq<char>, u32)) -> Seq<char> {
    id.0 + seq!['i'] + decimal(id.1 as nat)
}

impl InscriptionId {
    /// A copy with the same contents.
    pub fn duplicate(&self) -> (r: Self)
        ensures
            r@ == self@,
    {
        InscriptionId { txid: self.txid.clone(), index: self.index }
    }

    /// The display form `{txid}i{index}`.
    pub fn to_string(&self) -> (r: String)
        ensures
            r@ == id_string(self@),
    {
        let mut s = self.txid.clone();
        string_push(&mut s, 'i');
        push_decimal(&mut s, self.index as u128);
        assert(s@ =~= id_string(self@));
        s
    }

    /// Whether two ids are the same.
    pub fn same(&self, other: &InscriptionId) -> (r: bool)
        ensures
            r == (self@ == other@),
    {
        self.index == other.index && self.txid == other.txid
    }
}

impl TableKey for InscriptionId {
    open spec fn key_lt(a: (Seq<char>, u32), b: (Seq<char>, u32)) -> bool {
        <(String, u32) as TableKey>::key_lt(a, b)
    }

    proof fn lemma_key_order(a: (Seq<char>, u32), b: (Seq<char>, u32), c: (Seq<char>, u32)) {
        <(String, u32) as TableKey>::lemma_key_order(a, b, c);
    }

    fn compare_key(&self, other: &Self) -> (r: KeyOrder) {
        proof {
            <(String, u32) as TableKey>::lemma_key_order(self@, other@, other@);
            <(String, u32) as TableKey>::lemma_key_order(other@, self@, self@);
        }
        match self.txid.compare_key(&other.txid) {
            KeyOrder::Less => KeyOrder::Less,
            KeyOrder::Greater => KeyOrder::Greater,
            KeyOrder::Equal => self.index.compare_key(&other.index),
        }
    }

    fn clone_key(&self) -> (r: Self) {
        self.duplicate()
    }
}

// ---------------------------------------------------------------------------
// Records
// ---------------------------------------------------------------------------

/// A deployed WJK-20 token.
#[derive(Debug, Clone)]
pub struct DeployRecord {
    pub tick: String,
    pub max: String,
    pub lim: String,
    pub dec: u8,
    pub inscription_id: String,
    pub inscription_number: u32,
    pub height: u32,
    pub deployer: String,
}

/// [`DeployRecord`] with its texts as characters.
pub struct DeployRecordView {
    pub tick: Seq<char>,
    pub max: Seq<char>,
    pub lim: Seq<char>,
    pub dec: u8,
    pub inscription_id: Seq<char>,
    pub inscription_number: u32,
    pub height: u32,
    pub deployer: Seq<char>,
}

impl View for DeployRecord {
    type V = DeployRecordView;

    open spec fn view(&self) -> DeployRecordView {
        DeployRecordView {
            tick: self.tick@,
            max: self.max@,
            lim: self.lim@,
            dec: self.dec,
            inscription_id: self.inscription_id@,
            inscription_number: self.inscription_number,
            height: self.height,
            deployer: self.deployer@,
        }
    }
}

impl DeployRecord {
    /// A copy with the same contents.
    pub fn duplicate(&self) -> (r: Self)
        ensures
            r@ == self@,
    {
        DeployRecord {
            tick: self.tick.clone(),
            max: self.max.clone(),
            lim: self.lim.clone(),
            dec: self.dec,
            inscription_id: self.inscription_id.clone(),
            inscription_number: self.inscription_number,
            height: self.height,
            deployer: self.deployer.clone(),
        }
    }
}

/// A WJK-20 event: a deploy, or a staged mint or transfer.
#[derive(Debug, Clone)]
pub struct EventRecord {
    pub op: String,
    pub tick: String,
    pub amt: Option<String>,
    pub max: Option<String>,
    pub lim: Option<String>,
    pub inscription_id: String,
    pub inscription_number: u32,
    pub height: u32,
    pub address: Option<String>,
    pub to_address: Option<String>,
}

/// [`EventRecord`] with its texts as characters.
pub struct EventRecordView {
    pub op: Seq<char>,
    pub tick: Seq<char>,
    pub amt: Option<Seq<char>>,
    pub max: Option<Seq<char>>,
    pub lim: Option<Seq<char>>,
    pub inscription_id: Seq<char>,
    pub inscription_number: u32,
    pub height: u32,
    pub address: Option<Seq<char>>,
    pub to_address: Option<Seq<char>>,
}

/// The characters of an optional text.
pub open spec fn opt_view(s: Option<String>) -> Option<Seq<char>> {
    match s {
        Some(t) => Some(t@),
        None => None,
    }
}

impl View for EventRecord {
    type V = EventRecordView;

    open spec fn view(&self) -> EventRecordView {
        EventRecordView {
            op: self.op@,
            tick: self.tick@,
            amt: opt_view(self.amt),
            max: opt_view(self.max),
            lim: opt_view(self.lim),
            inscription_id: self.inscription_id@,
            inscription_number: self.inscription_number,
            height: self.height,
            address: opt_view(self.address),
            to_address: opt_view(self.to_address),
        }
    }
}

/// A copy of an optional text.
pub fn clone_opt(s: &Option<String>) -> (r: Option<String>)
    ensures
        opt_view(r) == opt_view(*s),
{
    match s {
        Some(t) => Some(t.clone()),
        None => None,
    }
}

impl EventRecord {
    /// A copy with the same contents.
    pub fn duplicate(&self) -> (r: Self)
        ensures
            r@ == self@,
    {
        EventRecord {
            op: self.op.clone(),
            tick: self.tick.clone(),
            amt: clone_opt(&self.amt),
            max: clone_opt(&self.max),
            lim: clone_opt(&self.lim),
            inscription_id: self.inscription_id.clone(),
            inscription_number: self.inscription_number,
            height: self.height,
            address: clone_opt(&self.address),
            to_address: clone_opt(&self.to_address),
        }
    }
}

/// A transfer inscription waiting to be sent.
#[derive(Debug, Clone)]
pub struct PendingTransfer {
    pub tick: String,
    pub amt: u128,
}

/// A mint inscription waiting to be placed.
#[derive(Debug, Clone)]
pub struct PendingMint {
    pub tick: String,
    pub amt: u128,
}

impl View for PendingTransfer {
    type V = (Seq<char>, u128);

    open spec fn view(&self) -> (Seq<char>, u128) {
        (self.tick@, self.amt)
    }
}

impl View for PendingMint {
    type V = (Seq<char>, u128);

    open spec fn view(&self) -> (Seq<char>, u128) {
        (self.tick@, self.amt)
    }
}

/// A registered `.wjk` domain.
#[derive(Debug, Clone)]
pub struct DomainRecord {
    pub name: String,
    pub full_name: String,
    pub inscription_id: String,
    pub inscription_number: u32,
    pub owner_address: String,
    pub height: u32,
    pub timestamp: u32,
}

/// [`DomainRecord`] with its texts as characters.
pub struct DomainRecordView {
    pub name: Seq<char>,
    pub full_name: Seq<char>,
    pub inscription_id: Seq<char>,
    pub inscription_number: u32,
    pub owner_address: Seq<char>,
    pub height: u32,
    pub timestamp: u32,
}

impl View for DomainRecord {
    type V = DomainRecordView;

    open spec fn view(&self) -> DomainRecordView {
        DomainRecordView {
            name: self.name@,
            full_name: self.full_name@,
            inscription_id: self.inscription_id@,
            inscription_number: self.inscription_number,
            owner_address: self.owner_address@,
            height: self.height,
            timestamp: self.timestamp,
        }
    }
}

impl DomainRecord {
    /// A copy with the same contents.
    pub fn duplicate(&self) -> (r: Self)
        ensures
            r@ == self@,
    {
        DomainRecord {
            name: self.name.clone(),
            full_name: self.full_name.clone(),
            inscription_id: self.inscription_id.clone(),
            inscription_number: self.inscription_number,
            owner_address: self.owner_address.clone(),
            height: self.height,
            timestamp: self.timestamp,
        }
    }
}

/// The claim of a block by a `{N}.wojakmap` inscription.
#[derive(Debug, Clone)]
pub struct WojakmapClaimEntry {
    pub block_number: u32,
    pub owner_inscription_id: InscriptionId,
    pub claim_height: u32,
    pub claim_timestamp: u32,
}

/// [`WojakmapClaimEntry`] with the id by its view.
pub struct WojakmapClaimView {
    pub block_number: u32,
    pub owner_inscription_id: (Seq<char>, u32),
    pub claim_height: u32,
    pub claim_timestamp: u32,
}

impl View for WojakmapClaimEntry {
    type V = WojakmapClaimView;

    open spec fn view(&self) -> WojakmapClaimView {
        WojakmapClaimView {
            block_number: self.block_number,
            owner_inscription_id: self.owner_inscription_id@,
            claim_height: self.claim_height,
            claim_timestamp: self.claim_timestamp,
        }
    }
}

impl WojakmapClaimEntry {
    /// A copy with the same contents.
    pub fn duplicate(&self) -> (r: Self)
        ensures
            r@ == self@,
    {
        WojakmapClaimEntry {
            block_number: self.block_number,
            owner_inscription_id: self.owner_inscription_id.duplicate(),
            claim_height: self.claim_height,
            claim_timestamp: self.claim_timestamp,
        }
    }
}

// ---------------------------------------------------------------------------
// The tables
// ---------------------------------------------------------------------------

/// The contents of all tables, by view.
pub struct Wjk20State {
    pub deploy: Map<Seq<char>, DeployRecordView>,
    pub balance: Map<(Seq<char>, Seq<char>), u128>,
    pub pending_transfer: Map<(Seq<char>, u32), (Seq<char>, u128)>,
    pub pending_mint: Map<(Seq<char>, u32), (Seq<char>, u128)>,
    pub event_by_number: Map<u32, EventRecordView>,
    pub tick_to_numbers: Map<(Seq<char>, u32), ()>,
    pub wojakmap_roots: Map<u32, u8>,
    pub wojakmap_claims: Map<u32, WojakmapClaimView>,
    pub domain_name: Map<Seq<char>, DomainRecordView>,
    pub domain_id_to_name: Map<(Seq<char>, u32), Seq<char>>,
    pub domain_address_to_names: Map<(Seq<char>, Seq<char>), ()>,
}

/// The tables of the WJK-20 ledger, the wojakmap claims and the domain
/// registry. Balances are keyed by (normalized tick, address); the
/// multimaps `tick_to_numbers` and `domain_address_to_names` are sets of
/// pairs.
pub struct Wjk20WriteTables {
    pub deploy: Table<String, DeployRecord>,
    pub balance: Table<(String, String), u128>,
    pub pending_transfer: Table<InscriptionId, PendingTransfer>,
    pub pending_mint: Table<InscriptionId, PendingMint>,
    pub event_by_number: Table<u32, EventRecord>,
    pub tick_to_numbers: Table<(String, u32), ()>,
    pub wojakmap_roots: Table<u32, u8>,
    pub wojakmap_claims: Table<u32, WojakmapClaimEntry>,
    pub domain_name: Table<String, DomainRecord>,
    pub domain_id_to_name: Table<InscriptionId, String>,
    pub domain_address_to_names: Table<(String, String), ()>,
}

/// The tables as a reader sees them.
pub type Wjk20ReadTables = Wjk20WriteTables;

impl Wjk20WriteTables {
    /// Every table is ordered by key.
    pub open spec fn wf(&self) -> bool {
        &&& self.deploy.wf()
        &&& self.balance.wf()
        &&& self.pending_transfer.wf()
        &&& self.pending_mint.wf()
        &&& self.event_by_number.wf()
        &&& self.tick_to_numbers.wf()
        &&& self.wojakmap_roots.wf()
        &&& self.wojakmap_claims.wf()
        &&& self.domain_name.wf()
        &&& self.domain_id_to_name.wf()
        &&& self.domain_address_to_names.wf()
    }

    /// The contents of all tables.
    pub open spec fn state(&self) -> Wjk20State {
        Wjk20State {
            deploy: self.deploy.vmap(),
            balance: self.balance.vmap(),
            pending_transfer: self.pending_transfer.vmap(),
            pending_mint: self.pending_mint.vmap(),
            event_by_number: self.event_by_number.vmap(),
            tick_to_numbers: self.tick_to_numbers.vmap(),
            wojakmap_roots: self.wojakmap_roots.vmap(),
            wojakmap_claims: self.wojakmap_claims.vmap(),
            domain_name: self.domain_name.vmap(),
            domain_id_to_name: self.domain_id_to_name.vmap(),
            domain_address_to_names: self.domain_address_to_names.vmap(),
        }
    }

    /// Empty tables.
    pub fn new() -> (r: Self)
        ensures
            r.wf(),
            r.state() == empty_state(),
    {
        let r = Wjk20WriteTables {
            deploy: Table::new(),
            balance: Table::new(),
            pending_transfer: Table::new(),
            pending_mint: Table::new(),
            event_by_number: Table::new(),
            tick_to_numbers: Table::new(),
            wojakmap_roots: Table::new(),
            wojakmap_claims: Table::new(),
            domain_name: Table::new(),
            domain_id_to_name: Table::new(),
            domain_address_to_names: Table::new(),
        };
        r
    }
}

/// Tables that hold nothing.
pub open spec fn empty_state() -> Wjk20State {
    Wjk20State {
        deploy: Map::empty(),
        balance: Map::empty(),
        pending_transfer: Map::empty(),
        pending_mint: Map::empty(),
        event_by_number: Map::empty(),
        tick_to_numbers: Map::empty(),
        wojakmap_roots: Map::empty(),
        wojakmap_claims: Map::empty(),
        domain_name: Map::empty(),
        domain_id_to_name: Map::empty(),
        domain_address_to_names: Map::empty(),
    }
}

/// The state with the fungible-token tables emptied.
pub open spec fn cleared_ledger(s: Wjk20State) -> Wjk20State {
    Wjk20State {
        deploy: Map::empty(),
        balance: Map::empty(),
        pending_transfer: Map::empty(),
        pending_mint: Map::empty(),
        event_by_number: Map::empty(),
        tick_to_numbers: Map::empty(),
        ..s
    }
}

/// Empties every table.
pub fn clear_tables(tables: &mut Wjk20WriteTables)
    ensures
        final(tables).wf(),
        final(tables).state() == empty_state(),
{
    tables.deploy.clear();
    tables.balance.clear();
    tables.pending_transfer.clear();
    tables.pending_mint.clear();
    tables.event_by_number.clear();
    tables.tick_to_numbers.clear();
    tables.wojakmap_roots.clear();
    tables.wojakmap_claims.clear();
    tables.domain_name.clear();
    tables.domain_id_to_name.clear();
    tables.domain_address_to_names.clear();
}

/// Empties the fungible-token ledger only (keeps wojakmap roots and claims
/// and domains intact).
pub fn clear_wjk20_ledger(tables: &mut Wjk20WriteTables)
    ensures
        old(tables).wf() ==> final(tables).wf(),
        final(tables).state() == cleared_ledger(old(tables).state()),
{
    tables.deploy.clear();
    tables.balance.clear();
    tables.pending_transfer.clear();
    tables.pending_mint.clear();
    tables.event_by_number.clear();
    tables.tick_to_numbers.clear();
}

/// Empties the wojakmap claims only.
pub fn clear_wojakmap_claims(tables: &mut Wjk20WriteTables)
    ensures
        old(tables).wf() ==> final(tables).wf(),
        final(tables).state() == (Wjk20State { wojakmap_claims: Map::empty(), ..old(tables).state() }),
{
    tables.wojakmap_claims.clear();
}

/// Empties the domain registry only.
pub fn clear_domains(tables: &mut Wjk20WriteTables)
    ensures
        old(tables).wf() ==> final(tables).wf(),
        final(tables).state() == (Wjk20State {
            domain_name: Map::empty(),
            domain_id_to_name: Map::empty(),
            domain_address_to_names: Map::empty(),
            ..old(tables).state()
        }),
{
    tables.domain_name.clear();
    tables.domain_id_to_name.clear();
    tables.domain_address_to_names.clear();
}

/// `s` with its fungible-token ledger taken from `fresh`.
pub open spec fn rebuild_spec(s: Wjk20State, fresh: Wjk20State) -> Wjk20State {
    Wjk20State {
        deploy: fresh.deploy,
        balance: fresh.balance,
        pending_transfer: fresh.pending_transfer,
        pending_mint: fresh.pending_mint,
        event_by_number: fresh.event_by_number,
        tick_to_numbers: fresh.tick_to_numbers,
        ..s
    }
}

/// Rebuilding the ledger is recomputing it, not adding to it: the ledger
/// after a rebuild is that of the fresh tables whatever it was before, so
/// rebuilding again from the same fresh tables changes nothing.
pub proof fn lemma_rebuild_idempotent(s: Wjk20State, s2: Wjk20State, fresh: Wjk20State)
    ensures
        rebuild_spec(rebuild_spec(s, fresh), fresh) == rebuild_spec(s, fresh),
        cleared_ledger(rebuild_spec(s, fresh)) == cleared_ledger(s),
        rebuild_spec(s, fresh) == rebuild_spec(s2, fresh) <==> cleared_ledger(s) == cleared_ledger(s2),
{
    if cleared_ledger(s) == cleared_ledger(s2) {
        assert(rebuild_spec(s, fresh) =~= rebuild_spec(s2, fresh));
    }
    if rebuild_spec(s, fresh) == rebuild_spec(s2, fresh) {
        assert(cleared_ledger(rebuild_spec(s, fresh)) == cleared_ledger(rebuild_spec(s2, fresh)));
    }
}

/// Rebuilds the fungible-token ledger: its tables become those of `fresh`,
/// the tables that a replay of the chain into empty tables produced; the
/// wojakmap roots and claims and the domains stay as they are.
pub fn rebuild(tables: &mut Wjk20WriteTables, fresh: Wjk20WriteTables)
    ensures
        old(tables).wf() && fresh.wf() ==> final(tables).wf(),
        final(tables).state() == rebuild_spec(old(tables).state(), fresh.state()),
{
    tables.deploy = fresh.deploy;
    tables.balance = fresh.balance;
    tables.pending_transfer = fresh.pending_transfer;
    tables.pending_mint = fresh.pending_mint;
    tables.event_by_number = fresh.event_by_number;
    tables.tick_to_numbers = fresh.tick_to_numbers;
}

/// Rebuilds the wojakmap claims: they become those of `fresh`; everything
/// else stays.
pub fn rebuild_wojakmaps(tables: &mut Wjk20WriteTables, fresh: Wjk20WriteTables)
    ensures
        old(tables).wf() && fresh.wf() ==> final(tables).wf(),
        final(tables).state() == (Wjk20State {
            wojakmap_claims: fresh.state().wojakmap_claims,
            ..old(tables).state()
        }),
{
    tables.wojakmap_claims = fresh.wojakmap_claims;
}

/// Rebuilds the domain registry: its tables become those of `fresh`;
/// everything else stays.
pub fn rebuild_domains(tables: &mut Wjk20WriteTables, fresh: Wjk20WriteTables)
    ensures
        old(tables).wf() && fresh.wf() ==> final(tables).wf(),
        final(tables).state() == (Wjk20State {
            domain_name: fresh.state().domain_name,
            domain_id_to_name: fresh.state().domain_id_to_name,
            domain_address_to_names: fresh.state().domain_address_to_names,
            ..old(tables).state()
        }),
{
    tables.domain_name = fresh.domain_name;
    tables.domain_id_to_name = fresh.domain_id_to_name;
    tables.domain_address_to_names = fresh.domain_address_to_names;
}

// ---------------------------------------------------------------------------
// Amounts and keys
// ---------------------------------------------------------------------------

/// The decimal text of an amount.
pub fn amount_to_string(amt: u128) -> (r: String)
    ensures
        r@ == decimal(amt as nat),
{
    decimal_string(amt)
}

/// What [`parse_balance`] gives for stored bytes.
pub open spec fn parse_balance_spec(bytes: Seq<u8>) -> Result<u128, Wjk20Error> {
    if !valid_utf8(bytes) {
        Err(Wjk20Error::InvalidUtf8)
    } else {
        match parse_u128_spec(decode_utf8(bytes)) {
            Some(v) => Ok(v),
            None => Err(Wjk20Error::InvalidAmount),
        }
    }
}

/// Reads a stored amount: UTF-8 text that `u128` parses.
pub fn parse_balance(bytes: &[u8]) -> (r: Result<u128, Wjk20Error>)
    ensures
        r == parse_balance_spec(bytes@),
{
    let s = match str_from_utf8(bytes) {
        Some(s) => s,
        None => return Err(Wjk20Error::InvalidUtf8),
    };
    match parse_unsigned(s, u128::MAX) {
        Some(v) => Ok(v),
        None => Err(Wjk20Error::InvalidAmount),
    }
}

/// The stored key of a balance: `{normalized tick}\0{address}` in UTF-8.
pub open spec fn balance_key_spec(tick: Seq<char>, address: Seq<char>) -> Seq<u8> {
    encode_utf8(lower(tick) + seq!['\0'] + address)
}

/// The stored key of a balance: `{normalized tick}\0{address}` in UTF-8.
pub fn balance_key(tick: &str, address: &str) -> (r: Vec<u8>)
    ensures
        r@ == balance_key_spec(tick@, address@),
{
    let mut key = ascii_lowercase(tick);
    string_push(&mut key, '\0');
    key.append(address);
    let r = key.as_str().as_bytes_vec();
    assert(key@ =~= lower(tick@) + seq!['\0'] + address@);
    r
}

/// `i` is the position of the first NUL byte of `key`.
pub open spec fn is_first_nul(key: Seq<u8>, i: int) -> bool {
    0 <= i < key.len() && key[i] == 0 && forall|j: int| 0 <= j < i ==> key[j] != 0
}

/// What [`split_balance_key`] gives for a stored key: nothing for a key with
/// no NUL byte; otherwise the texts before and after its first NUL byte
/// (tick and address), or an error where either is not UTF-8.
pub open spec fn split_balance_key_spec(key: Seq<u8>) -> Result<Option<(Seq<char>, Seq<char>)>, Wjk20Error> {
    if !exists|i: int| is_first_nul(key, i) {
        Ok(None)
    } else {
        let i = choose|i: int| is_first_nul(key, i);
        let pre = key.subrange(0, i);
        let post = key.subrange(i + 1, key.len() as int);
        if !valid_utf8(pre) || !valid_utf8(post) {
            Err(Wjk20Error::InvalidUtf8)
        } else {
            Ok(Some((decode_utf8(pre), decode_utf8(post))))
        }
    }
}

/// Reads a stored balance key back into its tick and address: splits it at
/// its first NUL byte and reads each side as UTF-8 (`None` for a key with
/// no NUL byte).
pub fn split_balance_key(key: &[u8]) -> (r: Result<Option<(String, String)>, Wjk20Error>)
    ensures
        r is Err <==> split_balance_key_spec(key@) is Err,
        r matches Err(e) ==> split_balance_key_spec(key@) == Err::<Option<(Seq<char>, Seq<char>)>, Wjk20Error>(e),
        r matches Ok(None) ==> split_balance_key_spec(key@) == Ok::<Option<(Seq<char>, Seq<char>)>, Wjk20Error>(None),
        r matches Ok(Some(p)) ==> split_balance_key_spec(key@) == Ok::<Option<(Seq<char>, Seq<char>)>, Wjk20Error>(
            Some((p.0@, p.1@)),
        ),
{
    let n = key.len();
    let mut i: usize = 0;
    while i < n && key[i] != 0
        invariant
            n == key@.len(),
            0 <= i <= n,
            forall|j: int| 0 <= j < i ==> key@[j] != 0,
        decreases n - i,
    {
        i = i + 1;
    }
    if i == n {
        proof {
            if exists|k: int| is_first_nul(key@, k) {
                let k = choose|k: int| is_first_nul(key@, k);
                assert(key@[k] != 0);
            }
        }
        return Ok(None);
    }
    proof {
        assert(is_first_nul(key@, i as int));
        let k = choose|k: int| is_first_nul(key@, k);
        assert(is_first_nul(key@, k));
        if k < i {
            assert(key@[k] != 0);
        }
        if k > i {
            assert(key@[i as int] != 0);
        }
    }
    let pre = vstd::slice::slice_subrange(key, 0, i);
    let post = vstd::slice::slice_subrange(key, i + 1, n);
    let tick = match str_from_utf8(pre) {
        Some(t) => t,
        None => return Err(Wjk20Error::InvalidUtf8),
    };
    let address = match str_from_utf8(post) {
        Some(a) => a,
        None => return Err(Wjk20Error::InvalidUtf8),
    };
    Ok(Some((String::from_str(tick), String::from_str(address))))
}

/// The encoding of a concatenation is the concatenation of the encodings.
proof fn lemma_encode_concat(u: Seq<char>, v: Seq<char>)
    ensures
        encode_utf8(u + v) == encode_utf8(u) + encode_utf8(v),
    decreases u.len(),
{
    if u.len() == 0 {
        assert(u + v =~= v);
        assert(encode_utf8(u) + encode_utf8(v) =~= encode_utf8(v));
    } else {
        assert((u + v).drop_first() =~= u.drop_first() + v);
        assert((u + v)[0] == u[0]);
        lemma_encode_concat(u.drop_first(), v);
        assert(encode_utf8(u + v) =~= encode_utf8(u) + encode_utf8(v));
    }
}

/// Only the NUL character encodes to a zero byte.
proof fn lemma_scalar_bytes_nonzero(s: u32)
    requires
        s != 0,
    ensures
        forall|i: int| 0 <= i < encode_scalar(s).len() ==> encode_scalar(s)[i] != 0,
{
    assert(s != 0 && s <= 0x7F ==> (s & 0x7F) as u8 != 0) by (bit_vector);
    assert((0xC0 | ((s >> 6) & 0x1F) as u8) != 0u8) by (bit_vector);
    assert((0xE0 | ((s >> 12) & 0x0F) as u8) != 0u8) by (bit_vector);
    assert((0xF0 | ((s >> 18) & 0x07) as u8) != 0u8) by (bit_vector);
    assert((0x80 | (s & 0x3F) as u8) != 0u8) by (bit_vector);
    assert((0x80 | ((s >> 6) & 0x3F) as u8) != 0u8) by (bit_vector);
    assert((0x80 | ((s >> 12) & 0x3F) as u8) != 0u8) by (bit_vector);
}

/// Text without NUL characters encodes without zero bytes.
proof fn lemma_encode_no_zero(x: Seq<char>)
    requires
        !x.contains('\0'),
    ensures
        forall|i: int| 0 <= i < encode_utf8(x).len() ==> encode_utf8(x)[i] != 0,
    decreases x.len(),
{
    if x.len() > 0 {
        assert(x[0] != '\0') by {
            if x[0] == '\0' {
                assert(x.contains(x[0]));
            }
        }
        assert(x[0] as u32 != 0) by {
            vstd::utf8::char_u32_cast(x[0], x[0] as u32);
            vstd::utf8::char_u32_cast('\0', '\0' as u32);
        }
        lemma_scalar_bytes_nonzero(x[0] as u32);
        assert(!x.drop_first().contains('\0')) by {
            if x.drop_first().contains('\0') {
                let j = choose|j: int| 0 <= j < x.drop_first().len() && x.drop_first()[j] == '\0';
                assert(x[j + 1] == '\0');
            }
        }
        lemma_encode_no_zero(x.drop_first());
        let e = encode_scalar(x[0] as u32);
        assert forall|i: int| 0 <= i < encode_utf8(x).len() implies encode_utf8(x)[i] != 0 by {
            if i >= e.len() {
                assert(encode_utf8(x)[i] == encode_utf8(x.drop_first())[i - e.len()]);
            }
        }
    }
}

/// A balance key reads back as the normalized tick and the address it was
/// made of (for ticks without a NUL character, as ticks are).
pub proof fn lemma_split_balance_key(tick: Seq<char>, address: Seq<char>)
    requires
        !tick.contains('\0'),
    ensures
        split_balance_key_spec(balance_key_spec(tick, address)) == Ok::<
            Option<(Seq<char>, Seq<char>)>,
            Wjk20Error,
        >(Some((lower(tick), address))),
{
    broadcast use vstd::utf8::group_utf8_lib;

    let x = lower(tick);
    assert(!x.contains('\0')) by {
        if x.contains('\0') {
            let j = choose|j: int| 0 <= j < x.len() && x[j] == '\0';
            assert(tick[j] == '\0');
            assert(tick.contains(tick[j]));
        }
    }
    lemma_encode_no_zero(x);
    lemma_encode_concat(x + seq!['\0'], address);
    lemma_encode_concat(x, seq!['\0']);
    assert(encode_utf8(seq!['\0']) =~= seq![0u8]) by {
        let z: u32 = '\0' as u32;
        assert(z == 0);
        assert(z == 0 ==> (z & 0x7F) as u8 == 0u8) by (bit_vector);
        let c = seq!['\0'];
        assert(c[0] as u32 == z);
        assert(c.drop_first() =~= Seq::<char>::empty());
        assert(encode_utf8(c.drop_first()) =~= Seq::<u8>::empty());
        assert(vstd::utf8::leading_byte_width_1(z) == 0u8);
        assert(encode_scalar(z) =~= seq![0u8]);
        assert(encode_utf8(c) == encode_scalar(c[0] as u32) + encode_utf8(c.drop_first()));
    }
    let ex = encode_utf8(x);
    let ea = encode_utf8(address);
    let key = balance_key_spec(tick, address);
    assert(key =~= ex + seq![0u8] + ea);
    let l = ex.len() as int;
    assert(is_first_nul(key, l));
    let k = choose|k: int| is_first_nul(key, k);
    assert(k == l) by {
        if k < l {
            assert(key[k] == ex[k]);
        } else if k > l {
            assert(key[l] == 0);
        }
    }
    assert(key.subrange(0, l) =~= ex);
    assert(key.subrange(l + 1, key.len() as int) =~= ea);
}

/// Balance keys are unique to (tick in lower case, address): for ticks
/// without a NUL character, two keys are equal exactly when the ticks
/// normalize alike and the addresses are equal.
pub proof fn lemma_balance_key_injective(t1: Seq<char>, a1: Seq<char>, t2: Seq<char>, a2: Seq<char>)
    requires
        !t1.contains('\0'),
        !t2.contains('\0'),
    ensures
        (balance_key_spec(t1, a1) == balance_key_spec(t2, a2)) <==> (lower(t1) == lower(t2) && a1 == a2),
{
    broadcast use vstd::utf8::group_utf8_lib;

    let x1 = lower(t1) + seq!['\0'] + a1;
    let x2 = lower(t2) + seq!['\0'] + a2;
    let l1 = lower(t1).len() as int;
    let l2 = lower(t2).len() as int;
    if balance_key_spec(t1, a1) == balance_key_spec(t2, a2) {
        assert(decode_utf8(encode_utf8(x1)) == x1);
        assert(decode_utf8(encode_utf8(x2)) == x2);
        assert(x1 == x2);
        if l1 < l2 {
            assert(x1[l1] == '\0');
            assert(x2[l1] == lower(t2)[l1]);
            assert(t2[l1] != '\0') by {
                assert(t2[l1] == t2[l1]);
                if t2[l1] == '\0' {
                    assert(t2.contains('\0'));
                }
            }
        } else if l2 < l1 {
            assert(x2[l2] == '\0');
            assert(x1[l2] == lower(t1)[l2]);
            assert(t1[l2] != '\0') by {
                if t1[l2] == '\0' {
                    assert(t1.contains('\0'));
                }
            }
        }
        assert(l1 == l2);
        assert(lower(t1) =~= x1.subrange(0, l1));
        assert(lower(t2) =~= x2.subrange(0, l2));
        assert(a1 =~= x1.skip(l1 + 1));
        assert(a2 =~= x2.skip(l2 + 1));
    }
}

/// A stored amount reads back as the amount: parsing the bytes of
/// `amount_to_string(n)` gives `n`.
pub proof fn lemma_amount_roundtrip(n: u128)
    ensures
        parse_balance_spec(encode_utf8(decimal(n as nat))) == Ok::<u128, Wjk20Error>(n),
        parse_u128_spec(decimal(n as nat)) == Some(n),
{
    broadcast use vstd::utf8::group_utf8_lib;

    lemma_decimal(n as nat);
    let d = decimal(n as nat);
    assert(valid_utf8(encode_utf8(d)));
    assert(decode_utf8(encode_utf8(d)) == d);
}

} // verus!
