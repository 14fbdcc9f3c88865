//! Replaying a block through the ledger: following inscriptions from the
//! inputs of each transaction to the outputs that receive them, and
//! applying reveals, placements and sends.

use crate::chain::{address_for_network, script_address_of, Network};
use crate::ledger::{
    number_for_id_spec, owner_sent_spec, placed_spec, reveal_prefix_spec, reveal_spec, sent_spec, inscription_number_for_id,
    Wjk20Updater,
};
use crate::table::Table;
use crate::tables::{id_string, InscriptionId, Wjk20Error, Wjk20State};
use vstd::prelude::*;
use vstd::string::*;

verus! {

/// A transaction output being spent.
pub struct OutPoint {
    pub txid: String,
    pub vout: u32,
}

/// A transaction input: the output it spends, or `None` for the null
/// outpoint of a coinbase.
pub struct TxInput {
    pub previous_output: Option<OutPoint>,
}

/// A transaction output.
pub struct TxOutput {
    pub value: u64,
    pub script_pubkey: Vec<u8>,
}

/// The complete inscription that a transaction reveals: its body, its
/// content type, and the `.wjk` name that its text registers, if any.
pub struct RevealedInscription {
    pub body: Option<Vec<u8>>,
    pub content_type: Option<String>,
    pub domain_name: Option<String>,
}

/// A transaction as the replay reads it. `known_number` is the number that
/// the index already gave to the inscription it reveals, if any.
pub struct ReplayTransaction {
    pub txid: String,
    pub input: Vec<TxInput>,
    pub output: Vec<TxOutput>,
    pub inscription: Option<RevealedInscription>,
    pub known_number: Option<u32>,
}

/// A block as the replay reads it: its time, the subsidy of its coinbase,
/// and its transactions (the coinbase first).
pub struct BlockData {
    pub time: u32,
    pub subsidy: u64,
    pub txdata: Vec<ReplayTransaction>,
}

/// An inscription id by its view.
pub type IdV = (Seq<char>, u32);

/// A transaction by its view.
pub struct TxView {
    pub txid: Seq<char>,
    pub inputs: Seq<Option<(Seq<char>, u32)>>,
    pub outputs: Seq<(u64, Seq<u8>)>,
    pub inscription: Option<(Option<Seq<u8>>, Option<Seq<char>>, Option<Seq<char>>)>,
    pub known_number: Option<u32>,
}

impl View for ReplayTransaction {
    type V = TxView;

    open spec fn view(&self) -> TxView {
        TxView {
            txid: self.txid@,
            inputs: self.input@.map_values(
                |i: TxInput|
                    match i.previous_output {
                        Some(o) => Some((o.txid@, o.vout)),
                        None => None,
                    },
            ),
            outputs: self.output@.map_values(|o: TxOutput| (o.value, o.script_pubkey@)),
            inscription: match self.inscription {
                Some(ins) => Some(
                    (
                        match ins.body {
                            Some(b) => Some(b@),
                            None => None,
                        },
                        match ins.domain_name {
                            Some(n) => Some(n@),
                            None => None,
                        },
                        match ins.content_type {
                            Some(c) => Some(c@),
                            None => None,
                        },
                    ),
                ),
                None => None,
            },
            known_number: self.known_number,
        }
    }
}

/// An inscription on its way through a transaction: its id, its offset in
/// the inputs, and whether the transaction reveals it.
pub type Flot = (IdV, u64, bool);

/// What the replay carries from one transaction to the next: the tables,
/// where each inscription lies (by outpoint and offset), the address that
/// holds each inscription, and the next inscription number.
pub struct ReplayCtx {
    pub state: Wjk20State,
    pub sat: Map<((Seq<char>, u32), u64), IdV>,
    pub addrs: Map<IdV, Seq<char>>,
    pub next_number: u32,
}

/// The total value that the inputs stand for: the subsidy for each null
/// outpoint, one for each other input.
pub open spec fn inputs_value(inputs: Seq<Option<(Seq<char>, u32)>>, subsidy: u64) -> int
    decreases inputs.len(),
{
    if inputs.len() == 0 {
        0
    } else {
        inputs_value(inputs.drop_last(), subsidy) + match inputs.last() {
            None => subsidy as int,
            Some(_) => 1,
        }
    }
}

/// The sum of the values of the first `k` outputs.
pub open spec fn outputs_value(outputs: Seq<(u64, Seq<u8>)>, k: int) -> int
    decreases k,
{
    if k <= 0 {
        0
    } else {
        outputs_value(outputs, k - 1) + outputs[k - 1].0
    }
}

/// A transaction whose values fit the replay's arithmetic.
pub open spec fn tx_fits(tx: TxView, subsidy: u64) -> bool {
    &&& inputs_value(tx.inputs, subsidy) <= u64::MAX
    &&& outputs_value(tx.outputs, tx.outputs.len() as int) <= u64::MAX
    &&& tx.outputs.len() <= 0x1_0000_0000
}

/// Walking the inputs: an input that spends the output where an inscription
/// lies (at offset 0) takes it off that output; one whose holder is known
/// goes along at the value of the inputs before it.
pub open spec fn inputs_spec(
    sat: Map<((Seq<char>, u32), u64), IdV>,
    addrs: Map<IdV, Seq<char>>,
    inputs: Seq<Option<(Seq<char>, u32)>>,
    subsidy: u64,
) -> (Map<((Seq<char>, u32), u64), IdV>, Seq<Flot>, int)
    decreases inputs.len(),
{
    if inputs.len() == 0 {
        (sat, Seq::empty(), 0)
    } else {
        let prev = inputs_spec(sat, addrs, inputs.drop_last(), subsidy);
        match inputs.last() {
            None => (prev.0, prev.1, prev.2 + subsidy),
            Some(op) => {
                let sp = (op, 0u64);
                if prev.0.contains_key(sp) {
                    let id = prev.0[sp];
                    (
                        prev.0.remove(sp),
                        if addrs.contains_key(id) {
                            prev.1.push((id, prev.2 as u64, false))
                        } else {
                            prev.1
                        },
                        prev.2 + 1,
                    )
                } else {
                    (prev.0, prev.1, prev.2 + 1)
                }
            },
        }
    }
}

/// The address that output `i` pays to, or `unknown`.
pub open spec fn output_address(tx: TxView, i: int, network: Network) -> Seq<char> {
    match script_address_of(tx.outputs[i].1, network) {
        Some(a) => a,
        None => "unknown"@,
    }
}

/// The body and the domain name of the inscription a transaction reveals.
pub open spec fn inscription_body(tx: TxView) -> Option<Seq<u8>> {
    match tx.inscription {
        Some(ins) => ins.0,
        None => None,
    }
}

pub open spec fn inscription_domain(tx: TxView) -> Option<Seq<char>> {
    match tx.inscription {
        Some(ins) => ins.1,
        None => None,
    }
}

/// The content type of the inscription a transaction reveals.
pub open spec fn inscription_content_type(tx: TxView) -> Option<Seq<char>> {
    match tx.inscription {
        Some(ins) => ins.2,
        None => None,
    }
}

/// An inscription lands on output `i` (which starts at value `ov`): a
/// revealed one is revealed and placed, a moved one is sent from its
/// holder; either way its holder becomes the output's address, and it
/// lies at its offset within the output.
pub open spec fn place_spec(
    c: ReplayCtx,
    tx: TxView,
    f: Flot,
    newi: Option<(IdV, u32)>,
    height: u32,
    timestamp: u32,
    network: Network,
    i: int,
    ov: int,
) -> (Result<(), Wjk20Error>, ReplayCtx) {
    let address = output_address(tx, i, network);
    let satpoint = ((tx.txid, i as u32), (if f.1 >= ov {
        f.1 - ov
    } else {
        0
    }) as u64);
    if f.2 {
        let r: (Result<(), Wjk20Error>, Wjk20State) = match newi {
            Some(n) => if f.0 == n.0 {
                match reveal_spec(
                    c.state,
                    n.0,
                    n.1,
                    height,
                    timestamp,
                    inscription_body(tx),
                    inscription_content_type(tx),
                    inscription_domain(tx),
                ) {
                    Err(e) => (
                        Err(e),
                        reveal_prefix_spec(
                            c.state,
                            n.0,
                            n.1,
                            height,
                            timestamp,
                            inscription_body(tx),
                            inscription_content_type(tx),
                            inscription_domain(tx),
                        ),
                    ),
                    Ok(s1) => (Ok(()), placed_spec(s1, n.0, n.1, address)),
                }
            } else {
                (Ok(()), c.state)
            },
            None => (Ok(()), c.state),
        };
        match r.0 {
            Err(e) => (Err(e), ReplayCtx { state: r.1, ..c }),
            Ok(_) => (
                Ok(()),
                ReplayCtx {
                    state: r.1,
                    addrs: c.addrs.insert(f.0, address),
                    sat: c.sat.insert(satpoint, f.0),
                    ..c
                },
            ),
        }
    } else if c.addrs.contains_key(f.0) {
        let from = c.addrs[f.0];
        let s1 = match number_for_id_spec(c.state.event_by_number, id_string(f.0)) {
            Some(n) => sent_spec(c.state, f.0, n, from, address),
            None => owner_sent_spec(c.state, f.0, from, address),
        };
        (
            Ok(()),
            ReplayCtx {
                state: s1,
                addrs: c.addrs.insert(f.0, address),
                sat: c.sat.insert(satpoint, f.0),
                ..c
            },
        )
    } else {
        (Ok(()), ReplayCtx { sat: c.sat.insert(satpoint, f.0), ..c })
    }
}

/// Walking the outputs from output `i` (starting at value `ov`) and
/// inscription `j`: each inscription whose offset falls before the end of
/// the current output lands there, in order; the walk stops at the first
/// error.
pub open spec fn outputs_spec(
    c: ReplayCtx,
    tx: TxView,
    flot: Seq<Flot>,
    newi: Option<(IdV, u32)>,
    height: u32,
    timestamp: u32,
    network: Network,
    i: int,
    j: int,
    ov: int,
) -> (Result<(), Wjk20Error>, ReplayCtx)
    decreases tx.outputs.len() - i, flot.len() - j,
{
    if i < 0 || i >= tx.outputs.len() {
        (Ok(()), c)
    } else if 0 <= j < flot.len() && flot[j].1 < ov + tx.outputs[i].0 {
        let r = place_spec(c, tx, flot[j], newi, height, timestamp, network, i, ov);
        match r.0 {
            Err(e) => (Err(e), r.1),
            Ok(_) => outputs_spec(r.1, tx, flot, newi, height, timestamp, network, i, j + 1, ov),
        }
    } else {
        outputs_spec(c, tx, flot, newi, height, timestamp, network, i + 1, j, ov + tx.outputs[i].0)
    }
}

/// `a.max(b.saturating_add(1))` for inscription numbers.
pub open spec fn bump_number(next: u32, number: u32) -> u32 {
    let b: u32 = if number == u32::MAX {
        u32::MAX
    } else {
        (number + 1) as u32
    };
    if next >= b {
        next
    } else {
        b
    }
}

/// Replaying one transaction: its inputs collect the inscriptions they
/// spend, a revealed inscription joins them at offset 0 (numbered by the
/// index, or by the next number), and its outputs receive them.
pub open spec fn replay_tx_spec(
    c: ReplayCtx,
    tx: TxView,
    height: u32,
    timestamp: u32,
    subsidy: u64,
    network: Network,
) -> (Result<(), Wjk20Error>, ReplayCtx) {
    let ins = inputs_spec(c.sat, c.addrs, tx.inputs, subsidy);
    match tx.inscription {
        Some(_) => {
            let id = (tx.txid, 0u32);
            let number = match tx.known_number {
                Some(n) => n,
                None => c.next_number,
            };
            outputs_spec(
                ReplayCtx { sat: ins.0, next_number: bump_number(c.next_number, number), ..c },
                tx,
                ins.1.push((id, 0u64, true)),
                Some((id, number)),
                height,
                timestamp,
                network,
                0,
                0,
                0,
            )
        },
        None => outputs_spec(
            ReplayCtx { sat: ins.0, ..c },
            tx,
            ins.1,
            None,
            height,
            timestamp,
            network,
            0,
            0,
            0,
        ),
    }
}

/// Replaying transactions in order, stopping at the first error.
pub open spec fn replay_txs_spec(
    c: ReplayCtx,
    txs: Seq<TxView>,
    height: u32,
    timestamp: u32,
    subsidy: u64,
    network: Network,
) -> (Result<(), Wjk20Error>, ReplayCtx)
    decreases txs.len(),
{
    if txs.len() == 0 {
        (Ok(()), c)
    } else {
        let r = replay_txs_spec(c, txs.drop_last(), height, timestamp, subsidy, network);
        match r.0 {
            Err(_) => r,
            Ok(_) => replay_tx_spec(r.1, txs.last(), height, timestamp, subsidy, network),
        }
    }
}

/// The order in which a block's transactions are replayed: the coinbase
/// last.
pub open spec fn block_order(txs: Seq<TxView>) -> Seq<TxView> {
    if txs.len() == 0 {
        txs
    } else {
        txs.skip(1).push(txs[0])
    }
}

/// The transactions of a block by their views.
pub open spec fn block_txs(block: &BlockData) -> Seq<TxView> {
    block.txdata@.map_values(|t: ReplayTransaction| t@)
}

/// Replaying a whole block from the inscription positions and holders that
/// earlier blocks left (numbering unknown inscriptions from zero).
pub open spec fn replay_block_spec(
    s: Wjk20State,
    sat: Map<((Seq<char>, u32), u64), IdV>,
    addrs: Map<IdV, Seq<char>>,
    height: u32,
    block: &BlockData,
    network: Network,
) -> (Result<(), Wjk20Error>, ReplayCtx) {
    replay_txs_spec(
        ReplayCtx { state: s, sat, addrs, next_number: 0 },
        block_order(block_txs(block)),
        height,
        block.time,
        block.subsidy,
        network,
    )
}

/// The views of the inscriptions in transit.
pub open spec fn flot_view(v: Seq<(InscriptionId, u64, bool)>) -> Seq<Flot> {
    v.map_values(|f: (InscriptionId, u64, bool)| (f.0@, f.1, f.2))
}

/// The view of the revealed inscription and its number.
pub open spec fn newi_view(n: Option<(InscriptionId, u32)>) -> Option<(IdV, u32)> {
    match n {
        Some(p) => Some((p.0@, p.1)),
        None => None,
    }
}

/// The replay's carried state, from its parts.
pub open spec fn ctx_of(
    state: Wjk20State,
    sat: Table<((String, u32), u64), InscriptionId>,
    addrs: Table<InscriptionId, String>,
    next: u32,
) -> ReplayCtx {
    ReplayCtx { state, sat: sat.vmap(), addrs: addrs.vmap(), next_number: next }
}

proof fn lemma_inputs_value(
    sat: Map<((Seq<char>, u32), u64), IdV>,
    addrs: Map<IdV, Seq<char>>,
    inputs: Seq<Option<(Seq<char>, u32)>>,
    subsidy: u64,
)
    ensures
        inputs_spec(sat, addrs, inputs, subsidy).2 == inputs_value(inputs, subsidy),
        inputs_value(inputs, subsidy) >= 0,
    decreases inputs.len(),
{
    if inputs.len() > 0 {
        lemma_inputs_value(sat, addrs, inputs.drop_last(), subsidy);
    }
}

proof fn lemma_inputs_value_prefix(inputs: Seq<Option<(Seq<char>, u32)>>, subsidy: u64, k: int)
    requires
        0 <= k <= inputs.len(),
    ensures
        inputs_value(inputs.take(k), subsidy) <= inputs_value(inputs, subsidy),
    decreases inputs.len(),
{
    if k < inputs.len() {
        assert(inputs.drop_last().take(k) =~= inputs.take(k));
        lemma_inputs_value_prefix(inputs.drop_last(), subsidy, k);
    } else {
        assert(inputs.take(k) =~= inputs);
    }
}

proof fn lemma_outputs_value_prefix(outputs: Seq<(u64, Seq<u8>)>, k: int, n: int)
    requires
        0 <= k <= n,
    ensures
        outputs_value(outputs, k) <= outputs_value(outputs, n),
        outputs_value(outputs, k) >= 0,
    decreases n,
{
    if k < n {
        lemma_outputs_value_prefix(outputs, k, n - 1);
    } else if k > 0 {
        lemma_outputs_value_prefix(outputs, k - 1, k - 1);
    }
}

impl Wjk20Updater {
    /// An inscription lands on output `vout`, which starts at value `ov`.
    fn place_flotsam(
        &mut self,
        sat: &mut Table<((String, u32), u64), InscriptionId>,
        addrs: &mut Table<InscriptionId, String>,
        tx: &ReplayTransaction,
        f: &(InscriptionId, u64, bool),
        newi: &Option<(InscriptionId, u32)>,
        height: u32,
        timestamp: u32,
        vout: usize,
        ov: u64,
        next: Ghost<u32>,
    ) -> (r: Result<(), Wjk20Error>)
        requires
            old(self).wf(),
            old(sat).wf(),
            old(addrs).wf(),
            vout < tx.output@.len() <= 0x1_0000_0000,
        ensures
            final(self).wf(),
            final(sat).wf(),
            final(addrs).wf(),
            final(self).network_spec() == old(self).network_spec(),
            (r, ctx_of(final(self).state(), *final(sat), *final(addrs), next@)) == place_spec(
                ctx_of(old(self).state(), *old(sat), *old(addrs), next@),
                tx@,
                (f.0@, f.1, f.2),
                newi_view(*newi),
                height,
                timestamp,
                old(self).network_spec(),
                vout as int,
                ov as int,
            ),
    {
        let address = match address_for_network(tx.output[vout].script_pubkey.as_slice(), self.network()) {
            Some(a) => a,
            None => String::from_str("unknown"),
        };
        assert(tx@.outputs[vout as int].1 == tx.output@[vout as int].script_pubkey@);
        assert(address@ == output_address(tx@, vout as int, self.network_spec()));
        let offset: u64 = if f.1 >= ov {
            f.1 - ov
        } else {
            0
        };
        let satpoint = ((tx.txid.clone(), vout as u32), offset);
        if f.2 {
            match newi {
                Some(n) => {
                    if f.0.same(&n.0) {
                        let body: Option<&[u8]> = match &tx.inscription {
                            Some(ins) => match &ins.body {
                                Some(b) => Some(b.as_slice()),
                                None => None,
                            },
                            None => None,
                        };
                        let content_type: Option<&str> = match &tx.inscription {
                            Some(ins) => match &ins.content_type {
                                Some(c) => Some(c.as_str()),
                                None => None,
                            },
                            None => None,
                        };
                        let domain: Option<&str> = match &tx.inscription {
                            Some(ins) => match &ins.domain_name {
                                Some(d) => Some(d.as_str()),
                                None => None,
                            },
                            None => None,
                        };
                        let revealed = self.on_inscription_revealed(
                            n.0.duplicate(),
                            n.1,
                            height,
                            timestamp,
                            body,
                            content_type,
                            domain,
                        );
                        match revealed {
                            Err(e) => {
                                return Err(e);
                            },
                            Ok(()) => {},
                        }
                        self.on_inscription_placed(n.0.duplicate(), n.1, address.as_str());
                    }
                },
                None => {},
            }
            addrs.insert(f.0.duplicate(), address);
        } else {
            let from = match addrs.get(&f.0) {
                Some(a) => Some(a.clone()),
                None => None,
            };
            match from {
                Some(from) => {
                    match inscription_number_for_id(self.tables(), &f.0) {
                        Some(number) => {
                            self.on_inscription_sent(
                                f.0.duplicate(),
                                number,
                                from.as_str(),
                                address.as_str(),
                            );
                        },
                        None => {
                            self.on_inscription_moved(&f.0, from.as_str(), address.as_str());
                        },
                    }
                    addrs.insert(f.0.duplicate(), address);
                },
                None => {},
            }
        }
        sat.insert(satpoint, f.0.duplicate());
        Ok(())
    }

    /// Replays one transaction.
    fn replay_transaction(
        &mut self,
        tx: &ReplayTransaction,
        height: u32,
        timestamp: u32,
        subsidy: u64,
        next_number: &mut u32,
        sat: &mut Table<((String, u32), u64), InscriptionId>,
        addrs: &mut Table<InscriptionId, String>,
    ) -> (r: Result<(), Wjk20Error>)
        requires
            old(self).wf(),
            old(sat).wf(),
            old(addrs).wf(),
            tx_fits(tx@, subsidy),
        ensures
            final(self).wf(),
            final(sat).wf(),
            final(addrs).wf(),
            final(self).network_spec() == old(self).network_spec(),
            (r, ctx_of(final(self).state(), *final(sat), *final(addrs), *final(next_number)))
                == replay_tx_spec(
                ctx_of(old(self).state(), *old(sat), *old(addrs), *old(next_number)),
                tx@,
                height,
                timestamp,
                subsidy,
                old(self).network_spec(),
            ),
    {
        let ghost c0 = ctx_of(self.state(), *sat, *addrs, *next_number);
        let ghost txv = tx@;
        let ghost network = self.network_spec();
        let mut flot: Vec<(InscriptionId, u64, bool)> = Vec::new();
        let mut input_value: u64 = 0;
        let n_in = tx.input.len();
        let mut k: usize = 0;
        assert(txv.inputs.take(0) =~= Seq::<Option<(Seq<char>, u32)>>::empty());
        assert(flot_view(flot@) =~= Seq::<Flot>::empty());
        while k < n_in
            invariant
                n_in == tx.input@.len(),
                txv == tx@,
                txv.inputs.len() == n_in,
                0 <= k <= n_in,
                sat.wf(),
                addrs.wf(),
                self.wf(),
                self.state() == c0.state,
                self.network_spec() == network,
                addrs.vmap() == c0.addrs,
                *next_number == c0.next_number,
                tx_fits(txv, subsidy),
                (sat.vmap(), flot_view(flot@), input_value as int) == inputs_spec(
                    c0.sat,
                    c0.addrs,
                    txv.inputs.take(k as int),
                    subsidy,
                ),
            decreases n_in - k,
        {
            proof {
                assert(txv.inputs.take(k + 1).drop_last() =~= txv.inputs.take(k as int));
                assert(txv.inputs.take(k + 1).last() == txv.inputs[k as int]);
                lemma_inputs_value(c0.sat, c0.addrs, txv.inputs.take(k + 1), subsidy);
                lemma_inputs_value_prefix(txv.inputs, subsidy, k + 1);
            }
            match &tx.input[k].previous_output {
                None => {
                    input_value = input_value + subsidy;
                },
                Some(op) => {
                    let key = ((op.txid.clone(), op.vout), 0u64);
                    let found = match sat.get(&key) {
                        Some(id) => Some(id.duplicate()),
                        None => None,
                    };
                    match found {
                        Some(id) => {
                            sat.remove(&key);
                            if addrs.contains(&id) {
                                flot.push((id, input_value, false));
                                assert(flot_view(flot@) =~= inputs_spec(
                                    c0.sat,
                                    c0.addrs,
                                    txv.inputs.take(k as int),
                                    subsidy,
                                ).1.push((id@, input_value, false)));
                            }
                        },
                        None => {},
                    }
                    input_value = input_value + 1;
                },
            }
            k = k + 1;
        }
        assert(txv.inputs.take(n_in as int) =~= txv.inputs);
        let ghost ins = inputs_spec(c0.sat, c0.addrs, txv.inputs, subsidy);
        let mut newi: Option<(InscriptionId, u32)> = None;
        if tx.inscription.is_some() {
            let id = InscriptionId { txid: tx.txid.clone(), index: 0 };
            let number = match tx.known_number {
                Some(n) => n,
                None => *next_number,
            };
            let bumped = number.saturating_add(1);
            if *next_number < bumped {
                *next_number = bumped;
            }
            flot.push((id.duplicate(), 0, true));
            assert(flot_view(flot@) =~= ins.1.push((id@, 0u64, true)));
            newi = Some((id, number));
        }
        let ghost c1 = ctx_of(self.state(), *sat, *addrs, *next_number);
        let ghost total = outputs_spec(
            c1,
            txv,
            flot_view(flot@),
            newi_view(newi),
            height,
            timestamp,
            network,
            0,
            0,
            0,
        );
        assert(total == replay_tx_spec(c0, txv, height, timestamp, subsidy, network));
        let n_out = tx.output.len();
        let n_flot = flot.len();
        let mut output_value: u64 = 0;
        let mut j: usize = 0;
        let mut vout: usize = 0;
        while vout < n_out
            invariant
                n_out == tx.output@.len(),
                txv == tx@,
                txv.outputs.len() == n_out,
                n_flot == flot@.len(),
                0 <= vout <= n_out,
                0 <= j <= n_flot,
                sat.wf(),
                addrs.wf(),
                self.wf(),
                self.network_spec() == network,
                network == old(self).network_spec(),
                total == replay_tx_spec(
                    ctx_of(old(self).state(), *old(sat), *old(addrs), *old(next_number)),
                    txv,
                    height,
                    timestamp,
                    subsidy,
                    network,
                ),
                tx_fits(txv, subsidy),
                output_value as int == outputs_value(txv.outputs, vout as int),
                outputs_spec(
                    ctx_of(self.state(), *sat, *addrs, *next_number),
                    txv,
                    flot_view(flot@),
                    newi_view(newi),
                    height,
                    timestamp,
                    network,
                    vout as int,
                    j as int,
                    output_value as int,
                ) == total,
            decreases n_out - vout,
        {
            proof {
                lemma_outputs_value_prefix(txv.outputs, vout + 1, n_out as int);
            }
            assert(txv.outputs[vout as int].0 == tx.output@[vout as int].value);
            let end = output_value + tx.output[vout].value;
            while j < n_flot && flot[j].1 < end
                invariant
                    n_out == tx.output@.len(),
                    txv == tx@,
                    txv.outputs.len() == n_out,
                    n_flot == flot@.len(),
                    0 <= vout < n_out,
                    0 <= j <= n_flot,
                    sat.wf(),
                    addrs.wf(),
                    self.wf(),
                    self.network_spec() == network,
                network == old(self).network_spec(),
                total == replay_tx_spec(
                    ctx_of(old(self).state(), *old(sat), *old(addrs), *old(next_number)),
                    txv,
                    height,
                    timestamp,
                    subsidy,
                    network,
                ),
                    tx_fits(txv, subsidy),
                    end as int == output_value + txv.outputs[vout as int].0,
                    outputs_spec(
                        ctx_of(self.state(), *sat, *addrs, *next_number),
                        txv,
                        flot_view(flot@),
                        newi_view(newi),
                        height,
                        timestamp,
                        network,
                        vout as int,
                        j as int,
                        output_value as int,
                    ) == total,
                decreases n_flot - j,
            {
                let ghost cur = ctx_of(self.state(), *sat, *addrs, *next_number);
                let placed = self.place_flotsam(
                    sat,
                    addrs,
                    tx,
                    &flot[j],
                    &newi,
                    height,
                    timestamp,
                    vout,
                    output_value,
                    Ghost(*next_number),
                );
                proof {
                    assert(flot_view(flot@)[j as int] == (flot@[j as int].0@, flot@[j as int].1, flot@[j as int].2));
                }
                match placed {
                    Err(e) => {
                        return Err(e);
                    },
                    Ok(()) => {},
                }
                j = j + 1;
            }
            output_value = end;
            vout = vout + 1;
        }
        r_ok()
    }

    /// Replays the transactions of a block (the coinbase last), following
    /// inscriptions from input to output and applying reveals, placements
    /// and sends. Positions and holders carry over from earlier blocks and
    /// on to later ones. It stops at the first error.
    pub fn replay_block_data(&mut self, height: u32, block: &BlockData) -> (r: Result<(), Wjk20Error>)
        requires
            old(self).wf(),
            forall|k: int| 0 <= k < block.txdata@.len() ==> tx_fits(#[trigger] block.txdata@[k]@, block.subsidy),
        ensures
            final(self).wf(),
            final(self).network_spec() == old(self).network_spec(),
            ({
                let spec = replay_block_spec(
                    old(self).state(),
                    old(self).positions_spec(),
                    old(self).holders_spec(),
                    height,
                    block,
                    old(self).network_spec(),
                );
                &&& r == spec.0
                &&& final(self).state() == spec.1.state
                &&& final(self).positions_spec() == spec.1.sat
                &&& final(self).holders_spec() == spec.1.addrs
            }),
    {
        let ghost network = self.network_spec();
        let ghost txs = block_txs(block);
        let ghost order = block_order(txs);
        let ghost c0 = ReplayCtx {
            state: self.state(),
            sat: self.positions_spec(),
            addrs: self.holders_spec(),
            next_number: 0,
        };
        let mut next_number: u32 = 0;
        let (mut sat, mut addrs) = self.take_positions();
        let n = block.txdata.len();
        let timestamp = block.time;
        let mut k: usize = 0;
        assert(order.take(0) =~= Seq::<TxView>::empty());
        while k < n
            invariant
                n == block.txdata@.len(),
                txs == block_txs(block),
                order == block_order(txs),
                order.len() == n,
                0 <= k <= n,
                timestamp == block.time,
                sat.wf(),
                addrs.wf(),
                self.wf(),
                self.network_spec() == network,
                network == old(self).network_spec(),
                c0 == (ReplayCtx {
                    state: old(self).state(),
                    sat: old(self).positions_spec(),
                    addrs: old(self).holders_spec(),
                    next_number: 0,
                }),
                forall|q: int| 0 <= q < block.txdata@.len() ==> tx_fits(#[trigger] block.txdata@[q]@, block.subsidy),
                replay_txs_spec(c0, order.take(k as int), height, block.time, block.subsidy, network) == (
                    Ok::<(), Wjk20Error>(()),
                    ctx_of(self.state(), sat, addrs, next_number),
                ),
            decreases n - k,
        {
            let idx = if k + 1 < n {
                k + 1
            } else {
                0
            };
            proof {
                assert(order[k as int] == txs[idx as int]);
                assert(txs[idx as int] == block.txdata@[idx as int]@);
                assert(order.take(k + 1).drop_last() =~= order.take(k as int));
                assert(order.take(k + 1).last() == order[k as int]);
            }
            let step = self.replay_transaction(
                &block.txdata[idx],
                height,
                timestamp,
                block.subsidy,
                &mut next_number,
                &mut sat,
                &mut addrs,
            );
            match step {
                Err(e) => {
                    proof {
                        assert(replay_txs_spec(c0, order.take(k + 1), height, block.time, block.subsidy, network) == (
                            Err::<(), Wjk20Error>(e),
                            ctx_of(self.state(), sat, addrs, next_number),
                        ));
                        lemma_replay_stops(c0, order, k as int + 1, height, block.time, block.subsidy, network);
                        assert(order.take(n as int) =~= order);
                    }
                    self.restore_positions(sat, addrs);
                    return Err(e);
                },
                Ok(u) => {
                    assert(step == Ok::<(), Wjk20Error>(()));
                },
            }
            k = k + 1;
        }
        assert(order.take(n as int) =~= order);
        self.restore_positions(sat, addrs);
        Ok(())
    }
}

/// `Ok(())`.
fn r_ok() -> (r: Result<(), Wjk20Error>)
    ensures
        r == Ok::<(), Wjk20Error>(()),
{
    Ok(())
}

/// Once the replay of a prefix fails, the replay of every longer prefix
/// fails with the same error and state.
proof fn lemma_replay_stops(
    c: ReplayCtx,
    txs: Seq<TxView>,
    k: int,
    height: u32,
    timestamp: u32,
    subsidy: u64,
    network: Network,
)
    requires
        0 <= k <= txs.len(),
        replay_txs_spec(c, txs.take(k), height, timestamp, subsidy, network).0 is Err,
    ensures
        replay_txs_spec(c, txs, height, timestamp, subsidy, network) == replay_txs_spec(
            c,
            txs.take(k),
            height,
            timestamp,
            subsidy,
            network,
        ),
    decreases txs.len() - k,
{
    if k < txs.len() {
        assert(txs.take(k + 1).drop_last() =~= txs.take(k));
        lemma_replay_stops(c, txs, k + 1, height, timestamp, subsidy, network);
    } else {
        assert(txs.take(k) =~= txs);
    }
}

} // verus!
