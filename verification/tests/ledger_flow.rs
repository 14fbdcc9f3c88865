use ordwoj::chain::{Chain, Network};
use ordwoj::ledger::Wjk20Updater;
use ordwoj::replay::{BlockData, OutPoint, ReplayTransaction, RevealedInscription, TxInput, TxOutput};
use ordwoj::tables::{
    clear_domains, clear_tables, clear_wjk20_ledger, clear_wojakmap_claims, rebuild, rebuild_domains,
    rebuild_wojakmaps, InscriptionId, Wjk20WriteTables,
};

fn id(tx: &str) -> InscriptionId {
    InscriptionId { txid: tx.to_string(), index: 0 }
}

fn updater() -> Wjk20Updater {
    Wjk20Updater::new(Wjk20WriteTables::new(), Network::Bitcoin)
}

fn deploy_body(tick: &str, max: &str, lim: &str) -> Vec<u8> {
    format!(r#"{{"p":"wjk-20","op":"deploy","tick":"{tick}","max":"{max}","lim":"{lim}"}}"#).into_bytes()
}

fn mint_body(tick: &str, amt: &str) -> Vec<u8> {
    format!(r#"{{"p":"wjk-20","op":"mint","tick":"{tick}","amt":"{amt}"}}"#).into_bytes()
}

fn transfer_body(tick: &str, amt: &str) -> Vec<u8> {
    format!(r#"{{"p":"wjk-20","op":"transfer","tick":"{tick}","amt":"{amt}"}}"#).into_bytes()
}

fn reveal_and_place(u: &mut Wjk20Updater, tx: &str, number: u32, height: u32, body: &[u8], address: &str) {
    u.on_inscription_revealed(id(tx), number, height, 1_000, Some(body), Some("application/json"), None).unwrap();
    u.on_inscription_placed(id(tx), number, address);
}

fn balance(u: &Wjk20Updater, address: &str, tick: &str) -> String {
    u.tables().wjk20_balance(address, tick)
}

/// A deployed token with `minted` minted to alice.
fn token_with_mints(minted: u32) -> Wjk20Updater {
    let mut u = updater();
    reveal_and_place(&mut u, "d1", 1, 10, &deploy_body("wojk", "1000", "100"), "alice");
    for k in 0..minted {
        let tx = format!("m{k}");
        reveal_and_place(&mut u, &tx, 100 + k, 11, &mint_body("wojk", "100"), "alice");
    }
    u
}

#[test]
fn deploy_records_the_token_and_its_deployer() {
    let u = token_with_mints(0);
    let t = u.tables().wjk20_get_token("WOJK").unwrap();
    assert_eq!(t.tick, "wojk");
    assert_eq!(t.max, "1000");
    assert_eq!(t.lim, "100");
    assert_eq!(t.dec, 18);
    assert_eq!(t.inscription_id, "d1i0");
    assert_eq!(t.inscription_number, 1);
    assert_eq!(t.height, 10);
    assert_eq!(t.deployer, "alice");
    assert!(u.tables().wjk20_get_token("nope").is_none());
    let deploys = u.tables().wjk20_list_deploys(10, 0);
    assert_eq!(deploys.len(), 1);
    assert_eq!(deploys[0].op, "deploy");
    assert_eq!(deploys[0].max, Some("1000".to_string()));
    assert_eq!(deploys[0].address, Some("alice".to_string()));
}

#[test]
fn the_first_deploy_of_a_tick_wins() {
    let mut u = token_with_mints(0);
    reveal_and_place(&mut u, "d2", 2, 12, &deploy_body("WOJK", "5", "5"), "bob");
    let t = u.tables().wjk20_get_token("wojk").unwrap();
    assert_eq!(t.max, "1000");
    assert_eq!(t.deployer, "alice");
    assert_eq!(u.tables().wjk20_list_tokens().len(), 1);
}

#[test]
fn invalid_deploys_create_nothing() {
    let mut u = updater();
    reveal_and_place(&mut u, "d1", 1, 10, &deploy_body("aaaa", "0", "1"), "alice");
    reveal_and_place(&mut u, "d2", 2, 10, &deploy_body("bbbb", "10", "0"), "alice");
    reveal_and_place(&mut u, "d3", 3, 10, &deploy_body("cccc", "10", "11"), "alice");
    assert!(u.tables().wjk20_list_tokens().is_empty());
}

#[test]
fn mints_settle_when_placed() {
    let u = token_with_mints(1);
    assert_eq!(balance(&u, "alice", "wojk"), "100");
    assert_eq!(balance(&u, "alice", "WOJK"), "100");
    assert_eq!(balance(&u, "bob", "wojk"), "0");
    let entry = u.tables().wjk20_balance_entry("alice", "WoJk");
    assert_eq!(entry.tick, "wojk");
    assert_eq!(entry.balance, "100");
}

#[test]
fn mints_above_the_limit_or_the_supply_are_refused() {
    let mut u = token_with_mints(1);
    reveal_and_place(&mut u, "over", 50, 11, &mint_body("wojk", "101"), "alice");
    reveal_and_place(&mut u, "zero", 51, 11, &mint_body("wojk", "0"), "alice");
    reveal_and_place(&mut u, "none", 52, 11, &mint_body("nope", "5"), "alice");
    assert_eq!(balance(&u, "alice", "wojk"), "100");

    let mut u = token_with_mints(10);
    assert_eq!(balance(&u, "alice", "wojk"), "1000");
    reveal_and_place(&mut u, "last", 500, 12, &mint_body("wojk", "1"), "alice");
    assert_eq!(balance(&u, "alice", "wojk"), "1000");
}

#[test]
fn placing_twice_credits_a_mint_once() {
    let mut u = token_with_mints(1);
    u.on_inscription_placed(id("m0"), 100, "alice");
    assert_eq!(balance(&u, "alice", "wojk"), "100");
    u.on_inscription_placed(id("m0"), 100, "bob");
    assert_eq!(balance(&u, "bob", "wojk"), "0");
}

#[test]
fn transfers_move_their_amount_once_when_sent() {
    let mut u = token_with_mints(3);
    reveal_and_place(&mut u, "t1", 200, 13, &transfer_body("wojk", "40"), "alice");
    assert_eq!(balance(&u, "alice", "wojk"), "300");
    u.on_inscription_sent(id("t1"), 200, "alice", "alice");
    u.on_inscription_sent(id("t1"), 200, "alice", "unbound");
    assert_eq!(balance(&u, "alice", "wojk"), "300");
    u.on_inscription_sent(id("t1"), 200, "alice", "bob");
    assert_eq!(balance(&u, "alice", "wojk"), "260");
    assert_eq!(balance(&u, "bob", "wojk"), "40");
    u.on_inscription_sent(id("t1"), 200, "bob", "carol");
    assert_eq!(balance(&u, "bob", "wojk"), "40");
    assert_eq!(balance(&u, "carol", "wojk"), "0");
    let event = u.tables().event_by_number.get(&200).unwrap();
    assert_eq!(event.op, "transfer");
    assert_eq!(event.amt, Some("40".to_string()));
    assert_eq!(event.address, Some("alice".to_string()));
    assert_eq!(event.to_address, Some("bob".to_string()));
}

#[test]
fn a_transfer_beyond_the_senders_balance_still_credits_the_receiver() {
    let mut u = token_with_mints(1);
    reveal_and_place(&mut u, "t1", 200, 13, &transfer_body("wojk", "500"), "alice");
    u.on_inscription_sent(id("t1"), 200, "alice", "bob");
    assert_eq!(balance(&u, "alice", "wojk"), "100");
    assert_eq!(balance(&u, "bob", "wojk"), "500");
    assert!(u.tables().pending_transfer.get(&id("t1")).is_none());
    u.on_inscription_sent(id("t1"), 200, "bob", "carol");
    assert_eq!(balance(&u, "carol", "wojk"), "0");
}

#[test]
fn balances_of_an_address_are_listed_by_tick() {
    let mut u = token_with_mints(1);
    reveal_and_place(&mut u, "d9", 9, 10, &deploy_body("abcd", "10", "10"), "bob");
    reveal_and_place(&mut u, "m9", 90, 10, &mint_body("abcd", "7"), "alice");
    let list = u.tables().wjk20_balances("alice");
    assert_eq!(list.len(), 2);
    assert_eq!((list[0].tick.as_str(), list[0].balance.as_str()), ("abcd", "7"));
    assert_eq!((list[1].tick.as_str(), list[1].balance.as_str()), ("wojk", "100"));
    assert!(u.tables().wjk20_balances("nobody").is_empty());
}

#[test]
fn the_first_claim_of_a_block_wins() {
    let mut u = updater();
    u.try_claim_wojakmap(id("c1"), 10, 111, Some(b"5.wojakmap"), Some("text/plain;charset=utf-8"));
    u.try_claim_wojakmap(id("c2"), 11, 222, Some(b"5.wojakmap"), Some("text/plain;charset=utf-8"));
    u.try_claim_wojakmap(id("c3"), 10, 333, Some(b"50.wojakmap"), Some("text/plain;charset=utf-8"));
    u.try_claim_wojakmap(id("c4"), 10, 444, Some(b"10.wojakmap"), Some("text/plain;charset=utf-8"));
    u.try_claim_wojakmap(id("c5"), 10, 555, None, Some("text/plain;charset=utf-8"));
    let c = u.tables().wojakmap_claim(5).unwrap();
    assert_eq!(c.block_number, 5);
    assert_eq!(c.inscription_id.to_string(), "c1i0");
    assert_eq!(c.claim_height, 10);
    assert_eq!(c.claim_timestamp, 111);
    assert!(u.tables().wojakmap_claim(50).is_none());
    let by_id = u.tables().wojakmap_claim_by_inscription(&id("c4")).unwrap();
    assert_eq!(by_id.block_number, 10);
    assert!(u.tables().wojakmap_claim_by_inscription(&id("c2")).is_none());
    let page = u.tables().wjk20_list_wojakmaps(10, 0);
    assert_eq!(page.iter().map(|c| c.block_number).collect::<Vec<_>>(), vec![5, 10]);
    let page = u.tables().wjk20_list_wojakmaps(1, 1);
    assert_eq!(page.iter().map(|c| c.block_number).collect::<Vec<_>>(), vec![10]);
    assert!(u.tables().wjk20_list_wojakmaps(5, 9).is_empty());
}

#[test]
fn domains_register_once_and_follow_their_inscription() {
    let mut u = updater();
    u.try_register_domain(id("n1"), 30, 12, 2000, Some("alice"));
    u.try_register_domain(id("n2"), 31, 13, 2001, Some("alice"));
    let d = u.tables().get_domain("alice").unwrap();
    assert_eq!(d.inscription_id, "n1i0");
    assert_eq!(d.full_name, "alice.wjk");
    assert_eq!(d.owner_address, "");
    u.on_inscription_placed(id("n1"), 30, "addrA");
    assert_eq!(u.tables().get_domain(" ALICE.wjk ").unwrap().owner_address, "addrA");
    assert_eq!(u.tables().domains_by_address("addrA").len(), 1);
    u.on_inscription_sent(id("n1"), 30, "addrA", "addrB");
    assert!(u.tables().domains_by_address("addrA").is_empty());
    let mine = u.tables().domains_by_address("addrB");
    assert_eq!(mine.len(), 1);
    assert_eq!(mine[0].name, "alice");
    assert_eq!(mine[0].height, 12);
    u.on_inscription_placed(id("n2"), 31, "addrC");
    assert!(u.tables().domains_by_address("addrC").is_empty());
}

#[test]
fn domain_lookups_and_stats() {
    let mut u = updater();
    u.try_register_domain(id("n1"), 30, 12, 2000, Some("bob"));
    u.try_register_domain(id("n2"), 31, 14, 2001, Some("carl"));
    u.try_register_domain(id("n3"), 32, 14, 2002, Some("anna"));
    u.try_register_domain(id("n4"), 33, 15, 2003, Some("zed"));
    u.on_inscription_placed(id("n1"), 30, "addrA");
    u.on_inscription_placed(id("n2"), 31, "addrA");
    u.on_inscription_placed(id("n4"), 33, "unknown");
    let l = u.tables().domain_lookup("  Bob.wjk");
    assert_eq!(l.name, "bob");
    assert_eq!(l.full_name, "bob.wjk");
    assert!(!l.available);
    assert_eq!(l.domain.unwrap().inscription_number, 30);
    let l = u.tables().domain_lookup("nobody.WJK");
    assert_eq!(l.name, "nobody");
    assert!(l.available);
    assert!(l.domain.is_none());
    let s = u.tables().domain_stats();
    assert_eq!(s.total, 4);
    assert_eq!(s.unique_owners, 2);
    assert!(u.tables().domains_by_address("unknown").is_empty());
    let names: Vec<String> = u.tables().list_domains(10, 0).into_iter().map(|d| d.name).collect();
    assert_eq!(names, vec!["zed", "anna", "carl", "bob"]);
    let names: Vec<String> = u.tables().list_domains(2, 1).into_iter().map(|d| d.name).collect();
    assert_eq!(names, vec!["anna", "carl"]);
    let owned: Vec<String> = u.tables().domains_by_address("addrA").into_iter().map(|d| d.name).collect();
    assert_eq!(owned, vec!["bob", "carl"]);
}

#[test]
fn clearing_tables() {
    let mut u = token_with_mints(1);
    u.try_claim_wojakmap(id("c1"), 10, 111, Some(b"5.wojakmap"), Some("text/plain;charset=utf-8"));
    u.try_register_domain(id("n1"), 30, 12, 2000, Some("alice"));
    u.mark_wojakmap_root(7);
    let mut t = u.into_tables();
    clear_wjk20_ledger(&mut t);
    assert!(t.wjk20_list_tokens().is_empty());
    assert_eq!(t.wjk20_balance("alice", "wojk"), "0");
    assert!(t.wojakmap_claim(5).is_some());
    assert!(t.get_domain("alice").is_some());
    clear_wojakmap_claims(&mut t);
    assert!(t.wojakmap_claim(5).is_none());
    assert!(t.get_domain("alice").is_some());
    clear_domains(&mut t);
    assert!(t.get_domain("alice").is_none());
    assert_eq!(t.wojakmap_roots.len(), 1);
    clear_tables(&mut t);
    assert_eq!(t.wojakmap_roots.len(), 0);
}

fn p2pkh(byte: u8) -> Vec<u8> {
    let mut s = vec![0x76, 0xa9, 0x14];
    s.extend_from_slice(&[byte; 20]);
    s.extend_from_slice(&[0x88, 0xac]);
    s
}

fn coinbase(txid: &str) -> ReplayTransaction {
    ReplayTransaction {
        txid: txid.to_string(),
        input: vec![TxInput { previous_output: None }],
        output: vec![TxOutput { value: 5_000, script_pubkey: p2pkh(9) }],
        inscription: None,
        known_number: None,
    }
}

fn reveal_tx(txid: &str, body: Vec<u8>, number: Option<u32>, to: u8) -> ReplayTransaction {
    typed_reveal_tx(txid, body, "text/plain", number, to)
}

fn typed_reveal_tx(txid: &str, body: Vec<u8>, content_type: &str, number: Option<u32>, to: u8) -> ReplayTransaction {
    ReplayTransaction {
        txid: txid.to_string(),
        input: vec![TxInput { previous_output: Some(OutPoint { txid: format!("{txid}-funding"), vout: 0 }) }],
        output: vec![TxOutput { value: 1, script_pubkey: p2pkh(to) }],
        inscription: Some(RevealedInscription { body: Some(body), content_type: Some(content_type.to_string()), domain_name: None }),
        known_number: number,
    }
}

#[test]
fn replaying_blocks_follows_inscriptions() {
    let mut u = updater();
    let alice = Chain::Mainnet.address_from_script(&p2pkh(0)).unwrap();
    let bob = Chain::Mainnet.address_from_script(&p2pkh(1)).unwrap();
    assert_eq!(alice, "1111111111111111111114oLvT2");
    let b1 = BlockData {
        time: 100,
        subsidy: 5_000,
        txdata: vec![coinbase("cb1"), reveal_tx("d1", deploy_body("wojk", "1000", "100"), Some(5), 0)],
    };
    u.replay_block_data(10, &b1).unwrap();
    assert_eq!(u.tables().wjk20_get_token("wojk").unwrap().deployer, alice);
    let b2 = BlockData {
        time: 101,
        subsidy: 5_000,
        txdata: vec![coinbase("cb2"), reveal_tx("m1", mint_body("wojk", "100"), Some(6), 0)],
    };
    u.replay_block_data(11, &b2).unwrap();
    assert_eq!(u.tables().wjk20_balance(&alice, "wojk"), "100");
    let spend = ReplayTransaction {
        txid: "s1".to_string(),
        input: vec![TxInput { previous_output: Some(OutPoint { txid: "t1".to_string(), vout: 0 }) }],
        output: vec![TxOutput { value: 1, script_pubkey: p2pkh(1) }],
        inscription: None,
        known_number: None,
    };
    let b3 = BlockData {
        time: 102,
        subsidy: 5_000,
        txdata: vec![coinbase("cb3"), reveal_tx("t1", transfer_body("wojk", "40"), None, 0), spend],
    };
    u.replay_block_data(12, &b3).unwrap();
    assert_eq!(u.tables().wjk20_balance(&alice, "wojk"), "60");
    assert_eq!(u.tables().wjk20_balance(&bob, "wojk"), "40");
    let b4 = BlockData {
        time: 103,
        subsidy: 5_000,
        txdata: vec![coinbase("cb4"), reveal_tx("w1", b"3.wojakmap".to_vec(), Some(9), 1)],
    };
    u.replay_block_data(13, &b4).unwrap();
    let c = u.tables().wojakmap_claim(3).unwrap();
    assert_eq!(c.inscription_id.to_string(), "w1i0");
    assert_eq!(c.claim_timestamp, 103);
}

#[test]
fn a_replay_stops_at_a_stored_amount_that_does_not_read() {
    let mut t = Wjk20WriteTables::new();
    let mut u0 = Wjk20Updater::new(Wjk20WriteTables::new(), Network::Bitcoin);
    reveal_and_place(&mut u0, "d1", 1, 10, &deploy_body("wojk", "1000", "100"), "alice");
    let mut record = u0.tables().wjk20_get_token("wojk").unwrap();
    record.lim = "many".to_string();
    t.deploy.insert("wojk".to_string(), record);
    let mut u = Wjk20Updater::new(t, Network::Bitcoin);
    let r = u.on_inscription_revealed(id("m1"), 2, 11, 0, Some(&mint_body("wojk", "5")), None, None);
    assert_eq!(r, Err(ordwoj::tables::Wjk20Error::InvalidAmount));
}

#[test]
fn rebuilding_a_part_takes_it_from_fresh_tables() {
    let mut u = token_with_mints(1);
    u.try_claim_wojakmap(id("c7"), 10, 1, Some(b"7.wojakmap"), Some("text/plain;charset=utf-8"));
    u.try_register_domain(id("n1"), 30, 12, 2000, Some("alice"));
    let mut t = u.into_tables();

    rebuild(&mut t, Wjk20WriteTables::new());
    assert!(t.wjk20_list_tokens().is_empty());
    assert!(t.wojakmap_claim(7).is_some());

    let mut f = updater();
    f.try_claim_wojakmap(id("c5"), 10, 1, Some(b"5.wojakmap"), Some("text/plain;charset=utf-8"));
    rebuild_wojakmaps(&mut t, f.into_tables());
    assert!(t.wojakmap_claim(7).is_none());
    assert!(t.wojakmap_claim(5).is_some());
    assert!(t.get_domain("alice").is_some());

    let mut f = updater();
    f.try_register_domain(id("n2"), 31, 13, 2001, Some("bob"));
    rebuild_domains(&mut t, f.into_tables());
    assert!(t.get_domain("alice").is_none());
    assert!(t.get_domain("bob").is_some());
    assert!(t.wojakmap_claim(5).is_some());

    let mut f = token_with_mints(2);
    f.mark_wojakmap_root(3);
    rebuild(&mut t, f.into_tables());
    assert_eq!(t.wjk20_balance("alice", "wojk"), "200");
    assert_eq!(t.wojakmap_roots.len(), 0);
}

#[test]
fn only_plain_text_claims_a_block() {
    let mut u = updater();
    u.try_claim_wojakmap(id("c1"), 10, 1, Some(b"5.wojakmap"), Some("image/png"));
    u.try_claim_wojakmap(id("c2"), 10, 1, Some(b"5.wojakmap"), None);
    u.try_claim_wojakmap(id("c3"), 10, 1, Some(b"5.wojakmap"), Some("text/html"));
    assert!(u.tables().wojakmap_claim(5).is_none());
    u.on_inscription_revealed(id("c4"), 4, 10, 1, Some(b"5.wojakmap"), Some("application/json"), None).unwrap();
    assert!(u.tables().wojakmap_claim(5).is_none());
    u.on_inscription_revealed(id("c5"), 5, 10, 1, Some(b"5.wojakmap"), Some("text/plain"), None).unwrap();
    assert_eq!(u.tables().wojakmap_claim(5).unwrap().inscription_id.to_string(), "c5i0");
}

fn spend_tx(txid: &str, from_tx: &str, to: u8) -> ReplayTransaction {
    ReplayTransaction {
        txid: txid.to_string(),
        input: vec![TxInput { previous_output: Some(OutPoint { txid: from_tx.to_string(), vout: 0 }) }],
        output: vec![TxOutput { value: 1, script_pubkey: p2pkh(to) }],
        inscription: None,
        known_number: None,
    }
}

#[test]
fn sends_in_later_blocks_move_balances_and_domains() {
    let mut u = updater();
    let alice = Chain::Mainnet.address_from_script(&p2pkh(0)).unwrap();
    let bob = Chain::Mainnet.address_from_script(&p2pkh(1)).unwrap();
    let b1 = BlockData {
        time: 100,
        subsidy: 5_000,
        txdata: vec![
            coinbase("cb1"),
            typed_reveal_tx("d1", deploy_body("wojk", "1000", "100"), "application/json", Some(5), 0),
            typed_reveal_tx("m1", mint_body("wojk", "100"), "application/json", Some(6), 0),
            typed_reveal_tx("t1", transfer_body("wojk", "30"), "application/json", Some(7), 0),
        ],
    };
    u.replay_block_data(10, &b1).unwrap();
    assert_eq!(u.tables().wjk20_balance(&alice, "wojk"), "100");
    let mut domain_reveal = typed_reveal_tx("n1", b"alice.wjk".to_vec(), "text/plain", Some(8), 0);
    domain_reveal.inscription.as_mut().unwrap().domain_name = Some("alice".to_string());
    let b2 = BlockData { time: 101, subsidy: 5_000, txdata: vec![coinbase("cb2"), domain_reveal] };
    u.replay_block_data(11, &b2).unwrap();
    assert_eq!(u.tables().get_domain("alice").unwrap().owner_address, alice);
    let b3 = BlockData {
        time: 102,
        subsidy: 5_000,
        txdata: vec![coinbase("cb3"), spend_tx("s1", "t1", 1), spend_tx("s2", "n1", 1)],
    };
    u.replay_block_data(12, &b3).unwrap();
    assert_eq!(u.tables().wjk20_balance(&alice, "wojk"), "70");
    assert_eq!(u.tables().wjk20_balance(&bob, "wojk"), "30");
    assert_eq!(u.tables().get_domain("alice").unwrap().owner_address, bob);
    assert_eq!(u.tables().domains_by_address(&bob).len(), 1);
    assert!(u.tables().domains_by_address(&alice).is_empty());
}
