use ordwoj::chain::Network;
use ordwoj::ledger::Wjk20Updater;
use ordwoj::read::{collection_summary, list_collections, CollectionSummary};
use ordwoj::tables::{InscriptionId, Wjk20WriteTables};

fn id(tx: &str) -> InscriptionId {
    InscriptionId { txid: tx.to_string(), index: 0 }
}

fn summary(tx: &str, number: u32, children: u64) -> CollectionSummary {
    CollectionSummary { inscription_id: id(tx), inscription_number: number, child_count: children }
}

#[test]
fn collections_are_listed_by_children_most_first() {
    let all = vec![summary("a", 1, 2), summary("b", 2, 5), summary("c", 3, 2), summary("d", 4, 9)];
    let page = list_collections(all.clone(), 10, 0);
    let numbers: Vec<u32> = page.iter().map(|c| c.inscription_number).collect();
    assert_eq!(numbers, vec![4, 2, 1, 3]);
    let page = list_collections(all.clone(), 2, 1);
    let numbers: Vec<u32> = page.iter().map(|c| c.inscription_number).collect();
    assert_eq!(numbers, vec![2, 1]);
    assert!(list_collections(all, 3, 4).is_empty());
}

#[test]
fn a_collection_needs_its_parent() {
    let children = vec![id("x"), id("y")];
    assert!(collection_summary(None, 7, &children).is_none());
    let s = collection_summary(Some(id("p")), 7, &children).unwrap();
    assert_eq!(s.inscription_id.to_string(), "pi0");
    assert_eq!(s.inscription_number, 7);
    assert_eq!(s.child_count, 2);
}

#[test]
fn deploys_are_listed_newest_first_keeping_number_order_on_ties() {
    let mut u = Wjk20Updater::new(Wjk20WriteTables::new(), Network::Bitcoin);
    let deploys = [("d1", 1, 10, "aaaa"), ("d2", 2, 12, "bbbb"), ("d3", 3, 12, "cccc"), ("d4", 4, 11, "dddd")];
    for (tx, number, height, tick) in deploys {
        let body = format!(r#"{{"p":"wjk-20","op":"deploy","tick":"{tick}","max":"10","lim":"1"}}"#);
        u.on_inscription_revealed(id(tx), number, height, 0, Some(body.as_bytes()), Some("application/json"), None).unwrap();
    }
    let ticks: Vec<String> = u.tables().wjk20_list_deploys(10, 0).into_iter().map(|e| e.tick).collect();
    assert_eq!(ticks, vec!["bbbb", "cccc", "dddd", "aaaa"]);
    let ticks: Vec<String> = u.tables().wjk20_list_deploys(2, 1).into_iter().map(|e| e.tick).collect();
    assert_eq!(ticks, vec!["cccc", "dddd"]);
    let tokens: Vec<String> = u.tables().wjk20_list_tokens().into_iter().map(|t| t.tick).collect();
    assert_eq!(tokens, vec!["aaaa", "bbbb", "cccc", "dddd"]);
}

#[test]
fn inscription_ids_display_as_txid_and_index() {
    let i = InscriptionId { txid: "abc".to_string(), index: 12 };
    assert_eq!(i.to_string(), "abci12");
    assert!(i.same(&InscriptionId { txid: "abc".to_string(), index: 12 }));
    assert!(!i.same(&InscriptionId { txid: "abc".to_string(), index: 1 }));
}
