use ordwoj::chain::{address_for_network, Chain, Network};
use ordwoj::read::default_limit;
use ordwoj::rpc::{decode_transaction_hex, get_confirmations, is_transaction_in_active_chain};

fn p2pkh(hash: [u8; 20]) -> Vec<u8> {
    let mut s = vec![0x76, 0xa9, 0x14];
    s.extend_from_slice(&hash);
    s.extend_from_slice(&[0x88, 0xac]);
    s
}

#[test]
fn chains_are_named_and_read_back() {
    assert_eq!(Chain::parse("mainnet").unwrap(), Chain::Mainnet);
    assert_eq!(Chain::parse("main").unwrap(), Chain::Mainnet);
    assert_eq!(Chain::parse("testnet").unwrap(), Chain::Testnet);
    assert_eq!(Chain::parse("test").unwrap(), Chain::Testnet);
    assert_eq!(Chain::parse("signet").unwrap(), Chain::Signet);
    assert_eq!(Chain::parse("regtest").unwrap(), Chain::Regtest);
    let err = Chain::parse("Mainnet").unwrap_err();
    assert_eq!(err.name, "Mainnet");
    assert!(Chain::parse("").is_err());
    for c in [Chain::Mainnet, Chain::Testnet, Chain::Signet, Chain::Regtest] {
        assert_eq!(Chain::parse(&c.name()).unwrap(), c);
    }
    assert_eq!(Chain::Mainnet.name(), "mainnet");
    assert_eq!(Chain::Testnet.name(), "testnet");
}

#[test]
fn chain_parameters() {
    assert_eq!(Chain::Mainnet.default_rpc_port(), 20760);
    assert_eq!(Chain::Testnet.default_rpc_port(), 20761);
    assert_eq!(Chain::Signet.default_rpc_port(), 38332);
    assert_eq!(Chain::Regtest.default_rpc_port(), 18332);
    assert_eq!(Chain::Mainnet.network(), Network::Bitcoin);
    assert_eq!(Chain::Testnet.network(), Network::Testnet);
    assert_eq!(Chain::Signet.network(), Network::Signet);
    assert_eq!(Chain::Regtest.network(), Network::Regtest);
    assert_eq!(Chain::Mainnet.inscription_content_size_limit(), None);
    assert_eq!(Chain::Testnet.inscription_content_size_limit(), None);
    assert_eq!(Chain::Signet.inscription_content_size_limit(), Some(1024));
    assert_eq!(Chain::Mainnet.first_inscription_height(), 1);
    assert_eq!(Chain::Regtest.first_inscription_height(), 0);
    assert_eq!(Chain::Regtest.default_postage_sats(), 100_000);
    assert_eq!(Chain::Mainnet.data_subdir(), None);
    assert_eq!(Chain::Testnet.data_subdir(), Some("testnet3".to_string()));
    assert_eq!(Chain::Signet.data_subdir(), Some("signet".to_string()));
    assert_eq!(Chain::Regtest.data_subdir(), Some("regtest".to_string()));
    assert_eq!(default_limit(), 100);
}

#[test]
fn output_scripts_give_addresses() {
    let script = p2pkh([0u8; 20]);
    assert_eq!(
        Chain::Mainnet.address_from_script(&script),
        Some("1111111111111111111114oLvT2".to_string())
    );
    let testnet = Chain::Testnet.address_from_script(&script).unwrap();
    assert!(testnet.starts_with('m') || testnet.starts_with('n'));
    assert_eq!(address_for_network(&script, Network::Bitcoin), Chain::Mainnet.address_from_script(&script));
    assert_eq!(Chain::Mainnet.address_from_script(&[0x6a, 0x01, 0x00]), None);
    assert_eq!(Chain::Mainnet.address_from_script(&[]), None);
}

#[test]
fn replies_of_the_node() {
    assert!(is_transaction_in_active_chain(Some("00ab"), Some(1)));
    assert!(!is_transaction_in_active_chain(Some("00ab"), Some(0)));
    assert!(!is_transaction_in_active_chain(Some("00ab"), None));
    assert!(!is_transaction_in_active_chain(None, Some(5)));
    assert_eq!(get_confirmations(Some(12)), Some(12));
    assert_eq!(get_confirmations(None), None);
    assert_eq!(get_confirmations(Some((1u64 << 32) + 5)), Some(5));
}

#[test]
fn raw_transactions_are_read_from_hex() {
    assert_eq!(decode_transaction_hex("0aFf10"), Ok(vec![0x0a, 0xff, 0x10]));
    assert_eq!(decode_transaction_hex(""), Ok(vec![]));
    assert!(decode_transaction_hex("abc").is_err());
    assert!(decode_transaction_hex("zz").is_err());
    assert!(decode_transaction_hex("é0").is_err());
}
