use ordwoj::parse::{normalize_tick, parse_amount_str, parse_body, parse_wojakmap_claim, valid_tick, Wjk20Op};
use ordwoj::tables::{amount_to_string, balance_key, parse_balance, split_balance_key, Wjk20Error};

#[test]
fn parses_deploy() {
    let body = br#"{"p":"wjk-20","op":"deploy","tick":"wojk","max":"21000000","lim":"1000"}"#;
    let p = parse_body(body).unwrap();
    assert_eq!(p.op, Wjk20Op::Deploy);
    assert_eq!(p.tick, "wojk");
    assert_eq!(p.max, Some(21_000_000));
    assert_eq!(p.lim, Some(1000));
}

#[test]
fn parses_mint() {
    let body = br#"{"p":"wjk20","op":"mint","tick":"WOJK","amt":"500"}"#;
    let p = parse_body(body).unwrap();
    assert_eq!(p.op, Wjk20Op::Mint);
    assert_eq!(p.tick, "wojk");
    assert_eq!(p.amt, Some(500));
}

#[test]
fn parses_wojakmap_claim() {
    assert_eq!(parse_wojakmap_claim(b"1.wojakmap"), Some(1));
    assert_eq!(parse_wojakmap_claim(b"  42.wojakmap\n"), Some(42));
    assert_eq!(parse_wojakmap_claim(b"1.Wojakmap"), None);
    assert_eq!(parse_wojakmap_claim(b"1.dogemap"), None);
    assert_eq!(parse_wojakmap_claim(b".wojakmap"), None);
    assert_eq!(parse_wojakmap_claim(b"01.wojakmap"), Some(1));
}

#[test]
fn parses_transfer_with_number_amount_and_upper_case() {
    let body = br#"{"p":"WJK-20","op":"TRANSFER","tick":"Ab12","amt":42}"#;
    let p = parse_body(body).unwrap();
    assert_eq!(p.op, Wjk20Op::Transfer);
    assert_eq!(p.tick, "ab12");
    assert_eq!(p.amt, Some(42));
    assert_eq!(p.max, None);
    assert_eq!(p.lim, None);
    assert_eq!(p.dec, None);
}

#[test]
fn deploy_falls_back_on_limit_and_reads_decimals() {
    let body = br#"{"p":"wjk-20","op":"deploy","tick":"abc","max":"100","limit":"10","dec":8}"#;
    let p = parse_body(body).unwrap();
    assert_eq!(p.lim, Some(10));
    assert_eq!(p.dec, Some(8));

    let body = br#"{"p":"wjk-20","op":"deploy","tick":"abc","max":"100","lim":"5","limit":"10","dec":"3"}"#;
    let p = parse_body(body).unwrap();
    assert_eq!(p.lim, Some(5));
    assert_eq!(p.dec, Some(3));

    let body = br#"{"p":"wjk-20","op":"deploy","tick":"abc","dec":256}"#;
    assert_eq!(parse_body(body).unwrap().dec, None);
    let body = br#"{"p":"wjk-20","op":"deploy","tick":"abc","dec":"+7"}"#;
    assert_eq!(parse_body(body).unwrap().dec, Some(7));
}

#[test]
fn rejects_bodies_that_are_not_operations() {
    assert!(parse_body(b"not json").is_none());
    assert!(parse_body(b"[1,2]").is_none());
    assert!(parse_body(br#"{"p":"brc-20","op":"mint","tick":"wojk","amt":"1"}"#).is_none());
    assert!(parse_body(br#"{"p":"wjk-20","op":"burn","tick":"wojk","amt":"1"}"#).is_none());
    assert!(parse_body(br#"{"p":"wjk-20","op":"mint","tick":"w","amt":"1"}"#).is_none());
    assert!(parse_body(br#"{"p":"wjk-20","op":"mint","tick":"abcdefghi","amt":"1"}"#).is_none());
    assert!(parse_body(br#"{"p":"wjk-20","op":"mint","tick":"wo-k","amt":"1"}"#).is_none());
    assert!(parse_body(br#"{"p":"wjk-20","op":"mint","amt":"1"}"#).is_none());
    assert!(parse_body(br#"{"p":"wjk-20","op":"mint","tick":7,"amt":"1"}"#).is_none());
}

#[test]
fn amounts_are_plain_digit_strings_or_u64_numbers() {
    assert_eq!(parse_amount_str("0"), Some(0));
    assert_eq!(parse_amount_str("007"), Some(7));
    assert_eq!(parse_amount_str(""), None);
    assert_eq!(parse_amount_str("+5"), None);
    assert_eq!(parse_amount_str("1.5"), None);
    assert_eq!(parse_amount_str("-1"), None);
    assert_eq!(parse_amount_str("340282366920938463463374607431768211455"), Some(u128::MAX));
    assert_eq!(parse_amount_str("340282366920938463463374607431768211456"), None);

    let body = br#"{"p":"wjk-20","op":"mint","tick":"wojk","amt":-3}"#;
    assert_eq!(parse_body(body).unwrap().amt, None);
    let body = br#"{"p":"wjk-20","op":"mint","tick":"wojk","amt":2.5}"#;
    assert_eq!(parse_body(body).unwrap().amt, None);
    let body = br#"{"p":"wjk-20","op":"mint","tick":"wojk","amt":18446744073709551615}"#;
    assert_eq!(parse_body(body).unwrap().amt, Some(u64::MAX as u128));
}

#[test]
fn ticks_are_two_to_eight_ascii_letters_or_digits() {
    assert!(valid_tick("ab"));
    assert!(valid_tick("ABCD1234"));
    assert!(!valid_tick("a"));
    assert!(!valid_tick("abcdefghi"));
    assert!(!valid_tick("ab_c"));
    assert!(!valid_tick("äb"));
}

#[test]
fn normalizing_a_tick_twice_is_normalizing_it_once() {
    for tick in ["WoJk", "wojk", "A1b2C3", "ÄBC"] {
        let once = normalize_tick(tick);
        assert_eq!(normalize_tick(&once), once);
    }
    assert_eq!(normalize_tick("WoJk"), "wojk");
    assert_eq!(normalize_tick("ÄBC"), "Äbc");
}

#[test]
fn a_written_claim_reads_back() {
    for n in [0u32, 7, 42, 1000, u32::MAX] {
        let body = format!("{n}.wojakmap");
        assert_eq!(parse_wojakmap_claim(body.as_bytes()), Some(n));
    }
    assert_eq!(parse_wojakmap_claim(b"4294967296.wojakmap"), None);
    assert_eq!(parse_wojakmap_claim(b"+1.wojakmap"), None);
    assert_eq!(parse_wojakmap_claim(b"1 .wojakmap"), None);
    assert_eq!(parse_wojakmap_claim(&[0xff, b'.']), None);
    assert_eq!(parse_wojakmap_claim("\u{3000}9.wojakmap\t".as_bytes()), Some(9));
}

#[test]
fn a_stored_amount_reads_back() {
    for n in [0u128, 1, 500, 21_000_000, u128::MAX] {
        let text = amount_to_string(n);
        assert_eq!(text, n.to_string());
        assert_eq!(parse_balance(text.as_bytes()), Ok(n));
    }
}

#[test]
fn stored_balances_that_do_not_read_are_errors() {
    assert_eq!(parse_balance(&[0xff, 0xfe]), Err(Wjk20Error::InvalidUtf8));
    assert_eq!(parse_balance(b"abc"), Err(Wjk20Error::InvalidAmount));
    assert_eq!(parse_balance(b""), Err(Wjk20Error::InvalidAmount));
    assert_eq!(parse_balance(b"-1"), Err(Wjk20Error::InvalidAmount));
    assert_eq!(
        parse_balance(b"340282366920938463463374607431768211456"),
        Err(Wjk20Error::InvalidAmount)
    );
    assert_eq!(parse_balance(b"+12"), Ok(12));
}

#[test]
fn balance_keys_join_the_normalized_tick_and_the_address() {
    assert_eq!(balance_key("WOJK", "addr1"), b"wojk\0addr1".to_vec());
    assert_eq!(balance_key("ab", ""), b"ab\0".to_vec());
}

#[test]
fn balance_keys_read_back_as_tick_and_address() {
    let key = balance_key("WoJK", "addr\u{0}x");
    assert_eq!(split_balance_key(&key), Ok(Some(("wojk".to_string(), "addr\u{0}x".to_string()))));
    assert_eq!(split_balance_key(b"ab\0"), Ok(Some(("ab".to_string(), String::new()))));
    assert_eq!(split_balance_key(b"no-nul"), Ok(None));
    assert_eq!(split_balance_key(&[0xff, 0, b'a']), Err(Wjk20Error::InvalidUtf8));
    assert_eq!(split_balance_key(&[b'a', 0, 0xfe]), Err(Wjk20Error::InvalidUtf8));
}
