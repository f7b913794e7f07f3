use payjoin_core::error::Error;
use payjoin_core::psbt::{InputPair, Psbt, TxOut};
use payjoin_core::send::SenderBuilder;
use payjoin_core::uri::{BtcUri, PayjoinUriBuilder};
use payjoin_core::receive::parse_hex_string;

const ADDR: &str = "bc1qw508d6qejxtdg4y5r3zarvary0c5xw7kv8f3t4";

fn payee_script() -> Vec<u8> {
    let a = ADDR
        .parse::<payjoin::bitcoin::Address<payjoin::bitcoin::address::NetworkUnchecked>>()
        .unwrap();
    a.assume_checked().script_pubkey().to_bytes()
}

fn original_psbt() -> Psbt {
    Psbt {
        version: 2,
        inputs: vec![InputPair {
            txid: vec![0xaa; 32],
            vout: 0,
            script_sig: Vec::new(),
            witness: Vec::new(),
            sequence: 0xffff_ffff,
            witness_utxo: Some(TxOut { value_sat: 100_000, script_pubkey: payee_wpkh(0xf0) }),
            non_witness_utxo: None,
            redeem_script: None,
            witness_script: None,
            final_script_sig: None,
            final_script_witness: None,
            sighash_type: None,
        }],
        outputs: vec![
            TxOut { value_sat: 50_000, script_pubkey: payee_script() },
            TxOut { value_sat: 49_000, script_pubkey: payee_wpkh(0x02) },
        ],
        locktime: 0,
    }
}

fn payee_wpkh(tag: u8) -> Vec<u8> {
    let mut v = vec![0x00u8, 0x14];
    v.extend(std::iter::repeat(tag).take(20));
    v
}

#[test]
fn built_line_reports_amount_and_substitution_flag() {
    let b = PayjoinUriBuilder::new(
        String::from(ADDR),
        String::from("https://relay.example"),
    )
    .unwrap();
    let b = b.amount(150_000).unwrap();
    let b = b.disable_output_substitution();
    let line = b.build();
    assert!(line.starts_with("bitcoin:"));
    let parsed = BtcUri::try_from(line).unwrap();
    let pj = parsed.assume_checked().check_pj_supported().unwrap();
    assert_eq!(pj.amount(), Some(150_000));
    assert!(pj.pjos_disabled);
    assert_eq!(pj.address().unwrap(), ADDR);
    // The endpoint survives as the URL's normalized form.
    assert_eq!(pj.endpoint().to_string(), "https://relay.example/");
}

#[test]
fn amount_conversion_is_exact_integer_arithmetic() {
    let b = PayjoinUriBuilder::new(
        String::from(ADDR),
        String::from("https://relay.example"),
    )
    .unwrap();
    let b = b.amount(2_100_000_000_000_000).unwrap();
    let line = b.build();
    assert!(line.contains("amount=21000000.00000000"));
    let parsed = BtcUri::try_from(line).unwrap();
    assert_eq!(parsed.amount_sat, Some(2_100_000_000_000_000));
    // One satoshi survives the decimal round trip too.
    let b1 = PayjoinUriBuilder::new(
        String::from(ADDR),
        String::from("https://relay.example"),
    )
    .unwrap()
    .amount(1)
    .unwrap();
    let parsed1 = BtcUri::try_from(b1.build()).unwrap();
    assert_eq!(parsed1.amount_sat, Some(1));
}

#[test]
fn line_without_negotiation_endpoint_is_not_payjoin() {
    let parsed =
        BtcUri::try_from(format!("bitcoin:{}?amount=0.00050000", ADDR)).unwrap();
    let r = parsed.assume_checked().check_pj_supported();
    assert_eq!(r.unwrap_err(), Error::InvalidInput);
}

#[test]
fn sender_construction_fails_without_payjoin_support() {
    let uri = format!("bitcoin:{}?amount=0.00050000", ADDR);
    let r = SenderBuilder::from_psbt_and_uri(original_psbt(), uri);
    assert_eq!(r.unwrap_err(), Error::InvalidInput);
}

#[test]
fn sender_construction_succeeds_with_payjoin_support() {
    let uri = format!(
        "bitcoin:{}?amount=0.00050000&pj=https://relay.example/",
        ADDR
    );
    let b = SenderBuilder::from_psbt_and_uri(original_psbt(), uri).unwrap();
    assert_eq!(b.payee_script, payee_script());
    assert_eq!(b.endpoint, "https://relay.example/");
    assert_eq!(b.amount_sat, Some(50_000));
    assert!(!b.output_substitution_disabled);
}

#[test]
fn sender_rejects_amount_mismatch() {
    let uri = format!(
        "bitcoin:{}?amount=0.00060000&pj=https://relay.example/",
        ADDR
    );
    let r = SenderBuilder::from_psbt_and_uri(original_psbt(), uri);
    assert_eq!(r.unwrap_err(), Error::InvalidInput);
}

#[test]
fn recommended_contribution_comes_from_change() {
    let uri = format!(
        "bitcoin:{}?amount=0.00050000&pj=https://relay.example/",
        ADDR
    );
    let b = SenderBuilder::from_psbt_and_uri(original_psbt(), uri).unwrap();
    let s = b.build_recommended(2).unwrap();
    // One P2WPKH input: 2 sat/vB * 68 vB budgeted for the peer's input.
    assert_eq!(s.fee_contribution, Some((136, 1)));
    assert_eq!(s.min_fee_rate, 2);
}

#[test]
fn unclamped_contribution_fails_when_change_cannot_cover() {
    let uri = format!(
        "bitcoin:{}?amount=0.00050000&pj=https://relay.example/",
        ADDR
    );
    let b = SenderBuilder::from_psbt_and_uri(original_psbt(), uri).unwrap();
    let r = b.build_with_additional_fee(1_000_000, Some(1), 2, false);
    assert_eq!(r.unwrap_err(), Error::InvalidInput);
}

#[test]
fn clamped_contribution_caps_at_the_change_value() {
    let uri = format!(
        "bitcoin:{}?amount=0.00050000&pj=https://relay.example/",
        ADDR
    );
    let b = SenderBuilder::from_psbt_and_uri(original_psbt(), uri).unwrap();
    let s = b.build_with_additional_fee(1_000_000, Some(1), 2, true).unwrap();
    assert_eq!(s.fee_contribution, Some((49_000, 1)));
}

#[test]
fn expiry_rides_in_the_endpoint_fragment() {
    // A timestamp is carried as seven bech32 data characters after EX1.
    let payload = String::from_utf8(payjoin_core::uri::encode_exp_payload(1_700_000_000)).unwrap();
    let parsed = BtcUri::try_from(format!(
        "bitcoin:{}?pj=https://relay.example/x#EX1{}",
        ADDR, payload
    ))
    .unwrap();
    let pj = parsed.assume_checked().check_pj_supported().unwrap();
    assert_eq!(pj.exp(), Some(1_700_000_000));
    // Characters past the seventh are ignored: only the first four
    // carried bytes hold the timestamp.
    let long = BtcUri::try_from(format!(
        "bitcoin:{}?pj=https://relay.example/x#EX1{}qqqq",
        ADDR, payload
    ))
    .unwrap();
    let long_pj = long.assume_checked().check_pj_supported().unwrap();
    assert_eq!(long_pj.exp(), Some(1_700_000_000));
    // A payload of fewer than seven bech32 characters is no expiry.
    let bad = BtcUri::try_from(format!(
        "bitcoin:{}?pj=https://relay.example/x#EX1234",
        ADDR
    ))
    .unwrap();
    let bad_pj = bad.assume_checked().check_pj_supported().unwrap();
    assert_eq!(bad_pj.exp(), None);
}

#[test]
fn hex_round_trips_through_public_parsing() {
    let v = parse_hex_string(&String::from("00ff10ab")).unwrap();
    assert_eq!(v, vec![0x00, 0xff, 0x10, 0xab]);
    assert!(parse_hex_string(&String::from("0g")).is_none());
    assert!(parse_hex_string(&String::from("abc")).is_none());
}
