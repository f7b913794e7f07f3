use payjoin_core::error::Error;
use payjoin_core::psbt::{InputPair, Psbt, TxOut};
use payjoin_core::receive::{encode_body, parse_proposal_body, Receiver, UnreviewedProposal};
use payjoin_core::send::SenderBuilder;
use payjoin_core::transport::{consume_response, issue_request};

const ADDR: &str = "bc1qw508d6qejxtdg4y5r3zarvary0c5xw7kv8f3t4";

fn spk_wpkh(tag: u8) -> Vec<u8> {
    let mut v = vec![0x00u8, 0x14];
    v.extend(std::iter::repeat(tag).take(20));
    v
}

fn model_psbt() -> Psbt {
    Psbt {
        version: 2,
        inputs: vec![InputPair {
            txid: vec![0xaa; 32],
            vout: 1,
            script_sig: vec![0x01, 0x02],
            witness: vec![vec![0x03], vec![0x04, 0x05]],
            sequence: 0xffff_fffd,
            witness_utxo: Some(TxOut { value_sat: 100_000, script_pubkey: spk_wpkh(0xf0) }),
            non_witness_utxo: Some(vec![
                TxOut { value_sat: 7, script_pubkey: vec![0x51] },
                TxOut { value_sat: 100_000, script_pubkey: spk_wpkh(0xf0) },
            ]),
            redeem_script: Some(vec![0x52]),
            witness_script: None,
            final_script_sig: None,
            final_script_witness: Some(vec![vec![0x06]]),
            sighash_type: Some(1),
        }],
        outputs: vec![
            TxOut { value_sat: 50_000, script_pubkey: spk_wpkh(0x01) },
            TxOut { value_sat: 49_000, script_pubkey: spk_wpkh(0x02) },
        ],
        locktime: 7,
    }
}

fn test_keys() -> (Vec<u8>, ohttp::Server) {
    ohttp::init();
    let cfg = ohttp::KeyConfig::new(
        0,
        ohttp::hpke::Kem::X25519Sha256,
        vec![ohttp::SymmetricSuite::new(
            ohttp::hpke::Kdf::HkdfSha256,
            ohttp::hpke::Aead::Aes128Gcm,
        )],
    )
    .unwrap();
    let encoded = cfg.encode().unwrap();
    let server = ohttp::Server::new(cfg).unwrap();
    (encoded, server)
}

fn to_bitcoin_tx(p: &Psbt) -> payjoin::bitcoin::Transaction {
    fn hx(bytes: &[u8]) -> String {
        let mut s = String::new();
        for b in bytes {
            s.push_str(&format!("{:02x}", b));
        }
        s
    }
    payjoin::bitcoin::Transaction {
        version: payjoin::bitcoin::transaction::Version(p.version as i32),
        lock_time: payjoin::bitcoin::absolute::LockTime::from_consensus(p.locktime),
        input: p
            .inputs
            .iter()
            .map(|i| payjoin::bitcoin::TxIn {
                previous_output: payjoin::bitcoin::OutPoint {
                    txid: hx(&i.txid).parse().unwrap(),
                    vout: i.vout,
                },
                script_sig: payjoin::bitcoin::ScriptBuf::from_bytes(i.script_sig.clone()),
                sequence: payjoin::bitcoin::Sequence(i.sequence),
                witness: payjoin::bitcoin::Witness::from_slice(&i.witness),
            })
            .collect(),
        output: p
            .outputs
            .iter()
            .map(|o| payjoin::bitcoin::TxOut {
                value: payjoin::bitcoin::Amount::from_sat(o.value_sat),
                script_pubkey: payjoin::bitcoin::ScriptBuf::from_bytes(o.script_pubkey.clone()),
            })
            .collect(),
    }
}

#[test]
fn context_is_single_use() {
    let (keys, _server) = test_keys();
    let (_enc, mut ctx) = issue_request(&keys, &vec![1, 2, 3]).unwrap();
    // Garbage ciphertext: the transport fails, and the context is spent.
    let first = consume_response(&mut ctx, &vec![0u8; 4]);
    assert_eq!(first.unwrap_err(), Error::TransportFailure);
    let second = consume_response(&mut ctx, &vec![0u8; 4]);
    assert_eq!(second.unwrap_err(), Error::ProtocolViolation);
    let third = consume_response(&mut ctx, &vec![0u8; 4]);
    assert_eq!(third.unwrap_err(), Error::ProtocolViolation);
}

#[test]
fn transport_round_trip_decrypts_the_reply() {
    let (keys, server) = test_keys();
    let payload = vec![0xde, 0xad, 0xbe, 0xef];
    let (enc, mut ctx) = issue_request(&keys, &payload).unwrap();
    let (seen, responder) = server.decapsulate(&enc).unwrap();
    assert_eq!(seen, payload);
    let reply = server_reply(responder, &[0x99, 0x88]);
    let plain = consume_response(&mut ctx, &reply).unwrap();
    assert_eq!(plain, vec![0x99, 0x88]);
}

fn server_reply(responder: ohttp::ServerResponse, body: &[u8]) -> Vec<u8> {
    responder.encapsulate(body).unwrap()
}

#[test]
fn invalid_keys_are_rejected_at_construction() {
    let r = Receiver::new(
        String::from(ADDR),
        String::from("https://directory.example"),
        vec![1, 2, 3],
        String::from("https://relay.example"),
        None,
    );
    assert_eq!(r.unwrap_err(), Error::InvalidInput);
}

#[test]
fn receiver_poll_and_response_deliver_a_proposal() {
    let (keys, server) = test_keys();
    let mut rec = Receiver::new(
        String::from(ADDR),
        String::from("HTTPS://Directory.Example"),
        keys,
        String::from("https://relay.example"),
        Some(3600),
    )
    .unwrap();
    // The URL wrapper hands back the normalized location.
    assert_eq!(rec.pj_url(), "https://directory.example/");
    let (req, mut ctx) = rec.extract_request().unwrap();
    assert_eq!(req.url(), "https://relay.example/");
    let (_poll, responder) = server.decapsulate(&req.body()).unwrap();
    // The directory forwards a waiting proposal body.
    let body = encode_body(true, &model_psbt());
    let reply = server_reply(responder, &body);
    let got = rec.process_response(&reply, &mut ctx).unwrap().unwrap();
    assert!(got.core.substitution_disabled);
    assert_eq!(got.core.psbt, model_psbt());
    // The context is spent now.
    let again = rec.process_response(&reply, &mut ctx);
    assert_eq!(again.unwrap_err(), Error::ProtocolViolation);
}

#[test]
fn empty_response_means_nothing_waiting() {
    let (keys, server) = test_keys();
    let mut rec = Receiver::new(
        String::from(ADDR),
        String::from("https://directory.example"),
        keys,
        String::from("https://relay.example"),
        None,
    )
    .unwrap();
    let (req, mut ctx) = rec.extract_request().unwrap();
    let (_poll, responder) = server.decapsulate(&req.body()).unwrap();
    let reply = server_reply(responder, &[]);
    let got = rec.process_response(&reply, &mut ctx).unwrap();
    assert!(got.is_none());
}

#[test]
fn body_encoding_round_trips() {
    let body = encode_body(false, &model_psbt());
    let p = parse_proposal_body(&body).unwrap();
    assert!(!p.core.substitution_disabled);
    assert_eq!(p.core.psbt, model_psbt());
    // A truncated body is refused.
    let truncated: Vec<u8> = body[..body.len() - 1].to_vec();
    assert_eq!(parse_proposal_body(&truncated).unwrap_err(), Error::InvalidInput);
}

#[test]
fn sender_request_reaches_receiver_pipeline() {
    let (keys, server) = test_keys();
    let uri = format!(
        "bitcoin:{}?amount=0.00050000&pj=https://relay.example/",
        ADDR
    );
    let psbt = Psbt {
        version: 2,
        inputs: model_psbt().inputs,
        outputs: vec![
            TxOut {
                value_sat: 50_000,
                script_pubkey: ADDR
                    .parse::<payjoin::bitcoin::Address<payjoin::bitcoin::address::NetworkUnchecked>>()
                    .unwrap()
                    .assume_checked()
                    .script_pubkey()
                    .to_bytes(),
            },
            TxOut { value_sat: 49_000, script_pubkey: spk_wpkh(0x02) },
        ],
        locktime: 7,
    };
    let sender = SenderBuilder::from_psbt_and_uri(psbt.clone(), uri)
        .unwrap()
        .always_disable_output_substitution(true)
        .build_recommended(1)
        .unwrap();
    let (req, _ctx) = sender
        .extract_v2(String::from("https://relay.example"), &keys)
        .unwrap();
    assert_eq!(req.url(), "https://relay.example/");
    let (body, _responder) = server.decapsulate(&req.body()).unwrap();
    let proposal = parse_proposal_body(&body).unwrap();
    assert!(proposal.core.substitution_disabled);
    assert_eq!(proposal.core.psbt, psbt);
}

#[test]
fn sender_poll_yields_counter_proposal() {
    let (keys, server) = test_keys();
    let uri = format!(
        "bitcoin:{}?pj=https://relay.example/",
        ADDR
    );
    let psbt = Psbt {
        version: 2,
        inputs: model_psbt().inputs,
        outputs: vec![
            TxOut {
                value_sat: 50_000,
                script_pubkey: ADDR
                    .parse::<payjoin::bitcoin::Address<payjoin::bitcoin::address::NetworkUnchecked>>()
                    .unwrap()
                    .assume_checked()
                    .script_pubkey()
                    .to_bytes(),
            },
            TxOut { value_sat: 49_000, script_pubkey: spk_wpkh(0x02) },
        ],
        locktime: 7,
    };
    let sender = SenderBuilder::from_psbt_and_uri(psbt, uri)
        .unwrap()
        .build_recommended(1)
        .unwrap();
    let (req, mut ctx) = sender
        .extract_v2(String::from("https://relay.example"), &keys)
        .unwrap();
    let (_body, responder) = server.decapsulate(&req.body()).unwrap();
    let counter = model_psbt();
    let reply = server_reply(responder, &encode_body(false, &counter));
    let got = sender.process_response(&reply, &mut ctx).unwrap().unwrap();
    assert_eq!(got, counter);
    let again = sender.process_response(&reply, &mut ctx);
    assert_eq!(again.unwrap_err(), Error::ProtocolViolation);
}

#[test]
fn configured_expiry_reaches_the_payment_line() {
    let (keys, _server) = test_keys();
    let rec = Receiver::new(
        String::from(ADDR),
        String::from("https://directory.example"),
        keys,
        String::from("https://relay.example"),
        Some(1_700_000_000),
    )
    .unwrap();
    let line = rec.pj_uri_builder().build();
    let parsed = payjoin_core::uri::BtcUri::try_from(line).unwrap();
    let pj = parsed.assume_checked().check_pj_supported().unwrap();
    assert_eq!(pj.exp(), Some(1_700_000_000));
}

#[test]
fn receiver_state_survives_suspension() {
    let (keys, _server) = test_keys();
    let rec = Receiver::new(
        String::from(ADDR),
        String::from("https://directory.example"),
        keys,
        String::from("https://relay.example"),
        Some(86_400),
    )
    .unwrap();
    let bytes = rec.serialize();
    let back = Receiver::deserialize(&bytes).unwrap();
    assert_eq!(back.address, rec.address);
    assert_eq!(back.directory, rec.directory);
    assert_eq!(back.ohttp_keys, rec.ohttp_keys);
    assert_eq!(back.ohttp_relay, rec.ohttp_relay);
    assert_eq!(back.expiry_seconds, rec.expiry_seconds);
    assert_eq!(back.request_seq, rec.request_seq);
    // Corrupt state is refused, not coerced.
    let mut bad = bytes.clone();
    bad.pop();
    assert_eq!(Receiver::deserialize(&bad).unwrap_err(), Error::InvalidInput);
}

#[test]
fn sender_state_survives_suspension() {
    let uri = format!(
        "bitcoin:{}?pj=https://relay.example/",
        ADDR
    );
    let psbt = Psbt {
        version: 2,
        inputs: model_psbt().inputs,
        outputs: vec![
            TxOut {
                value_sat: 50_000,
                script_pubkey: ADDR
                    .parse::<payjoin::bitcoin::Address<payjoin::bitcoin::address::NetworkUnchecked>>()
                    .unwrap()
                    .assume_checked()
                    .script_pubkey()
                    .to_bytes(),
            },
            TxOut { value_sat: 49_000, script_pubkey: spk_wpkh(0x02) },
        ],
        locktime: 7,
    };
    let sender = SenderBuilder::from_psbt_and_uri(psbt, uri)
        .unwrap()
        .build_recommended(3)
        .unwrap();
    let bytes = sender.serialize();
    let back = payjoin_core::send::Sender::deserialize(&bytes).unwrap();
    assert_eq!(back.psbt, sender.psbt);
    assert_eq!(back.payee_script, sender.payee_script);
    assert_eq!(back.endpoint, sender.endpoint);
    assert_eq!(back.output_substitution_disabled, sender.output_substitution_disabled);
    assert_eq!(back.fee_contribution, sender.fee_contribution);
    assert_eq!(back.min_fee_rate, sender.min_fee_rate);
}

#[test]
fn stage_state_survives_suspension() {
    let p = UnreviewedProposal::new(
        Psbt {
            version: 2,
            inputs: model_psbt().inputs,
            outputs: model_psbt().outputs,
            locktime: 7,
        },
        false,
    )
    .unwrap();
    let bytes = p.serialize();
    let back = UnreviewedProposal::deserialize(&bytes).unwrap();
    assert_eq!(back.core, p.core);
    // A later stage refuses an earlier stage's bytes.
    let r = payjoin_core::receive::OutputsCommitted::deserialize(&bytes);
    assert_eq!(r.unwrap_err(), Error::InvalidInput);
}

#[test]
fn classified_stage_round_trips_and_validates() {
    let spk1 = spk_wpkh(0x01);
    let p = UnreviewedProposal::new(
        Psbt {
            version: 2,
            inputs: model_psbt().inputs,
            outputs: model_psbt().outputs,
            locktime: 7,
        },
        false,
    )
    .unwrap();
    let p = p.assume_interactive_receiver();
    let p = p.check_inputs_not_owned(|_s: &Vec<u8>| Ok(false)).unwrap();
    let p = p
        .check_no_inputs_seen_before(|_t: &Vec<u8>, _v: u32| Ok(false))
        .unwrap();
    let p = p.identify_receiver_outputs(|s: &Vec<u8>| Ok(s == &spk1)).unwrap();
    let bytes = p.serialize();
    let back = payjoin_core::receive::OutputsCommitted::deserialize(&bytes).unwrap();
    assert_eq!(back.core, p.core);
}

#[test]
fn psbt_string_form_is_base64_of_the_encoding() {
    let spk1 = spk_wpkh(0x01);
    let p = UnreviewedProposal::new(
        Psbt {
            version: 2,
            inputs: model_psbt().inputs,
            outputs: model_psbt().outputs,
            locktime: 7,
        },
        false,
    )
    .unwrap();
    let p = p.assume_interactive_receiver();
    let p = p.check_inputs_not_owned(|_s: &Vec<u8>| Ok(false)).unwrap();
    let p = p
        .check_no_inputs_seen_before(|_t: &Vec<u8>, _v: u32| Ok(false))
        .unwrap();
    let p = p.identify_receiver_outputs(|s: &Vec<u8>| Ok(s == &spk1)).unwrap();
    let p = p.commit_outputs();
    let p = p
        .try_contribute_inputs(vec![payjoin_core::receive::InputPairRequest {
            prevout: payjoin_core::receive::TxOutpoint {
                txid: "22".repeat(32),
                vout: 0,
            },
            script_sig: None,
            witness: None,
            sequence: None,
            psbt_data: payjoin_core::receive::PsbtInputData {
                non_witness_utxo: None,
                witness_utxo: Some(payjoin_core::receive::WitnessUtxoData {
                    value_sat: 60_000,
                    script_pub_key_hex: {
                        let mut s = String::from("0014");
                        s.push_str(&"bb".repeat(20));
                        s
                    },
                }),
                sighash_type: None,
                redeem_script: None,
                witness_script: None,
                final_script_sig: None,
                final_script_witness: None,
            },
        }])
        .unwrap();
    let fp = p
        .finalize_proposal(None, Some(100_000), |q: &Psbt| {
            let mut s = q.clone();
            for i in s.inputs.iter_mut() {
                i.final_script_witness = Some(vec![vec![0x01]]);
            }
            Ok(s)
        })
        .unwrap();
    // The document is a BIP-174 serialization the bitcoin crate reads
    // back, and its unsigned transaction is the negotiated one.
    let txt = fp.psbt();
    let decoded =
        base64::Engine::decode(&base64::engine::general_purpose::STANDARD, txt).unwrap();
    let parsed = payjoin::bitcoin::Psbt::deserialize(&decoded).unwrap();
    let tx = to_bitcoin_tx(&fp.core.psbt);
    // The document's unsigned transaction carries no signatures; those
    // live in the per-input maps.
    let mut unsigned = tx.clone();
    for i in unsigned.input.iter_mut() {
        i.script_sig = payjoin::bitcoin::ScriptBuf::new();
        i.witness = payjoin::bitcoin::Witness::new();
    }
    assert_eq!(parsed.unsigned_tx, unsigned);
    let signed_at = fp.core.psbt.inputs.len() - 1;
    assert_eq!(
        parsed.inputs[signed_at].final_script_witness,
        Some(payjoin::bitcoin::Witness::from_slice(&[vec![0x01u8]]))
    );
    // And the txid is the one the bitcoin crate computes.
    assert_eq!(fp.get_txid(), tx.compute_txid().to_string());
}
