use payjoin_core::error::Error;
use payjoin_core::psbt::{InputPair, Psbt, TxOut};
use payjoin_core::receive::{
    InputPairRequest, PsbtInputData, TxOutpoint, UnreviewedProposal, WitnessUtxoData,
};

fn spk_wpkh(tag: u8) -> Vec<u8> {
    let mut v = vec![0x00u8, 0x14];
    v.extend(std::iter::repeat(tag).take(20));
    v
}

fn hexify(bytes: &[u8]) -> String {
    let mut s = String::new();
    for b in bytes {
        s.push_str(&format!("{:02x}", b));
    }
    s
}

fn model_input(tag: u8, value: u64, spk: Vec<u8>) -> InputPair {
    InputPair {
        txid: vec![tag; 32],
        vout: 0,
        script_sig: Vec::new(),
        witness: Vec::new(),
        sequence: 0xffff_ffff,
        witness_utxo: Some(TxOut { value_sat: value, script_pubkey: spk }),
        non_witness_utxo: None,
        redeem_script: None,
        witness_script: None,
        final_script_sig: None,
        final_script_witness: None,
        sighash_type: None,
    }
}

fn candidate_psbt() -> Psbt {
    Psbt {
        version: 2,
        inputs: vec![model_input(0xaa, 100_000, spk_wpkh(0xf0))],
        outputs: vec![
            TxOut { value_sat: 50_000, script_pubkey: spk_wpkh(0x01) },
            TxOut { value_sat: 49_000, script_pubkey: spk_wpkh(0x02) },
        ],
        locktime: 0,
    }
}

fn candidate_request(tag: u8, value: u64, spk: &[u8]) -> InputPairRequest {
    InputPairRequest {
        prevout: TxOutpoint { txid: hexify(&[tag; 32]), vout: 0 },
        script_sig: None,
        witness: None,
        sequence: None,
        psbt_data: PsbtInputData {
            non_witness_utxo: None,
            witness_utxo: Some(WitnessUtxoData {
                value_sat: value,
                script_pub_key_hex: hexify(spk),
            }),
            sighash_type: None,
            redeem_script: None,
            witness_script: None,
            final_script_sig: None,
            final_script_witness: None,
        },
    }
}

fn to_bitcoin_tx(p: &Psbt) -> payjoin::bitcoin::Transaction {
    payjoin::bitcoin::Transaction {
        version: payjoin::bitcoin::transaction::Version(p.version as i32),
        lock_time: payjoin::bitcoin::absolute::LockTime::from_consensus(p.locktime),
        input: p
            .inputs
            .iter()
            .map(|i| payjoin::bitcoin::TxIn {
                previous_output: payjoin::bitcoin::OutPoint {
                    txid: hexify(&i.txid).parse().unwrap(),
                    vout: i.vout,
                },
                script_sig: payjoin::bitcoin::ScriptBuf::from_bytes(i.script_sig.clone()),
                sequence: payjoin::bitcoin::Sequence(i.sequence),
                witness: payjoin::bitcoin::Witness::from_slice(&i.witness),
            })
            .collect(),
        output: p
            .outputs
            .iter()
            .map(|o| payjoin::bitcoin::TxOut {
                value: payjoin::bitcoin::Amount::from_sat(o.value_sat),
                script_pubkey: payjoin::bitcoin::ScriptBuf::from_bytes(o.script_pubkey.clone()),
            })
            .collect(),
    }
}

fn sign_model(p: &Psbt) -> Psbt {
    let mut s = p.clone();
    for i in s.inputs.iter_mut() {
        i.final_script_witness = Some(vec![vec![0x01]]);
    }
    s
}

#[test]
fn original_tx_uses_segwit_wire_form_when_witnesses_exist() {
    let mut cand = candidate_psbt();
    cand.inputs[0].witness = vec![vec![0x30, 0x45], vec![0x02, 0x21]];
    let p = UnreviewedProposal::new(cand.clone(), false).unwrap();
    let expected = payjoin::bitcoin::consensus::encode::serialize(&to_bitcoin_tx(&cand));
    assert_eq!(p.original_tx(), hexify(&expected));
}

#[test]
fn full_receiver_pipeline_reaches_finalized() {
    let receiver_spk = spk_wpkh(0x01);
    let p = UnreviewedProposal::new(candidate_psbt(), false).unwrap();
    // The broadcastable fallback is the candidate in Bitcoin consensus
    // wire form, byte for byte what the bitcoin crate serializes.
    let encoded = payjoin::bitcoin::consensus::encode::serialize(&to_bitcoin_tx(&candidate_psbt()));
    assert_eq!(p.original_tx(), hexify(&encoded));
    let p = p
        .check_broadcast_suitability(Some(1), |_tx: &Psbt| Ok(true))
        .unwrap();
    let p = p.check_inputs_not_owned(|_s: &Vec<u8>| Ok(false)).unwrap();
    let p = p
        .check_no_inputs_seen_before(|_t: &Vec<u8>, _v: u32| Ok(false))
        .unwrap();
    let p = p
        .identify_receiver_outputs(|s: &Vec<u8>| Ok(s == &receiver_spk))
        .unwrap();
    assert!(!p.is_output_substitution_disabled());
    let p = p.commit_outputs();
    let p = p
        .try_contribute_inputs(vec![candidate_request(0x22, 60_000, &spk_wpkh(0xbb))])
        .unwrap();
    // Exactly one input joined; its value moved to the receiver's change.
    assert_eq!(p.core.psbt.inputs.len(), 2);
    assert_eq!(p.core.psbt.outputs[0].value_sat, 110_000);
    assert_eq!(p.core.psbt.outputs[1].value_sat, 49_000);
    let fp = p
        .finalize_proposal(None, Some(10_000), |q: &Psbt| Ok(sign_model(q)))
        .unwrap();
    let locked = fp.utxos_to_be_locked();
    assert_eq!(locked.len(), 1);
    assert_eq!(locked[0], format!("{}:0", hexify(&[0x22u8; 32])));
}

#[test]
fn owned_input_rejects_pipeline() {
    let p = UnreviewedProposal::new(candidate_psbt(), false).unwrap();
    let p = p.assume_interactive_receiver();
    // The sole input's script is recognized as the receiver's own.
    let r = p.check_inputs_not_owned(|_s: &Vec<u8>| Ok(true));
    assert_eq!(r.unwrap_err(), Error::PeerRejected);
}

#[test]
fn zero_max_fee_rate_fails_finalize() {
    let receiver_spk = spk_wpkh(0x01);
    let p = UnreviewedProposal::new(candidate_psbt(), false).unwrap();
    let p = p.assume_interactive_receiver();
    let p = p.check_inputs_not_owned(|_s: &Vec<u8>| Ok(false)).unwrap();
    let p = p
        .check_no_inputs_seen_before(|_t: &Vec<u8>, _v: u32| Ok(false))
        .unwrap();
    let p = p
        .identify_receiver_outputs(|s: &Vec<u8>| Ok(s == &receiver_spk))
        .unwrap();
    let p = p.commit_outputs();
    let p = p
        .try_contribute_inputs(vec![candidate_request(0x22, 60_000, &spk_wpkh(0xbb))])
        .unwrap();
    // min 1 sat/vB, max unset: the upper bound collapses to zero and any
    // positive achieved rate is above it.
    let r = p.finalize_proposal(Some(1), None, |q: &Psbt| Ok(sign_model(q)));
    assert_eq!(r.unwrap_err(), Error::FeePolicyViolation);
}

#[test]
fn fee_rate_boundary_is_accepted() {
    let receiver_spk = spk_wpkh(0x01);
    let p = UnreviewedProposal::new(candidate_psbt(), false).unwrap();
    let p = p.assume_interactive_receiver();
    let p = p.check_inputs_not_owned(|_s: &Vec<u8>| Ok(false)).unwrap();
    let p = p
        .check_no_inputs_seen_before(|_t: &Vec<u8>, _v: u32| Ok(false))
        .unwrap();
    let p = p
        .identify_receiver_outputs(|s: &Vec<u8>| Ok(s == &receiver_spk))
        .unwrap();
    let p = p.commit_outputs();
    let p = p
        .try_contribute_inputs(vec![candidate_request(0x22, 60_000, &spk_wpkh(0xbb))])
        .unwrap();
    let signed = sign_model(&p.core.psbt);
    let fee = signed.fee();
    let vsize = signed.vsize();
    // At the floor of the achieved rate the call succeeds ...
    let ok = p.finalize_proposal(
        Some(fee / vsize),
        Some(u64::MAX),
        |q: &Psbt| Ok(sign_model(q)),
    );
    assert!(ok.is_ok());
    // ... and one unit above it the fee policy rejects.
    let bad = p.finalize_proposal(
        Some(fee / vsize + 1),
        Some(u64::MAX),
        |q: &Psbt| Ok(sign_model(q)),
    );
    assert_eq!(bad.unwrap_err(), Error::FeePolicyViolation);
}

#[test]
fn contribute_adds_exactly_one_whatever_the_count() {
    let receiver_spk = spk_wpkh(0x01);
    let p = UnreviewedProposal::new(candidate_psbt(), false).unwrap();
    let p = p.assume_interactive_receiver();
    let p = p.check_inputs_not_owned(|_s: &Vec<u8>| Ok(false)).unwrap();
    let p = p
        .check_no_inputs_seen_before(|_t: &Vec<u8>, _v: u32| Ok(false))
        .unwrap();
    let p = p
        .identify_receiver_outputs(|s: &Vec<u8>| Ok(s == &receiver_spk))
        .unwrap();
    let p = p.commit_outputs();
    let before = 1;
    let p = p
        .try_contribute_inputs(vec![
            // Wrong class: a legacy-looking script, dissimilar value.
            candidate_request(0x31, 2, vec![0x51].as_slice()),
            // Blends in: same class as the sender's input, similar value.
            candidate_request(0x32, 90_000, &spk_wpkh(0xcc)),
            candidate_request(0x33, 70_000, &spk_wpkh(0xdd)),
        ])
        .unwrap();
    assert_eq!(p.core.psbt.inputs.len(), before + 1);
    // The privacy heuristic picked the first blending candidate.
    assert_eq!(p.core.psbt.inputs[1].txid, vec![0x32u8; 32]);
    assert_eq!(
        p.core.psbt.inputs[1].witness_utxo.as_ref().unwrap().value_sat,
        90_000
    );
}

#[test]
fn undecodable_candidate_is_never_contributed() {
    let receiver_spk = spk_wpkh(0x01);
    let p = UnreviewedProposal::new(candidate_psbt(), false).unwrap();
    let p = p.assume_interactive_receiver();
    let p = p.check_inputs_not_owned(|_s: &Vec<u8>| Ok(false)).unwrap();
    let p = p
        .check_no_inputs_seen_before(|_t: &Vec<u8>, _v: u32| Ok(false))
        .unwrap();
    let p = p
        .identify_receiver_outputs(|s: &Vec<u8>| Ok(s == &receiver_spk))
        .unwrap();
    let p = p.commit_outputs();
    let mut bad = candidate_request(0x22, 60_000, &spk_wpkh(0xbb));
    bad.prevout.txid = String::from("not-hex-at-all");
    let r = p.try_contribute_inputs(vec![bad]);
    assert_eq!(r.unwrap_err(), Error::InvalidInput);
}

#[test]
fn callback_failure_propagates_as_external() {
    let p = UnreviewedProposal::new(candidate_psbt(), false).unwrap();
    let p = p.assume_interactive_receiver();
    let r = p.check_inputs_not_owned(|_s: &Vec<u8>| Err(Error::ExternalFailure));
    assert_eq!(r.unwrap_err(), Error::ExternalFailure);
}

#[test]
fn substitution_respects_the_sender_flag() {
    let receiver_spk = spk_wpkh(0x01);
    // Sender forbade substitution.
    let p = UnreviewedProposal::new(candidate_psbt(), true).unwrap();
    let p = p.assume_interactive_receiver();
    let p = p.check_inputs_not_owned(|_s: &Vec<u8>| Ok(false)).unwrap();
    let p = p
        .check_no_inputs_seen_before(|_t: &Vec<u8>, _v: u32| Ok(false))
        .unwrap();
    let p = p
        .identify_receiver_outputs(|s: &Vec<u8>| Ok(s == &receiver_spk))
        .unwrap();
    assert!(p.is_output_substitution_disabled());
    let r = p.substitute_receiver_script(spk_wpkh(0x42));
    assert_eq!(r.unwrap_err(), Error::ProtocolViolation);
}

#[test]
fn substitute_swaps_only_the_change_script() {
    let receiver_spk = spk_wpkh(0x01);
    let p = UnreviewedProposal::new(candidate_psbt(), false).unwrap();
    let p = p.assume_interactive_receiver();
    let p = p.check_inputs_not_owned(|_s: &Vec<u8>| Ok(false)).unwrap();
    let p = p
        .check_no_inputs_seen_before(|_t: &Vec<u8>, _v: u32| Ok(false))
        .unwrap();
    let p = p
        .identify_receiver_outputs(|s: &Vec<u8>| Ok(s == &receiver_spk))
        .unwrap();
    let p = p.substitute_receiver_script(spk_wpkh(0x42)).unwrap();
    assert_eq!(p.core.psbt.outputs[0].script_pubkey, spk_wpkh(0x42));
    assert_eq!(p.core.psbt.outputs[0].value_sat, 50_000);
    assert_eq!(p.core.psbt.outputs[1].script_pubkey, spk_wpkh(0x02));
}

#[test]
fn replace_routes_residual_to_drain() {
    let receiver_spk = spk_wpkh(0x01);
    let p = UnreviewedProposal::new(candidate_psbt(), false).unwrap();
    let p = p.assume_interactive_receiver();
    let p = p.check_inputs_not_owned(|_s: &Vec<u8>| Ok(false)).unwrap();
    let p = p
        .check_no_inputs_seen_before(|_t: &Vec<u8>, _v: u32| Ok(false))
        .unwrap();
    let p = p
        .identify_receiver_outputs(|s: &Vec<u8>| Ok(s == &receiver_spk))
        .unwrap();
    let drain = spk_wpkh(0x77);
    let p = p
        .replace_receiver_outputs(
            vec![TxOut { value_sat: 40_000, script_pubkey: drain.clone() }],
            drain.clone(),
        )
        .unwrap();
    assert_eq!(p.core.psbt.outputs[0].script_pubkey, drain);
    // The 10000 sat the old receiver output held beyond the replacement
    // lands on the drain output.
    assert_eq!(p.core.psbt.outputs[0].value_sat, 50_000);
    assert_eq!(p.core.change_vout, 0);
    // Sender output untouched; nothing dropped.
    assert_eq!(p.core.psbt.outputs.len(), 2);
    assert_eq!(p.core.psbt.outputs[1].value_sat, 49_000);
}

#[test]
fn malformed_proposal_is_rejected_on_entry() {
    // Outputs exceed inputs: not a valid candidate.
    let p = Psbt {
        version: 2,
        inputs: vec![model_input(0xaa, 10, spk_wpkh(0xf0))],
        outputs: vec![TxOut { value_sat: 50_000, script_pubkey: spk_wpkh(0x01) }],
        locktime: 0,
    };
    let r = UnreviewedProposal::new(p, false);
    assert_eq!(r.unwrap_err(), Error::InvalidInput);
}
