use vstd::prelude::*;

use crate::error::Error;
use crate::psbt::{InputPair, Psbt, TxOut};
use crate::psbt::{check_psbt, check_input, spec_script_kind, similar_value, script_kind, sum_out, sum_in};

verus! {

/// The payload every receiver-side stage carries: the current proposal
/// snapshot plus the facts established so far.
#[derive(Clone, Debug, PartialEq, Eq)]
pub struct ProposalCore {
    /// The in-progress joint transaction.
    pub psbt: Psbt,
    /// Whether the sender's parameters forbid output substitution.
    pub substitution_disabled: bool,
    /// Indices of the outputs classified as receiver-owned.
    pub receiver_vouts: Vec<u64>,
    /// Index of the receiver output that collects residual value.
    pub change_vout: u64,
    /// Indices of the inputs the receiver has contributed.
    pub receiver_inputs: Vec<u64>,
}

/// Strictly increasing indices: sorted, with no duplicates.
pub open spec fn strictly_inc(s: Seq<u64>) -> bool {
    forall|a: int, b: int| 0 <= a < b < s.len() ==> s[a] < s[b]
}

impl ProposalCore {
    /// Well-formedness before outputs have been classified.
    pub open spec fn wf_early(self) -> bool {
        &&& self.psbt.wf()
        &&& self.receiver_vouts@.len() == 0
        &&& self.receiver_inputs@.len() == 0
        &&& self.change_vout == 0
    }

    /// Well-formedness once outputs are classified: the receiver owns at
    /// least one output, and every recorded index is in range.
    pub open spec fn wf_classified(self) -> bool {
        &&& self.psbt.wf()
        &&& 1 <= self.receiver_vouts@.len() <= self.psbt.outputs@.len()
        &&& forall|i: int|
            0 <= i < self.receiver_vouts@.len() ==> (#[trigger] self.receiver_vouts@[i] as int)
                < self.psbt.outputs@.len()
        &&& strictly_inc(self.receiver_vouts@)
        &&& (self.change_vout as int) < self.psbt.outputs@.len()
        &&& self.receiver_inputs@.len() == 0
    }

    /// Well-formedness once the receiver has contributed its input.
    pub open spec fn wf_contributed(self) -> bool {
        &&& self.psbt.wf()
        &&& 1 <= self.receiver_vouts@.len() <= self.psbt.outputs@.len()
        &&& forall|i: int|
            0 <= i < self.receiver_vouts@.len() ==> (#[trigger] self.receiver_vouts@[i] as int)
                < self.psbt.outputs@.len()
        &&& strictly_inc(self.receiver_vouts@)
        &&& (self.change_vout as int) < self.psbt.outputs@.len()
        &&& self.receiver_inputs@.len() == 1
        &&& (self.receiver_inputs@[0] as int) < self.psbt.inputs@.len()
    }
}

/// Does the proposal's fee reach `min_rate` satoshis per virtual byte?
pub open spec fn meets_min_rate(p: Psbt, min_rate: u64) -> bool {
    p.spec_fee() >= min_rate * p.spec_vsize()
}

/// Compare the fee of a well-formed proposal against a rate bound without
/// division.
pub fn check_min_rate(p: &Psbt, min_rate: u64) -> (b: bool)
    requires
        p.wf(),
    ensures
        b == meets_min_rate(*p, min_rate),
{
    let fee = p.fee();
    let vsize = p.vsize();
    proof {
        assert((min_rate as u128) * (vsize as u128) <= (0xffff_ffff_ffff_ffffu128)
            * (0xffff_ffff_ffff_ffffu128)) by (nonlinear_arith)
            requires
                min_rate as u128 <= 0xffff_ffff_ffff_ffffu128,
                vsize as u128 <= 0xffff_ffff_ffff_ffffu128,
        ;
    }
    (fee as u128) >= (min_rate as u128) * (vsize as u128)
}

/// Borrow the UTXO an input spends, if its previous-output reference
/// resolves.
pub fn utxo_ref(inp: &InputPair) -> (u: Option<&TxOut>)
    ensures
        match u {
            Option::Some(t) => inp.resolvable() && *t == inp.utxo(),
            Option::None => !inp.resolvable(),
        },
{
    match &inp.witness_utxo {
        Option::Some(u) => Option::Some(u),
        Option::None => match &inp.non_witness_utxo {
            Option::Some(outs) => {
                if (inp.vout as usize) < outs.len() {
                    Option::Some(&outs[inp.vout as usize])
                } else {
                    Option::None
                }
            },
            Option::None => Option::None,
        },
    }
}

/// The peer-submitted proposal, before any check has run.
///
/// First stage of the receiver pipeline; advancing consumes the stage.
#[derive(Clone, Debug, PartialEq, Eq)]
pub struct UnreviewedProposal {
    pub core: ProposalCore,
}

/// Stage reached once broadcast suitability is settled.
#[derive(Clone, Debug, PartialEq, Eq)]
pub struct OwnershipChecked {
    pub core: ProposalCore,
}

/// Stage reached once no input script is receiver-owned.
#[derive(Clone, Debug, PartialEq, Eq)]
pub struct ReplayChecked {
    pub core: ProposalCore,
}

/// Stage reached once no input was seen in a prior proposal.
#[derive(Clone, Debug, PartialEq, Eq)]
pub struct OutputsClassified {
    pub core: ProposalCore,
}

impl UnreviewedProposal {
    pub open spec fn wf(self) -> bool {
        self.core.wf_early()
    }

    /// Admit a candidate proposal into the pipeline, validating its
    /// structure first.
    pub fn new(psbt: Psbt, substitution_disabled: bool) -> (r: Result<Self, Error>)
        ensures
            match r {
                Result::Ok(p) => psbt.wf() && p.wf() && p.core.psbt == psbt
                    && p.core.substitution_disabled == substitution_disabled,
                Result::Err(e) => e == Error::InvalidInput && !psbt.wf(),
            },
    {
        if !check_psbt(&psbt) {
            return Result::Err(Error::InvalidInput);
        }
        Result::Ok(
            UnreviewedProposal {
                core: ProposalCore {
                    psbt,
                    substitution_disabled,
                    receiver_vouts: Vec::new(),
                    change_vout: 0,
                    receiver_inputs: Vec::new(),
                },
            },
        )
    }

    /// Validate the candidate's structure and fee rate, and ask the host
    /// whether its own node would broadcast it; on success advance.
    ///
    /// The candidate's fee must reach `min_fee_rate` (if given) and the
    /// host predicate must accept the proposal.  The stage is returned
    /// unchanged inside the new one; nothing is mutated on failure.
    pub fn check_broadcast_suitability<F: Fn(&Psbt) -> Result<bool, Error>>(
        self,
        min_fee_rate: Option<u64>,
        can_broadcast: F,
    ) -> (r: Result<OwnershipChecked, Error>)
        requires
            self.wf(),
            forall|p: &Psbt| call_requires(can_broadcast, (p,)),
        ensures
            (match r {
                Result::Ok(n) => {
                    &&& n.core == self.core
                    &&& n.wf()
                    &&& (match min_fee_rate {
                        Option::Some(m) => meets_min_rate(self.core.psbt, m),
                        Option::None => true,
                    })
                    &&& call_ensures(
                        can_broadcast,
                        (&self.core.psbt,),
                        Result::<bool, Error>::Ok(true),
                    )
                },
                Result::Err(e) => e == Error::PeerRejected || e == Error::ExternalFailure,
            }),
            r == Result::<OwnershipChecked, Error>::Err(Error::PeerRejected) ==> (match min_fee_rate {
                Option::Some(m) => !meets_min_rate(self.core.psbt, m),
                Option::None => false,
            } || call_ensures(
                can_broadcast,
                (&self.core.psbt,),
                Result::<bool, Error>::Ok(false),
            )),
            r == Result::<OwnershipChecked, Error>::Err(Error::ExternalFailure) ==> exists|e: Error|
                call_ensures(can_broadcast, (&self.core.psbt,), Result::<bool, Error>::Err(e)),
            (match min_fee_rate {
                Option::Some(m) => !meets_min_rate(self.core.psbt, m),
                Option::None => false,
            }) ==> r == Result::<OwnershipChecked, Error>::Err(Error::PeerRejected),
    {
        match min_fee_rate {
            Option::Some(m) => {
                if !check_min_rate(&self.core.psbt, m) {
                    return Result::Err(Error::PeerRejected);
                }
            },
            Option::None => {},
        }
        let ans = can_broadcast(&self.core.psbt);
        match ans {
            Result::Ok(true) => Result::Ok(OwnershipChecked { core: self.core }),
            Result::Ok(false) => Result::Err(Error::PeerRejected),
            Result::Err(e) => {
                proof {
                    assert(call_ensures(
                        can_broadcast,
                        (&self.core.psbt,),
                        Result::<bool, Error>::Err(e),
                    ));
                }
                Result::Err(Error::ExternalFailure)
            },
        }
    }

    /// The candidate transaction in Bitcoin consensus wire form, in hex,
    /// for the host to schedule as a broadcastable fallback.
    pub fn original_tx(&self) -> (r: String)
        ensures
            r@ == crate::text::chars_of_ascii(
                crate::text::spec_hex_bytes(
                    crate::codec::ser_tx_wire(crate::codec::abs_psbt(self.core.psbt)),
                ),
            ),
    {
        let tb = crate::codec::serialize_tx_wire(&self.core.psbt);
        crate::text::hex_string(&tb)
    }

    /// Skip the broadcast check: the interactive exception path for a
    /// receiver that trusts its own broadcast policy implicitly.
    pub fn assume_interactive_receiver(self) -> (n: OwnershipChecked)
        requires
            self.wf(),
        ensures
            n.core == self.core,
            n.wf(),
    {
        OwnershipChecked { core: self.core }
    }
}

/// What the host's script predicate can answer about a script: `r` is a
/// possible outcome of calling `f` on `s`.
pub open spec fn script_pred_says<F: Fn(&Vec<u8>) -> Result<bool, Error>>(
    f: F,
    s: Vec<u8>,
    r: Result<bool, Error>,
) -> bool {
    call_ensures(f, (&s,), r)
}

impl OwnershipChecked {
    pub open spec fn wf(self) -> bool {
        self.core.wf_early()
    }

    /// Reject the proposal if any declared input spends a script the
    /// receiver recognizes as its own; on success advance.
    ///
    /// This prevents the sender from attributing the receiver's own coins
    /// as the sender's.
    pub fn check_inputs_not_owned<F: Fn(&Vec<u8>) -> Result<bool, Error>>(self, is_owned: F) -> (r:
        Result<ReplayChecked, Error>)
        requires
            self.wf(),
            forall|s: &Vec<u8>| call_requires(is_owned, (s,)),
        ensures
            match r {
                Result::Ok(n) => {
                    &&& n.core == self.core
                    &&& n.wf()
                    &&& forall|i: int|
                        0 <= i < self.core.psbt.inputs@.len() ==> script_pred_says(
                            is_owned,
                            (#[trigger] self.core.psbt.inputs@[i]).utxo().script_pubkey,
                            Result::Ok(false),
                        )
                },
                Result::Err(e) => {
                    &&& (e == Error::PeerRejected || e == Error::ExternalFailure)
                    &&& (e == Error::PeerRejected ==> exists|i: int|
                        0 <= i < self.core.psbt.inputs@.len() && script_pred_says(
                            is_owned,
                            (#[trigger] self.core.psbt.inputs@[i]).utxo().script_pubkey,
                            Result::Ok(true),
                        ))
                    &&& (e == Error::ExternalFailure ==> exists|i: int, err: Error|
                        0 <= i < self.core.psbt.inputs@.len() && #[trigger] script_pred_says(
                            is_owned,
                            self.core.psbt.inputs@[i].utxo().script_pubkey,
                            Result::Err(err),
                        ))
                },
            },
    {
        let n = self.core.psbt.inputs.len();
        let mut i: usize = 0;
        while i < n
            invariant
                self.wf(),
                n == self.core.psbt.inputs@.len(),
                0 <= i <= n,
                forall|s: &Vec<u8>| call_requires(is_owned, (s,)),
                forall|j: int|
                    0 <= j < i ==> script_pred_says(
                        is_owned,
                        (#[trigger] self.core.psbt.inputs@[j]).utxo().script_pubkey,
                        Result::Ok(false),
                    ),
            decreases n - i,
        {
            let utxo = match utxo_ref(&self.core.psbt.inputs[i]) {
                Option::Some(u) => u,
                Option::None => {
                    proof {
                        assert(false);
                    }
                    return Result::Err(Error::ExternalFailure);
                },
            };
            let ans = is_owned(&utxo.script_pubkey);
            proof {
                assert(utxo.script_pubkey == self.core.psbt.inputs@[i as int].utxo().script_pubkey);
            }
            match ans {
                Result::Ok(false) => {},
                Result::Ok(true) => {
                    return Result::Err(Error::PeerRejected);
                },
                Result::Err(e) => {
                    proof {
                        assert(script_pred_says(
                            is_owned,
                            self.core.psbt.inputs@[i as int].utxo().script_pubkey,
                            Result::Err(e),
                        ));
                    }
                    return Result::Err(Error::ExternalFailure);
                },
            }
            i += 1;
        }
        Result::Ok(ReplayChecked { core: self.core })
    }
}

/// What the host's outpoint predicate can answer about a previous-output
/// reference.
pub open spec fn outpoint_pred_says<F: Fn(&Vec<u8>, u32) -> Result<bool, Error>>(
    f: F,
    txid: Vec<u8>,
    vout: u32,
    r: Result<bool, Error>,
) -> bool {
    call_ensures(f, (&txid, vout), r)
}

impl ReplayChecked {
    pub open spec fn wf(self) -> bool {
        self.core.wf_early()
    }

    /// Reject the proposal if any input was already seen in a prior,
    /// unfinalized proposal (anti-replay, anti-probing); on success
    /// advance.
    pub fn check_no_inputs_seen_before<F: Fn(&Vec<u8>, u32) -> Result<bool, Error>>(
        self,
        is_known: F,
    ) -> (r: Result<OutputsClassified, Error>)
        requires
            self.wf(),
            forall|t: &Vec<u8>, v: u32| call_requires(is_known, (t, v)),
        ensures
            match r {
                Result::Ok(n) => {
                    &&& n.core == self.core
                    &&& n.wf()
                    &&& forall|i: int|
                        0 <= i < self.core.psbt.inputs@.len() ==> outpoint_pred_says(
                            is_known,
                            (#[trigger] self.core.psbt.inputs@[i]).txid,
                            self.core.psbt.inputs@[i].vout,
                            Result::Ok(false),
                        )
                },
                Result::Err(e) => {
                    &&& (e == Error::PeerRejected || e == Error::ExternalFailure)
                    &&& (e == Error::PeerRejected ==> exists|i: int|
                        0 <= i < self.core.psbt.inputs@.len() && outpoint_pred_says(
                            is_known,
                            (#[trigger] self.core.psbt.inputs@[i]).txid,
                            self.core.psbt.inputs@[i].vout,
                            Result::Ok(true),
                        ))
                    &&& (e == Error::ExternalFailure ==> exists|i: int, err: Error|
                        0 <= i < self.core.psbt.inputs@.len() && #[trigger] outpoint_pred_says(
                            is_known,
                            self.core.psbt.inputs@[i].txid,
                            self.core.psbt.inputs@[i].vout,
                            Result::Err(err),
                        ))
                },
            },
    {
        let n = self.core.psbt.inputs.len();
        let mut i: usize = 0;
        while i < n
            invariant
                self.wf(),
                n == self.core.psbt.inputs@.len(),
                0 <= i <= n,
                forall|t: &Vec<u8>, v: u32| call_requires(is_known, (t, v)),
                forall|j: int|
                    0 <= j < i ==> outpoint_pred_says(
                        is_known,
                        (#[trigger] self.core.psbt.inputs@[j]).txid,
                        self.core.psbt.inputs@[j].vout,
                        Result::Ok(false),
                    ),
            decreases n - i,
        {
            let inp = &self.core.psbt.inputs[i];
            let ans = is_known(&inp.txid, inp.vout);
            match ans {
                Result::Ok(false) => {},
                Result::Ok(true) => {
                    return Result::Err(Error::PeerRejected);
                },
                Result::Err(e) => {
                    proof {
                        assert(outpoint_pred_says(
                            is_known,
                            self.core.psbt.inputs@[i as int].txid,
                            self.core.psbt.inputs@[i as int].vout,
                            Result::Err(e),
                        ));
                    }
                    return Result::Err(Error::ExternalFailure);
                },
            }
            i += 1;
        }
        Result::Ok(OutputsClassified { core: self.core })
    }
}

/// Stage holding the classified output set; its output-mutation
/// operations and `commit_outputs` are the only ways forward.
#[derive(Clone, Debug, PartialEq, Eq)]
pub struct OutputsCommitted {
    pub core: ProposalCore,
}

impl OutputsClassified {
    pub open spec fn wf(self) -> bool {
        self.core.wf_early()
    }

    /// Partition the declared outputs into receiver-owned and other,
    /// using the host's classifier; at least one output must be
    /// receiver-owned.  The first receiver output becomes the change
    /// output.
    pub fn identify_receiver_outputs<F: Fn(&Vec<u8>) -> Result<bool, Error>>(
        self,
        is_receiver_output: F,
    ) -> (r: Result<OutputsCommitted, Error>)
        requires
            self.wf(),
            forall|s: &Vec<u8>| call_requires(is_receiver_output, (s,)),
        ensures
            match r {
                Result::Ok(n) => {
                    &&& n.wf()
                    &&& n.core.psbt == self.core.psbt
                    &&& n.core.substitution_disabled == self.core.substitution_disabled
                    &&& n.core.receiver_inputs@ == self.core.receiver_inputs@
                    &&& n.core.receiver_vouts@.len() >= 1
                    &&& n.core.change_vout == n.core.receiver_vouts@[0]
                    &&& forall|j: int|
                        0 <= j < self.core.psbt.outputs@.len() && n.core.receiver_vouts@.contains(
                            j as u64,
                        ) ==> script_pred_says(
                            is_receiver_output,
                            (#[trigger] self.core.psbt.outputs@[j]).script_pubkey,
                            Result::Ok(true),
                        )
                    &&& forall|j: int|
                        0 <= j < self.core.psbt.outputs@.len() && !n.core.receiver_vouts@.contains(
                            j as u64,
                        ) ==> script_pred_says(
                            is_receiver_output,
                            (#[trigger] self.core.psbt.outputs@[j]).script_pubkey,
                            Result::Ok(false),
                        )
                },
                Result::Err(e) => {
                    &&& (e == Error::PeerRejected || e == Error::ExternalFailure)
                    &&& (e == Error::PeerRejected ==> forall|j: int|
                        0 <= j < self.core.psbt.outputs@.len() ==> script_pred_says(
                            is_receiver_output,
                            (#[trigger] self.core.psbt.outputs@[j]).script_pubkey,
                            Result::Ok(false),
                        ))
                    &&& (e == Error::ExternalFailure ==> exists|j: int, err: Error|
                        0 <= j < self.core.psbt.outputs@.len() && #[trigger] script_pred_says(
                            is_receiver_output,
                            self.core.psbt.outputs@[j].script_pubkey,
                            Result::Err(err),
                        ))
                },
            },
    {
        let n = self.core.psbt.outputs.len();
        let mut vouts: Vec<u64> = Vec::new();
        let mut i: usize = 0;
        while i < n
            invariant
                self.wf(),
                n == self.core.psbt.outputs@.len(),
                0 <= i <= n,
                forall|s: &Vec<u8>| call_requires(is_receiver_output, (s,)),
                vouts@.len() <= i,
                forall|k: int| 0 <= k < vouts@.len() ==> (#[trigger] vouts@[k] as int) < i,
                strictly_inc(vouts@),
                forall|j: int|
                    0 <= j < i ==> (vouts@.contains(j as u64) ==> script_pred_says(
                        is_receiver_output,
                        (#[trigger] self.core.psbt.outputs@[j]).script_pubkey,
                        Result::Ok(true),
                    )),
                forall|j: int|
                    0 <= j < i ==> (!vouts@.contains(j as u64) ==> script_pred_says(
                        is_receiver_output,
                        (#[trigger] self.core.psbt.outputs@[j]).script_pubkey,
                        Result::Ok(false),
                    )),
            decreases n - i,
        {
            let ghost prev = vouts@;
            let ans = is_receiver_output(&self.core.psbt.outputs[i].script_pubkey);
            match ans {
                Result::Ok(true) => {
                    vouts.push(i as u64);
                    assert(vouts@ == prev.push(i as u64));
                    assert forall|j: int| 0 <= j < i implies #[trigger] vouts@.contains(j as u64)
                        == prev.contains(j as u64) by {
                        if vouts@.contains(j as u64) {
                            let k = choose|k: int|
                                0 <= k < vouts@.len() && vouts@[k] == j as u64;
                            assert(k < prev.len());
                            assert(prev[k] == j as u64);
                            assert(prev.contains(j as u64));
                        }
                        if prev.contains(j as u64) {
                            let k = choose|k: int| 0 <= k < prev.len() && prev[k] == j as u64;
                            assert(vouts@[k] == j as u64);
                            assert(vouts@.contains(j as u64));
                        }
                    }
                    assert(vouts@.contains(i as u64)) by {
                        assert(vouts@[vouts@.len() - 1] == i as u64);
                    }
                },
                Result::Ok(false) => {
                    assert(!vouts@.contains(i as u64)) by {
                        assert(forall|k: int|
                            0 <= k < vouts@.len() ==> (#[trigger] vouts@[k] as int) < i);
                    }
                },
                Result::Err(e) => {
                    proof {
                        assert(script_pred_says(
                            is_receiver_output,
                            self.core.psbt.outputs@[i as int].script_pubkey,
                            Result::Err(e),
                        ));
                    }
                    return Result::Err(Error::ExternalFailure);
                },
            }
            i += 1;
        }
        if vouts.len() == 0 {
            proof {
                assert forall|j: int|
                    0 <= j < self.core.psbt.outputs@.len() implies script_pred_says(
                    is_receiver_output,
                    (#[trigger] self.core.psbt.outputs@[j]).script_pubkey,
                    Result::Ok(false),
                ) by {
                    assert(!vouts@.contains(j as u64));
                }
            }
            return Result::Err(Error::PeerRejected);
        }
        let change_vout = vouts[0];
        Result::Ok(
            OutputsCommitted {
                core: ProposalCore {
                    psbt: self.core.psbt,
                    substitution_disabled: self.core.substitution_disabled,
                    receiver_vouts: vouts,
                    change_vout,
                    receiver_inputs: self.core.receiver_inputs,
                },
            },
        )
    }
}

/// Index of the first replacement paying the given script, scanning
/// from `j`, or the length.
pub open spec fn first_rep_idx(reps: Seq<TxOut>, d: Seq<u8>, j: int) -> int
    decreases reps.len() - j,
{
    if j < 0 || j >= reps.len() {
        reps.len() as int
    } else if reps[j].script_pubkey@ == d {
        j
    } else {
        first_rep_idx(reps, d, j + 1)
    }
}

/// Total satoshi value of the outputs at the given indices.
pub open spec fn sum_at(outs: Seq<TxOut>, rv: Seq<u64>) -> int
    decreases rv.len(),
{
    if rv.len() == 0 {
        0
    } else {
        sum_at(outs, rv.drop_last()) + outs[rv.last() as int].value_sat
    }
}

proof fn lemma_sum_at_drop(outs: Seq<TxOut>, rv: Seq<u64>)
    requires
        outs.len() >= 1,
        forall|k: int| 0 <= k < rv.len() ==> (#[trigger] rv[k] as int) < outs.len() - 1,
    ensures
        sum_at(outs, rv) == sum_at(outs.drop_last(), rv),
    decreases rv.len(),
{
    if rv.len() > 0 {
        lemma_sum_at_drop(outs, rv.drop_last());
        assert(forall|k: int|
            0 <= k < rv.drop_last().len() ==> (#[trigger] rv.drop_last()[k] as int) < outs.len()
                - 1);
    }
}

/// The value at distinct, ordered indices never exceeds the whole.
proof fn lemma_sum_at_le(outs: Seq<TxOut>, rv: Seq<u64>)
    requires
        strictly_inc(rv),
        forall|k: int| 0 <= k < rv.len() ==> (#[trigger] rv[k] as int) < outs.len(),
    ensures
        0 <= sum_at(outs, rv) <= sum_out(outs),
    decreases outs.len(),
{
    lemma_sum_out_nonneg(outs);
    if rv.len() == 0 {
    } else if (rv.last() as int) == outs.len() - 1 {
        assert(forall|k: int|
            0 <= k < rv.drop_last().len() ==> (#[trigger] rv.drop_last()[k] as int) < outs.len()
                - 1) by {
            assert(forall|k: int| 0 <= k < rv.len() - 1 ==> #[trigger] rv[k] < rv[rv.len() - 1]);
        }
        lemma_sum_at_drop(outs, rv.drop_last());
        assert(forall|k: int|
            0 <= k < rv.drop_last().len() ==> (#[trigger] rv.drop_last()[k] as int)
                < outs.drop_last().len());
        assert(strictly_inc(rv.drop_last()));
        lemma_sum_at_le(outs.drop_last(), rv.drop_last());
    } else {
        assert(forall|k: int|
            0 <= k < rv.len() ==> (#[trigger] rv[k] as int) < outs.len() - 1) by {
            assert(forall|k: int| 0 <= k < rv.len() - 1 ==> #[trigger] rv[k] < rv[rv.len() - 1]);
        }
        lemma_sum_at_drop(outs, rv);
        lemma_sum_at_le(outs.drop_last(), rv);
    }
}

proof fn lemma_sum_out_update(s: Seq<TxOut>, i: int, v: TxOut)
    requires
        0 <= i < s.len(),
    ensures
        sum_out(s.update(i, v)) == sum_out(s) - s[i].value_sat + v.value_sat,
    decreases s.len(),
{
    if i == s.len() - 1 {
        assert(s.update(i, v).drop_last() =~= s.drop_last());
        assert(s.update(i, v).last() == v);
    } else {
        assert(s.update(i, v).drop_last() =~= s.drop_last().update(i, v));
        assert(s.update(i, v).last() == s.last());
        lemma_sum_out_update(s.drop_last(), i, v);
    }
}

/// Stage holding the frozen output set, from which the receiver
/// contributes its input.
#[derive(Clone, Debug, PartialEq, Eq)]
pub struct InputsContributed {
    pub core: ProposalCore,
}

impl OutputsCommitted {
    pub open spec fn wf(self) -> bool {
        self.core.wf_classified()
    }

    /// Report whether the sender's parameters forbade output
    /// substitution.
    pub fn is_output_substitution_disabled(&self) -> (b: bool)
        ensures
            b == self.core.substitution_disabled,
    {
        self.core.substitution_disabled
    }

    /// Replace the receiver's change output script, keeping its value.
    /// Rejected when the sender disabled output substitution.
    pub fn substitute_receiver_script(self, output_script: Vec<u8>) -> (r: Result<
        OutputsCommitted,
        Error,
    >)
        requires
            self.wf(),
        ensures
            match r {
                Result::Ok(n) => {
                    &&& !self.core.substitution_disabled
                    &&& output_script@.len() <= crate::psbt::MAX_SCRIPT_LEN
                    &&& n.wf()
                    &&& n.core.psbt.inputs@ == self.core.psbt.inputs@
                    &&& n.core.psbt.locktime == self.core.psbt.locktime
                    &&& n.core.psbt.version == self.core.psbt.version
                    &&& n.core.psbt.outputs@ == self.core.psbt.outputs@.update(
                        self.core.change_vout as int,
                        TxOut {
                            value_sat: self.core.psbt.outputs@[self.core.change_vout as int].value_sat,
                            script_pubkey: output_script,
                        },
                    )
                    &&& n.core.receiver_vouts@ == self.core.receiver_vouts@
                    &&& n.core.change_vout == self.core.change_vout
                    &&& n.core.receiver_inputs@ == self.core.receiver_inputs@
                    &&& n.core.substitution_disabled == self.core.substitution_disabled
                },
                Result::Err(e) => {
                    &&& (self.core.substitution_disabled ==> e == Error::ProtocolViolation)
                    &&& (!self.core.substitution_disabled ==> e == Error::InvalidInput
                        && output_script@.len() > crate::psbt::MAX_SCRIPT_LEN)
                },
            },
    {
        if self.core.substitution_disabled {
            return Result::Err(Error::ProtocolViolation);
        }
        if output_script.len() > crate::psbt::MAX_SCRIPT_LEN {
            return Result::Err(Error::InvalidInput);
        }
        let mut core = self.core;
        let cv = core.change_vout as usize;
        let ghost old_outputs = core.psbt.outputs@;
        let value = core.psbt.outputs[cv].value_sat;
        core.psbt.outputs[cv] = TxOut { value_sat: value, script_pubkey: output_script };
        proof {
            lemma_sum_out_update(
                old_outputs,
                cv as int,
                core.psbt.outputs@[cv as int],
            );
        }
        Result::Ok(OutputsCommitted { core })
    }

    /// The residual value an output replacement frees: whatever the old
    /// receiver outputs held beyond the replacements' total.
    pub open spec fn spec_residual(self, reps: Seq<TxOut>) -> int {
        let sa = sum_at(self.core.psbt.outputs@, self.core.receiver_vouts@);
        let sr = sum_out(reps);
        if sa > sr {
            sa - sr
        } else {
            0
        }
    }

    /// Everything that must hold for an output replacement to succeed:
    /// substitution allowed, one replacement per receiver output, every
    /// replacement valid, the drain script among them, the drain output
    /// able to absorb the residual, and the inputs still covering the
    /// outputs afterwards.
    pub open spec fn replace_ok(self, reps: Seq<TxOut>, d: Seq<u8>) -> bool {
        &&& !self.core.substitution_disabled
        &&& reps.len() == self.core.receiver_vouts@.len()
        &&& forall|k: int| 0 <= k < reps.len() ==> (#[trigger] reps[k]).wf()
        &&& first_rep_idx(reps, d, 0) < reps.len()
        &&& reps[first_rep_idx(reps, d, 0)].value_sat + self.spec_residual(reps)
            <= crate::psbt::MAX_MONEY_SAT
        &&& sum_out(self.core.psbt.outputs@) - sum_at(
            self.core.psbt.outputs@,
            self.core.receiver_vouts@,
        ) + sum_out(reps) + self.spec_residual(reps) <= sum_in(self.core.psbt.inputs@)
    }

    /// Replace the full receiver-output set, one replacement per
    /// receiver output in order.  The first replacement carrying
    /// `drain_script` becomes the change output, and any residual value
    /// the old receiver outputs held beyond the replacements' total is
    /// routed onto it.  Sender outputs are never touched, and no output
    /// is dropped.
    pub fn replace_receiver_outputs(
        self,
        replacement_outputs: Vec<TxOut>,
        drain_script: Vec<u8>,
    ) -> (r: Result<OutputsCommitted, Error>)
        requires
            self.wf(),
        ensures
            (r is Ok) == self.replace_ok(replacement_outputs@, drain_script@),
            match r {
                Result::Ok(n) => {
                    &&& n.wf()
                    &&& n.core.psbt.inputs@ == self.core.psbt.inputs@
                    &&& n.core.psbt.locktime == self.core.psbt.locktime
                    &&& n.core.psbt.version == self.core.psbt.version
                    &&& n.core.psbt.outputs@.len() == self.core.psbt.outputs@.len()
                    &&& forall|k: int|
                        0 <= k < self.core.receiver_vouts@.len() && k != first_rep_idx(
                            replacement_outputs@,
                            drain_script@,
                            0,
                        ) ==> txout_matches(
                            n.core.psbt.outputs@[self.core.receiver_vouts@[k] as int],
                            #[trigger] replacement_outputs@[k],
                        )
                    &&& n.core.psbt.outputs@[self.core.receiver_vouts@[first_rep_idx(
                        replacement_outputs@,
                        drain_script@,
                        0,
                    )] as int].value_sat as int == replacement_outputs@[first_rep_idx(
                        replacement_outputs@,
                        drain_script@,
                        0,
                    )].value_sat + self.spec_residual(replacement_outputs@)
                    &&& n.core.psbt.outputs@[self.core.receiver_vouts@[first_rep_idx(
                        replacement_outputs@,
                        drain_script@,
                        0,
                    )] as int].script_pubkey@ == drain_script@
                    &&& forall|j: int|
                        0 <= j < self.core.psbt.outputs@.len()
                            && !self.core.receiver_vouts@.contains(j as u64)
                            ==> #[trigger] n.core.psbt.outputs@[j] == self.core.psbt.outputs@[j]
                    &&& n.core.receiver_vouts@ == self.core.receiver_vouts@
                    &&& n.core.substitution_disabled == self.core.substitution_disabled
                    &&& n.core.receiver_inputs@ == self.core.receiver_inputs@
                    &&& n.core.change_vout == self.core.receiver_vouts@[first_rep_idx(
                        replacement_outputs@,
                        drain_script@,
                        0,
                    )]
                    &&& n.core.psbt.outputs@[n.core.change_vout as int].script_pubkey@
                        == drain_script@
                },
                Result::Err(e) => {
                    &&& (self.core.substitution_disabled ==> e == Error::ProtocolViolation)
                    &&& (!self.core.substitution_disabled ==> e == Error::InvalidInput)
                },
            },
    {
        if self.core.substitution_disabled {
            return Result::Err(Error::ProtocolViolation);
        }
        let m = self.core.receiver_vouts.len();
        if replacement_outputs.len() != m {
            return Result::Err(Error::InvalidInput);
        }
        let mut k: usize = 0;
        while k < m
            invariant
                !self.core.substitution_disabled,
                m == replacement_outputs@.len(),
                0 <= k <= m,
                forall|j: int| 0 <= j < k ==> (#[trigger] replacement_outputs@[j]).wf(),
            decreases m - k,
        {
            if replacement_outputs[k].value_sat > crate::psbt::MAX_MONEY_SAT
                || replacement_outputs[k].script_pubkey.len() > crate::psbt::MAX_SCRIPT_LEN {
                return Result::Err(Error::InvalidInput);
            }
            k += 1;
        }
        let mut drain_at: usize = 0;
        let mut drain_found: bool = false;
        let mut k2: usize = 0;
        while k2 < m && !drain_found
            invariant
                !self.core.substitution_disabled,
                m == self.core.receiver_vouts@.len(),
                forall|j: int| 0 <= j < m ==> (#[trigger] replacement_outputs@[j]).wf(),
                m == replacement_outputs@.len(),
                0 <= k2 <= m,
                !drain_found ==> drain_at == 0 && first_rep_idx(
                    replacement_outputs@,
                    drain_script@,
                    0,
                ) == first_rep_idx(replacement_outputs@, drain_script@, k2 as int),
                drain_found ==> k2 < m && drain_at == k2 && first_rep_idx(
                    replacement_outputs@,
                    drain_script@,
                    0,
                ) == drain_at as int && replacement_outputs@[drain_at as int].script_pubkey@
                    == drain_script@,
            decreases m - k2 + (if drain_found { 0int } else { 1int }),
        {
            if crate::text::bytes_eq(&replacement_outputs[k2].script_pubkey, &drain_script) {
                drain_at = k2;
                drain_found = true;
            } else {
                k2 += 1;
            }
        }
        if !drain_found {
            proof {
                assert(first_rep_idx(replacement_outputs@, drain_script@, m as int)
                    == replacement_outputs@.len());
            }
            return Result::Err(Error::InvalidInput);
        }
        // Total value the old receiver outputs hold.
        let mut sa: u64 = 0;
        let mut si: usize = 0;
        proof {
            assert(self.core.receiver_vouts@.take(0) =~= Seq::<u64>::empty());
        }
        while si < m
            invariant
                self.wf(),
                !self.core.substitution_disabled,
                m == self.core.receiver_vouts@.len(),
                m == replacement_outputs@.len(),
                forall|j: int| 0 <= j < m ==> (#[trigger] replacement_outputs@[j]).wf(),
                drain_at < m,
                replacement_outputs@[drain_at as int].script_pubkey@ == drain_script@,
                first_rep_idx(replacement_outputs@, drain_script@, 0) == drain_at as int,
                0 <= si <= m,
                sa as int == sum_at(
                    self.core.psbt.outputs@,
                    self.core.receiver_vouts@.take(si as int),
                ),
                sa <= crate::psbt::MAX_MONEY_SAT,
            decreases m - si,
        {
            let ghost rvw = self.core.receiver_vouts@;
            proof {
                assert(rvw.take(si + 1).drop_last() =~= rvw.take(si as int));
                assert(rvw.take(si + 1).last() == rvw[si as int]);
                assert(strictly_inc(rvw.take(si + 1))) by {
                    assert(forall|a: int, b: int|
                        0 <= a < b < si + 1 ==> rvw.take(si + 1)[a] == rvw[a] && rvw.take(
                            si + 1,
                        )[b] == rvw[b]);
                }
                assert(forall|q: int|
                    0 <= q < si + 1 ==> (#[trigger] rvw.take(si + 1)[q] as int)
                        < self.core.psbt.outputs@.len());
                lemma_sum_at_le(self.core.psbt.outputs@, rvw.take(si + 1));
            }
            let slot = self.core.receiver_vouts[si] as usize;
            sa = sa + self.core.psbt.outputs[slot].value_sat;
            si += 1;
        }
        proof {
            assert(self.core.receiver_vouts@.take(m as int) =~= self.core.receiver_vouts@);
        }
        // Total value the replacements bring.
        let sr: u64 = match crate::psbt::sum_output_values(&replacement_outputs) {
            Option::Some(t) => t,
            Option::None => {
                proof {
                    lemma_sum_at_le(self.core.psbt.outputs@, self.core.receiver_vouts@);
                }
                return Result::Err(Error::InvalidInput);
            },
        };
        let residual: u64 = if sa > sr {
            sa - sr
        } else {
            0
        };
        let drain_value = replacement_outputs[drain_at].value_sat;
        if drain_value > crate::psbt::MAX_MONEY_SAT - residual {
            return Result::Err(Error::InvalidInput);
        }
        let mut core = self.core;
        let ghost old_outputs = core.psbt.outputs@;
        let ghost rv = core.receiver_vouts@;
        let mut i: usize = 0;
        while i < m
            invariant
                self.wf(),
                !self.core.substitution_disabled,
                drain_at < m,
                replacement_outputs@[drain_at as int].script_pubkey@ == drain_script@,
                m == self.core.receiver_vouts@.len(),
                m == replacement_outputs@.len(),
                m == rv.len(),
                rv == core.receiver_vouts@,
                rv == self.core.receiver_vouts@,
                core.receiver_inputs@ == self.core.receiver_inputs@,
                core.substitution_disabled == self.core.substitution_disabled,
                core.change_vout == self.core.change_vout,
                core.psbt.inputs@ == self.core.psbt.inputs@,
                core.psbt.locktime == self.core.psbt.locktime,
                core.psbt.version == self.core.psbt.version,
                old_outputs == self.core.psbt.outputs@,
                forall|j: int| 0 <= j < m ==> (#[trigger] replacement_outputs@[j]).wf(),
                0 <= i <= m,
                core.psbt.outputs@.len() == old_outputs.len(),
                forall|kk: int|
                    0 <= kk < i ==> txout_matches(
                        core.psbt.outputs@[rv[kk] as int],
                        #[trigger] replacement_outputs@[kk],
                    ),
                forall|j: int|
                    0 <= j < old_outputs.len() && !rv.take(i as int).contains(j as u64)
                        ==> #[trigger] core.psbt.outputs@[j] == old_outputs[j],
                sum_out(core.psbt.outputs@) == sum_out(old_outputs) - sum_at(
                    old_outputs,
                    rv.take(i as int),
                ) + sum_out(replacement_outputs@.take(i as int)),
            decreases m - i,
        {
            let slot = core.receiver_vouts[i] as usize;
            let ghost before = core.psbt.outputs@;
            proof {
                assert((rv[i as int] as int) < old_outputs.len());
                assert(!rv.take(i as int).contains(rv[i as int])) by {
                    if rv.take(i as int).contains(rv[i as int]) {
                        let w = choose|w: int|
                            0 <= w < i && rv.take(i as int)[w] == rv[i as int];
                        assert(rv[w] == rv[i as int]);
                        assert(rv[w] < rv[i as int]);
                    }
                }
                assert(before[slot as int] == old_outputs[slot as int]);
            }
            let newo = TxOut {
                value_sat: replacement_outputs[i].value_sat,
                script_pubkey: crate::text::clone_bytes(&replacement_outputs[i].script_pubkey),
            };
            core.psbt.outputs[slot] = newo;
            proof {
                lemma_sum_out_update(before, slot as int, core.psbt.outputs@[slot as int]);
                assert(rv.take(i + 1).drop_last() =~= rv.take(i as int));
                assert(sum_at(old_outputs, rv.take(i + 1)) == sum_at(
                    old_outputs,
                    rv.take(i as int),
                ) + old_outputs[rv[i as int] as int].value_sat);
                assert(replacement_outputs@.take(i + 1).drop_last()
                    =~= replacement_outputs@.take(i as int));
                assert(sum_out(replacement_outputs@.take(i + 1)) == sum_out(
                    replacement_outputs@.take(i as int),
                ) + replacement_outputs@[i as int].value_sat);
                assert forall|j: int|
                    0 <= j < old_outputs.len() && !rv.take(i + 1).contains(j as u64)
                        implies #[trigger] core.psbt.outputs@[j] == old_outputs[j] by {
                    if !rv.take(i as int).contains(j as u64) && j != slot as int {
                    } else if j == slot as int {
                        assert(rv.take(i + 1)[i as int] == rv[i as int]);
                        assert(rv.take(i + 1).contains(j as u64));
                    } else {
                        let w = choose|w: int|
                            0 <= w < i && rv.take(i as int)[w] == j as u64;
                        assert(rv.take(i + 1)[w] == j as u64);
                        assert(rv.take(i + 1).contains(j as u64));
                    }
                }
                assert forall|kk: int|
                    0 <= kk < i + 1 implies txout_matches(
                    core.psbt.outputs@[rv[kk] as int],
                    #[trigger] replacement_outputs@[kk],
                ) by {
                    if kk < i {
                        assert(rv[kk] < rv[i as int]);
                        assert(core.psbt.outputs@[rv[kk] as int] == before[rv[kk] as int]);
                    }
                }
            }
            i += 1;
        }
        proof {
            assert(rv.take(m as int) =~= rv);
            assert(replacement_outputs@.take(m as int) =~= replacement_outputs@);
        }
        // Route the residual onto the drain replacement.
        let drain_slot = core.receiver_vouts[drain_at] as usize;
        let ghost mid_outputs = core.psbt.outputs@;
        proof {
            assert(txout_matches(
                mid_outputs[rv[drain_at as int] as int],
                replacement_outputs@[drain_at as int],
            ));
        }
        let cur = core.psbt.outputs[drain_slot].value_sat;
        core.psbt.outputs[drain_slot].value_sat = cur + residual;
        proof {
            lemma_sum_out_update(
                mid_outputs,
                drain_slot as int,
                core.psbt.outputs@[drain_slot as int],
            );
            assert(core.psbt.outputs@[drain_slot as int].script_pubkey == mid_outputs[drain_slot
                as int].script_pubkey);
            assert forall|kk: int|
                0 <= kk < m && kk != drain_at as int implies txout_matches(
                core.psbt.outputs@[rv[kk] as int],
                #[trigger] replacement_outputs@[kk],
            ) by {
                assert((rv[kk] as int) != (rv[drain_at as int] as int)) by {
                    if kk < drain_at as int {
                        assert(rv[kk] < rv[drain_at as int]);
                    } else {
                        assert(rv[drain_at as int] < rv[kk]);
                    }
                }
                assert(core.psbt.outputs@[rv[kk] as int] == mid_outputs[rv[kk] as int]);
            }
            assert forall|j: int|
                0 <= j < old_outputs.len() && !rv.contains(j as u64)
                    implies #[trigger] core.psbt.outputs@[j] == old_outputs[j] by {
                assert(rv[drain_at as int] == core.receiver_vouts@[drain_at as int]);
                assert(rv.contains(rv[drain_at as int]));
                assert(j != rv[drain_at as int] as int);
                assert(core.psbt.outputs@[j] == mid_outputs[j]);
            }
            assert forall|j: int|
                0 <= j < core.psbt.outputs@.len() implies (#[trigger] core.psbt.outputs@[j]).wf()
                by {
                if j == drain_slot as int {
                    assert(core.psbt.outputs@[j].value_sat as int == replacement_outputs@[drain_at
                        as int].value_sat + residual);
                } else if rv.contains(j as u64) {
                    let w = choose|w: int| 0 <= w < rv.len() && rv[w] == j as u64;
                    if w == drain_at as int {
                        assert(j == drain_slot as int);
                    } else {
                        assert(txout_matches(core.psbt.outputs@[j], replacement_outputs@[w]));
                        assert(replacement_outputs@[w].wf());
                    }
                } else {
                    assert(core.psbt.outputs@[j] == old_outputs[j]);
                }
            }
        }
        let total_out: u64 = match crate::psbt::sum_output_values(&core.psbt.outputs) {
            Option::Some(t) => t,
            Option::None => {
                return Result::Err(Error::InvalidInput);
            },
        };
        let total_in: u64 = match crate::psbt::sum_input_values(&core.psbt.inputs) {
            Option::Some(t) => t,
            Option::None => {
                proof {
                    assert(false);
                }
                0
            },
        };
        if total_out > total_in {
            return Result::Err(Error::InvalidInput);
        }
        core.change_vout = core.receiver_vouts[drain_at];
        Result::Ok(OutputsCommitted { core })
    }

    /// Freeze the output set; input contribution comes next.
    pub fn commit_outputs(self) -> (n: InputsContributed)
        requires
            self.wf(),
        ensures
            n.core == self.core,
            n.wf(),
    {
        InputsContributed { core: self.core }
    }
}

impl InputsContributed {
    pub open spec fn wf(self) -> bool {
        self.core.wf_classified()
    }
}


/// Field-wise agreement of two outputs, by contents.
pub open spec fn txout_matches(a: TxOut, b: TxOut) -> bool {
    a.value_sat == b.value_sat && a.script_pubkey@ == b.script_pubkey@
}

/// Copy an optional byte vector.
fn clone_opt_bytes(o: &Option<Vec<u8>>) -> (r: Option<Vec<u8>>)
    ensures
        r.deep_view() == o.deep_view(),
{
    match o {
        Option::Some(v) => Option::Some(crate::text::clone_bytes(v)),
        Option::None => Option::None,
    }
}

/// Copy a vector of byte vectors.
fn clone_vv(v: &Vec<Vec<u8>>) -> (r: Vec<Vec<u8>>)
    ensures
        r.deep_view() == v.deep_view(),
{
    let mut r: Vec<Vec<u8>> = Vec::new();
    let mut i: usize = 0;
    while i < v.len()
        invariant
            0 <= i <= v@.len(),
            r@.len() == i,
            forall|j: int| 0 <= j < i ==> (#[trigger] r@[j])@ == v@[j]@,
        decreases v@.len() - i,
    {
        r.push(crate::text::clone_bytes(&v[i]));
        i += 1;
    }
    proof {
        assert(r.deep_view() =~~= v.deep_view());
    }
    r
}

/// Copy an optional witness stack.
fn clone_opt_vv(o: &Option<Vec<Vec<u8>>>) -> (r: Option<Vec<Vec<u8>>>)
    ensures
        r.deep_view() == o.deep_view(),
{
    match o {
        Option::Some(v) => Option::Some(clone_vv(v)),
        Option::None => Option::None,
    }
}

/// Copy a vector of outputs, by contents.
fn clone_txouts(v: &Vec<TxOut>) -> (r: Vec<TxOut>)
    ensures
        r@.len() == v@.len(),
        forall|j: int| 0 <= j < v@.len() ==> txout_matches(#[trigger] r@[j], v@[j]),
{
    let mut r: Vec<TxOut> = Vec::new();
    let mut i: usize = 0;
    while i < v.len()
        invariant
            0 <= i <= v@.len(),
            r@.len() == i,
            forall|j: int| 0 <= j < i ==> txout_matches(#[trigger] r@[j], v@[j]),
        decreases v@.len() - i,
    {
        r.push(
            TxOut {
                value_sat: v[i].value_sat,
                script_pubkey: crate::text::clone_bytes(&v[i].script_pubkey),
            },
        );
        i += 1;
    }
    r
}

/// A previous-output reference as the host supplies it: the transaction
/// id in hex, and the output index.
#[derive(Clone, Debug, PartialEq, Eq)]
pub struct TxOutpoint {
    pub txid: String,
    pub vout: u32,
}

/// The UTXO behind an input, as the host supplies it: an exact satoshi
/// amount and the script in hex.
#[derive(Clone, Debug, PartialEq, Eq)]
pub struct WitnessUtxoData {
    pub value_sat: u64,
    pub script_pub_key_hex: String,
}

/// The PSBT metadata the host attaches to a candidate input.
#[derive(Clone, Debug, PartialEq, Eq)]
pub struct PsbtInputData {
    pub non_witness_utxo: Option<Vec<TxOut>>,
    pub witness_utxo: Option<WitnessUtxoData>,
    pub sighash_type: Option<u32>,
    pub redeem_script: Option<Vec<u8>>,
    pub witness_script: Option<Vec<u8>>,
    pub final_script_sig: Option<Vec<u8>>,
    pub final_script_witness: Option<Vec<Vec<u8>>>,
}

/// A candidate input exactly as the host hands it over; decoding it may
/// fail, and a failed candidate is never contributed.
#[derive(Clone, Debug, PartialEq, Eq)]
pub struct InputPairRequest {
    pub prevout: TxOutpoint,
    pub script_sig: Option<Vec<u8>>,
    pub witness: Option<Vec<Vec<u8>>>,
    pub sequence: Option<u32>,
    pub psbt_data: PsbtInputData,
}

/// The bytes a hex string denotes, when it is ASCII hex.
pub open spec fn hex_chars_bytes(s: Seq<char>) -> Option<Seq<u8>> {
    match crate::text::ascii_rep(s) {
        Option::Some(bs) => crate::text::spec_hex_parse(bs),
        Option::None => Option::None,
    }
}

/// The sequence number a candidate denotes; absent means final.
pub open spec fn req_sequence(req: InputPairRequest) -> u32 {
    match req.sequence {
        Option::Some(s) => s,
        Option::None => 0xffff_ffffu32,
    }
}

impl InputPairRequest {
    /// The satoshi value and script of the UTXO this candidate claims to
    /// spend, when they decode.
    pub open spec fn spec_utxo(self) -> Option<(u64, Seq<u8>)> {
        match self.psbt_data.witness_utxo {
            Option::Some(w) => match hex_chars_bytes(w.script_pub_key_hex@) {
                Option::Some(spk) => Option::Some((w.value_sat, spk)),
                Option::None => Option::None,
            },
            Option::None => match self.psbt_data.non_witness_utxo {
                Option::Some(outs) => if (self.vout_int()) < outs@.len() {
                    Option::Some(
                        (
                            outs@[self.vout_int()].value_sat,
                            outs@[self.vout_int()].script_pubkey@,
                        ),
                    )
                } else {
                    Option::None
                },
                Option::None => Option::None,
            },
        }
    }

    pub open spec fn vout_int(self) -> int {
        self.prevout.vout as int
    }

    /// Everything a conversion checks: the txid decodes to 32 bytes, the
    /// UTXO decodes and respects the money and size limits, and every
    /// carried script fits the model.
    pub open spec fn valid(self) -> bool {
        &&& (match hex_chars_bytes(self.prevout.txid@) {
            Option::Some(t) => t.len() == 32,
            Option::None => false,
        })
        &&& (match self.spec_utxo() {
            Option::Some((v, spk)) => v <= crate::psbt::MAX_MONEY_SAT && spk.len()
                <= crate::psbt::MAX_SCRIPT_LEN,
            Option::None => false,
        })
        &&& (match self.script_sig {
            Option::Some(s) => s@.len() <= crate::psbt::MAX_SCRIPT_LEN,
            Option::None => true,
        })
        &&& (match self.witness {
            Option::Some(w) => w@.len() <= crate::psbt::MAX_WITNESS_ITEMS && forall|i: int|
                0 <= i < w@.len() ==> (#[trigger] w@[i])@.len() <= crate::psbt::MAX_SCRIPT_LEN,
            Option::None => true,
        })
        &&& (match self.psbt_data.non_witness_utxo {
            Option::Some(outs) => outs@.len() <= crate::psbt::MAX_LIST_LEN && forall|i: int|
                0 <= i < outs@.len() ==> (#[trigger] outs@[i]).script_pubkey@.len()
                    <= crate::psbt::MAX_SCRIPT_LEN,
            Option::None => true,
        })
        &&& (match self.psbt_data.redeem_script {
            Option::Some(b) => b@.len() <= crate::psbt::MAX_SCRIPT_LEN,
            Option::None => true,
        })
        &&& (match self.psbt_data.witness_script {
            Option::Some(b) => b@.len() <= crate::psbt::MAX_SCRIPT_LEN,
            Option::None => true,
        })
        &&& (match self.psbt_data.final_script_sig {
            Option::Some(b) => b@.len() <= crate::psbt::MAX_SCRIPT_LEN,
            Option::None => true,
        })
        &&& (match self.psbt_data.final_script_witness {
            Option::Some(w) => w@.len() <= crate::psbt::MAX_WITNESS_ITEMS && forall|i: int|
                0 <= i < w@.len() ==> (#[trigger] w@[i])@.len() <= crate::psbt::MAX_SCRIPT_LEN,
            Option::None => true,
        })
    }

    /// How a decoded input relates to the request it came from.
    pub open spec fn converts_to(self, ip: InputPair) -> bool {
        &&& hex_chars_bytes(self.prevout.txid@) == Option::Some(ip.txid@)
        &&& ip.vout == self.prevout.vout
        &&& ip.script_sig@ == (match self.script_sig {
            Option::Some(s) => s@,
            Option::None => Seq::<u8>::empty(),
        })
        &&& ip.witness.deep_view() == (match self.witness {
            Option::Some(w) => w.deep_view(),
            Option::None => Seq::<Seq<u8>>::empty(),
        })
        &&& ip.sequence == req_sequence(self)
        &&& ip.resolvable()
        &&& (match self.spec_utxo() {
            Option::Some((v, spk)) => ip.utxo().value_sat == v && ip.utxo().script_pubkey@
                == spk,
            Option::None => false,
        })
        &&& ip.redeem_script.deep_view() == self.psbt_data.redeem_script.deep_view()
        &&& ip.witness_script.deep_view() == self.psbt_data.witness_script.deep_view()
        &&& ip.final_script_sig.deep_view() == self.psbt_data.final_script_sig.deep_view()
        &&& ip.final_script_witness.deep_view() == self.psbt_data.final_script_witness.deep_view()
        &&& ip.sighash_type == self.psbt_data.sighash_type
        &&& (ip.non_witness_utxo is Some) == (self.psbt_data.non_witness_utxo is Some)
        &&& ip.wf()
    }

    /// Decode this candidate into the model's input form, validating
    /// every field; malformed candidates are rejected before use.
    pub fn into_input_pair(self) -> (r: Result<InputPair, Error>)
        ensures
            match r {
                Result::Ok(ip) => self.valid() && self.converts_to(ip),
                Result::Err(e) => e == Error::InvalidInput && !self.valid(),
            },
    {
        convert_input_pair(&self)
    }
}

/// Decode a candidate without consuming it.
fn convert_input_pair(req: &InputPairRequest) -> (r: Result<InputPair, Error>)
    ensures
        match r {
            Result::Ok(ip) => req.valid() && req.converts_to(ip),
            Result::Err(e) => e == Error::InvalidInput && !req.valid(),
        },
{
    let txid: Vec<u8> = match parse_hex_string(&req.prevout.txid) {
        Option::Some(t) => t,
        Option::None => {
            return Result::Err(Error::InvalidInput);
        },
    };
    if txid.len() != 32 {
        return Result::Err(Error::InvalidInput);
    }
    let witness_utxo: Option<TxOut> = match &req.psbt_data.witness_utxo {
        Option::Some(w) => {
            let spk = match parse_hex_string(&w.script_pub_key_hex) {
                Option::Some(s) => s,
                Option::None => {
                    return Result::Err(Error::InvalidInput);
                },
            };
            if w.value_sat > crate::psbt::MAX_MONEY_SAT || spk.len()
                > crate::psbt::MAX_SCRIPT_LEN {
                return Result::Err(Error::InvalidInput);
            }
            Option::Some(TxOut { value_sat: w.value_sat, script_pubkey: spk })
        },
        Option::None => {
            match &req.psbt_data.non_witness_utxo {
                Option::Some(outs) => {
                    if !((req.prevout.vout as usize) < outs.len()) {
                        return Result::Err(Error::InvalidInput);
                    }
                    let u = &outs[req.prevout.vout as usize];
                    if u.value_sat > crate::psbt::MAX_MONEY_SAT || u.script_pubkey.len()
                        > crate::psbt::MAX_SCRIPT_LEN {
                        return Result::Err(Error::InvalidInput);
                    }
                },
                Option::None => {
                    return Result::Err(Error::InvalidInput);
                },
            }
            Option::None
        },
    };
    let script_sig: Vec<u8> = match &req.script_sig {
        Option::Some(s) => {
            if s.len() > crate::psbt::MAX_SCRIPT_LEN {
                return Result::Err(Error::InvalidInput);
            }
            crate::text::clone_bytes(s)
        },
        Option::None => Vec::new(),
    };
    let witness: Vec<Vec<u8>> = match &req.witness {
        Option::Some(w) => {
            if w.len() > crate::psbt::MAX_WITNESS_ITEMS {
                return Result::Err(Error::InvalidInput);
            }
            let mut i: usize = 0;
            while i < w.len()
                invariant
                    0 <= i <= w@.len(),
                    req.witness is Some,
                    *w == req.witness->Some_0,
                    forall|j: int|
                        0 <= j < i ==> (#[trigger] w@[j])@.len() <= crate::psbt::MAX_SCRIPT_LEN,
                decreases w@.len() - i,
            {
                if w[i].len() > crate::psbt::MAX_SCRIPT_LEN {
                    proof {
                        assert(!(forall|j: int|
                            0 <= j < w@.len() ==> (#[trigger] w@[j])@.len()
                                <= crate::psbt::MAX_SCRIPT_LEN)) by {
                            assert(0 <= (i as int) && (i as int) < w@.len());
                            assert(w@[i as int]@.len() > crate::psbt::MAX_SCRIPT_LEN);
                        }
                        assert(!req.valid());
                    }
                    return Result::Err(Error::InvalidInput);
                }
                i += 1;
            }
            clone_vv(w)
        },
        Option::None => Vec::new(),
    };
    match &req.psbt_data.non_witness_utxo {
        Option::Some(outs) => {
            if outs.len() > crate::psbt::MAX_LIST_LEN {
                return Result::Err(Error::InvalidInput);
            }
            let mut k: usize = 0;
            while k < outs.len()
                invariant
                    req.psbt_data.non_witness_utxo matches Option::Some(o) && o@ == outs@,
                    0 <= k <= outs@.len(),
                    forall|j: int|
                        0 <= j < k ==> (#[trigger] outs@[j]).script_pubkey@.len()
                            <= crate::psbt::MAX_SCRIPT_LEN,
                decreases outs@.len() - k,
            {
                if outs[k].script_pubkey.len() > crate::psbt::MAX_SCRIPT_LEN {
                    proof {
                        assert(!req.valid()) by {
                            assert(outs@[k as int].script_pubkey@.len()
                                > crate::psbt::MAX_SCRIPT_LEN);
                        }
                    }
                    return Result::Err(Error::InvalidInput);
                }
                k += 1;
            }
        },
        Option::None => {},
    }
    match &req.psbt_data.redeem_script {
        Option::Some(b) => {
            if b.len() > crate::psbt::MAX_SCRIPT_LEN {
                return Result::Err(Error::InvalidInput);
            }
        },
        Option::None => {},
    }
    match &req.psbt_data.witness_script {
        Option::Some(b) => {
            if b.len() > crate::psbt::MAX_SCRIPT_LEN {
                return Result::Err(Error::InvalidInput);
            }
        },
        Option::None => {},
    }
    match &req.psbt_data.final_script_sig {
        Option::Some(b) => {
            if b.len() > crate::psbt::MAX_SCRIPT_LEN {
                return Result::Err(Error::InvalidInput);
            }
        },
        Option::None => {},
    }
    match &req.psbt_data.final_script_witness {
        Option::Some(w) => {
            if w.len() > crate::psbt::MAX_WITNESS_ITEMS {
                return Result::Err(Error::InvalidInput);
            }
            let mut k: usize = 0;
            while k < w.len()
                invariant
                    req.psbt_data.final_script_witness matches Option::Some(o) && o@ == w@,
                    0 <= k <= w@.len(),
                    forall|j: int|
                        0 <= j < k ==> (#[trigger] w@[j])@.len() <= crate::psbt::MAX_SCRIPT_LEN,
                decreases w@.len() - k,
            {
                if w[k].len() > crate::psbt::MAX_SCRIPT_LEN {
                    proof {
                        assert(!req.valid()) by {
                            assert(w@[k as int]@.len() > crate::psbt::MAX_SCRIPT_LEN);
                        }
                    }
                    return Result::Err(Error::InvalidInput);
                }
                k += 1;
            }
        },
        Option::None => {},
    }
    let non_witness_utxo: Option<Vec<TxOut>> = match &req.psbt_data.non_witness_utxo {
        Option::Some(outs) => Option::Some(clone_txouts(outs)),
        Option::None => Option::None,
    };
    let ip = InputPair {
        txid,
        vout: req.prevout.vout,
        script_sig,
        witness,
        sequence: match req.sequence {
            Option::Some(s) => s,
            Option::None => 0xffff_ffff,
        },
        witness_utxo,
        non_witness_utxo,
        redeem_script: clone_opt_bytes(&req.psbt_data.redeem_script),
        witness_script: clone_opt_bytes(&req.psbt_data.witness_script),
        final_script_sig: clone_opt_bytes(&req.psbt_data.final_script_sig),
        final_script_witness: clone_opt_vv(&req.psbt_data.final_script_witness),
        sighash_type: req.psbt_data.sighash_type,
    };
    proof {
        assert(ip.resolvable());
        match (&req.psbt_data.witness_utxo, &req.psbt_data.non_witness_utxo) {
            (Option::Some(_), _) => {},
            (Option::None, Option::Some(outs)) => {
                let v = req.prevout.vout as int;
                assert(txout_matches(ip.non_witness_utxo->Some_0@[v], outs@[v]));
                assert(ip.utxo().value_sat == outs@[v].value_sat);
                assert(ip.utxo().script_pubkey@ == outs@[v].script_pubkey@);
            },
            (Option::None, Option::None) => {
                assert(false);
            },
        }
        assert(ip.utxo().wf());
        match &req.witness {
            Option::Some(w) => {
                assert(ip.witness.deep_view() == w.deep_view());
                assert forall|j: int|
                    0 <= j < ip.witness@.len() implies (#[trigger] ip.witness@[j])@.len()
                    <= crate::psbt::MAX_SCRIPT_LEN by {
                    assert(ip.witness@[j].deep_view() =~= ip.witness@[j]@);
                    assert(w@[j].deep_view() =~= w@[j]@);
                    assert(ip.witness.deep_view()[j] == ip.witness@[j].deep_view());
                    assert(w.deep_view()[j] == w@[j].deep_view());
                }
                assert(ip.witness@.len() == w@.len());
            },
            Option::None => {
                assert(ip.witness.deep_view() =~= Seq::<Seq<u8>>::empty());
                assert(ip.witness@.len() == 0);
            },
        }
        match &req.script_sig {
            Option::Some(_) => {},
            Option::None => {
                assert(ip.script_sig@ =~= Seq::<u8>::empty());
            },
        }
        match (&req.psbt_data.non_witness_utxo, &ip.non_witness_utxo) {
            (Option::Some(outs), Option::Some(mine)) => {
                assert(forall|j: int|
                    0 <= j < mine@.len() ==> txout_matches(#[trigger] mine@[j], outs@[j]));
            },
            _ => {},
        }
        match (&req.psbt_data.redeem_script, &ip.redeem_script) {
            (Option::Some(b), Option::Some(m)) => {
                assert(m.deep_view() =~= m@);
                assert(b.deep_view() =~= b@);
                assert(m@ == b@);
            },
            _ => {},
        }
        match (&req.psbt_data.witness_script, &ip.witness_script) {
            (Option::Some(b), Option::Some(m)) => {
                assert(m.deep_view() =~= m@);
                assert(b.deep_view() =~= b@);
                assert(m@ == b@);
            },
            _ => {},
        }
        match (&req.psbt_data.final_script_sig, &ip.final_script_sig) {
            (Option::Some(b), Option::Some(m)) => {
                assert(m.deep_view() =~= m@);
                assert(b.deep_view() =~= b@);
                assert(m@ == b@);
            },
            _ => {},
        }
        match (&req.psbt_data.final_script_witness, &ip.final_script_witness) {
            (Option::Some(b), Option::Some(m)) => {
                assert(m.deep_view() == b.deep_view());
                assert forall|j: int|
                    0 <= j < m@.len() implies (#[trigger] m@[j])@.len()
                    <= crate::psbt::MAX_SCRIPT_LEN by {
                    assert(m@[j].deep_view() =~= m@[j]@);
                    assert(b@[j].deep_view() =~= b@[j]@);
                    assert(m.deep_view()[j] == m@[j].deep_view());
                    assert(b.deep_view()[j] == b@[j].deep_view());
                }
                assert(m@.len() == b@.len());
            },
            _ => {},
        }
        assert(ip.wf());
        assert(req.valid());
        assert(req.converts_to(ip));
    }
    Result::Ok(ip)
}

/// Decode a hex string into bytes, or report that it is not ASCII hex.
pub fn parse_hex_string(s: &String) -> (r: Option<Vec<u8>>)
    ensures
        match r {
            Option::Some(v) => hex_chars_bytes(s@) == Option::Some(v@),
            Option::None => hex_chars_bytes(s@) is None,
        },
{
    let st = s.as_str();
    if !st.is_ascii() {
        proof {
            assert(crate::text::ascii_rep(s@) is None);
        }
        return Option::None;
    }
    proof {
        vstd::string::is_ascii_spec_bytes(st);
    }
    let bytes = st.as_bytes();
    let mut bv: Vec<u8> = Vec::new();
    let mut i: usize = 0;
    while i < bytes.len()
        invariant
            0 <= i <= bytes@.len(),
            bv@ == bytes@.take(i as int),
        decreases bytes@.len() - i,
    {
        bv.push(bytes[i]);
        proof {
            assert(bytes@.take(i + 1) =~= bytes@.take(i as int).push(bytes@[i as int]));
        }
        i += 1;
    }
    proof {
        assert(bytes@.take(bytes@.len() as int) =~= bytes@);
        assert(crate::text::ascii_rep(s@) == Option::Some(bv@));
    }
    crate::text::hex_parse(&bv)
}

/// Copy a vector of indices.
fn clone_indices(v: &Vec<u64>) -> (r: Vec<u64>)
    ensures
        r@ == v@,
{
    let mut r: Vec<u64> = Vec::new();
    let mut i: usize = 0;
    while i < v.len()
        invariant
            0 <= i <= v@.len(),
            r@ == v@.take(i as int),
        decreases v@.len() - i,
    {
        r.push(v[i]);
        proof {
            assert(v@.take(i + 1) =~= v@.take(i as int).push(v@[i as int]));
        }
        i += 1;
    }
    proof {
        assert(v@.take(v@.len() as int) =~= v@);
    }
    r
}

/// Does this candidate look, by script class and value magnitude, like
/// one of the inputs already in the proposal?  A chain observer should
/// not be able to partition inputs by owner on these features.
pub open spec fn req_matches(req: InputPairRequest, ins: Seq<InputPair>) -> bool {
    match req.spec_utxo() {
        Option::Some((v, spk)) => exists|k: int|
            0 <= k < ins.len() && spec_script_kind(
                (#[trigger] ins[k]).utxo().script_pubkey@,
            ) == spec_script_kind(spk) && similar_value(ins[k].utxo().value_sat, v),
        Option::None => false,
    }
}

/// The index of the first candidate the privacy heuristic accepts,
/// scanning from `j`; the first candidate overall is the fallback.
pub open spec fn select_from(cands: Seq<InputPairRequest>, ins: Seq<InputPair>, j: int) -> int
    decreases cands.len() - j,
{
    if j < 0 || j >= cands.len() {
        0
    } else if req_matches(cands[j], ins) {
        j
    } else {
        select_from(cands, ins, j + 1)
    }
}

/// The candidate index the privacy-preserving selection picks.
pub open spec fn spec_selected(cands: Seq<InputPairRequest>, ins: Seq<InputPair>) -> int {
    select_from(cands, ins, 0)
}

/// The satoshi value of the selected candidate's UTXO.
pub open spec fn spec_selected_value(cands: Seq<InputPairRequest>, ins: Seq<InputPair>) -> u64 {
    match cands[spec_selected(cands, ins)].spec_utxo() {
        Option::Some((v, _)) => v,
        Option::None => 0,
    }
}

/// Does one decoded input match the heuristic against the proposal's
/// inputs?
fn ip_matches_exec(c: &InputPair, ins: &Vec<InputPair>) -> (b: bool)
    requires
        c.wf(),
        forall|k: int| 0 <= k < ins@.len() ==> (#[trigger] ins@[k]).wf(),
    ensures
        b == exists|k: int|
            0 <= k < ins@.len() && spec_script_kind(
                (#[trigger] ins@[k]).utxo().script_pubkey@,
            ) == spec_script_kind(c.utxo().script_pubkey@) && similar_value(
                ins@[k].utxo().value_sat,
                c.utxo().value_sat,
            ),
{
    let cu = match utxo_ref(c) {
        Option::Some(u) => u,
        Option::None => {
            proof {
                assert(false);
            }
            return false;
        },
    };
    let ckind = script_kind(&cu.script_pubkey);
    let mut k: usize = 0;
    while k < ins.len()
        invariant
            c.wf(),
            *cu == c.utxo(),
            ckind == spec_script_kind(c.utxo().script_pubkey@),
            forall|j: int| 0 <= j < ins@.len() ==> (#[trigger] ins@[j]).wf(),
            0 <= k <= ins@.len(),
            forall|j: int|
                0 <= j < k ==> !(spec_script_kind((#[trigger] ins@[j]).utxo().script_pubkey@)
                    == spec_script_kind(c.utxo().script_pubkey@) && similar_value(
                    ins@[j].utxo().value_sat,
                    c.utxo().value_sat,
                )),
        decreases ins@.len() - k,
    {
        let iu = match utxo_ref(&ins[k]) {
            Option::Some(u) => u,
            Option::None => {
                proof {
                    assert(false);
                }
                return false;
            },
        };
        let ikind = script_kind(&iu.script_pubkey);
        let a = iu.value_sat;
        let b = cu.value_sat;
        if ikind == ckind && a <= 2 * b && b <= 2 * a {
            return true;
        }
        k += 1;
    }
    false
}

proof fn lemma_sum_in_push(s: Seq<InputPair>, ip: InputPair)
    ensures
        sum_in(s.push(ip)) == sum_in(s) + ip.utxo().value_sat,
{
    assert(s.push(ip).drop_last() =~= s);
    assert(s.push(ip).last() == ip);
}

proof fn lemma_sum_out_nonneg(s: Seq<TxOut>)
    ensures
        sum_out(s) >= 0,
    decreases s.len(),
{
    if s.len() > 0 {
        lemma_sum_out_nonneg(s.drop_last());
    }
}

proof fn lemma_sum_out_elem(s: Seq<TxOut>, i: int)
    requires
        0 <= i < s.len(),
    ensures
        s[i].value_sat <= sum_out(s),
    decreases s.len(),
{
    if i == s.len() - 1 {
        lemma_sum_out_nonneg(s.drop_last());
    } else {
        lemma_sum_out_elem(s.drop_last(), i);
    }
}

impl InputsContributed {
    /// Everything that must hold for a contribution round to succeed:
    /// at least one candidate, every candidate decodes, and the money
    /// limit still holds after the selected value joins both sides.
    pub open spec fn contribute_ok(self, cands: Seq<InputPairRequest>) -> bool {
        &&& cands.len() >= 1
        &&& forall|j: int| 0 <= j < cands.len() ==> (#[trigger] cands[j]).valid()
        &&& sum_in(self.core.psbt.inputs@) + spec_selected_value(cands, self.core.psbt.inputs@)
            <= crate::psbt::MAX_MONEY_SAT as int
        &&& self.core.psbt.inputs@.len() + 1 <= crate::psbt::MAX_LIST_LEN
    }

    /// Run the privacy-preserving selection over the candidates, then
    /// contribute exactly one selected input and commit.
    ///
    /// Exactly one input joins the proposal however many candidates were
    /// supplied, and never one whose previous output failed to decode;
    /// its value is routed to the receiver's change output, so the fee
    /// is unchanged.
    pub fn try_contribute_inputs(self, candidates: Vec<InputPairRequest>) -> (r: Result<
        ProposalCommitted,
        Error,
    >)
        requires
            self.wf(),
        ensures
            match r {
                Result::Ok(n) => {
                    &&& self.contribute_ok(candidates@)
                    &&& n.wf()
                    &&& n.core.psbt.inputs@.len() == self.core.psbt.inputs@.len() + 1
                    &&& forall|j: int|
                        0 <= j < self.core.psbt.inputs@.len() ==> n.core.psbt.inputs@[j]
                            == self.core.psbt.inputs@[j]
                    &&& candidates@[spec_selected(candidates@, self.core.psbt.inputs@)].converts_to(
                        n.core.psbt.inputs@.last(),
                    )
                    &&& n.core.psbt.outputs@.len() == self.core.psbt.outputs@.len()
                    &&& n.core.psbt.outputs@[self.core.change_vout as int].value_sat
                        == self.core.psbt.outputs@[self.core.change_vout as int].value_sat
                        + spec_selected_value(candidates@, self.core.psbt.inputs@)
                    &&& n.core.psbt.outputs@[self.core.change_vout as int].script_pubkey
                        == self.core.psbt.outputs@[self.core.change_vout as int].script_pubkey
                    &&& forall|j: int|
                        0 <= j < self.core.psbt.outputs@.len() && j != self.core.change_vout as int
                            ==> n.core.psbt.outputs@[j] == self.core.psbt.outputs@[j]
                    &&& n.core.psbt.locktime == self.core.psbt.locktime
                    &&& n.core.psbt.version == self.core.psbt.version
                    &&& n.core.receiver_vouts@ == self.core.receiver_vouts@
                    &&& n.core.change_vout == self.core.change_vout
                    &&& n.core.substitution_disabled == self.core.substitution_disabled
                    &&& n.core.receiver_inputs@ == seq![self.core.psbt.inputs@.len() as u64]
                },
                Result::Err(e) => e == Error::InvalidInput && !self.contribute_ok(candidates@),
            },
    {
        if candidates.len() == 0 {
            return Result::Err(Error::InvalidInput);
        }
        if self.core.psbt.inputs.len() + 1 > crate::psbt::MAX_LIST_LEN {
            proof {
                assert(!self.contribute_ok(candidates@));
            }
            return Result::Err(Error::InvalidInput);
        }
        let ghost orig = candidates@;
        let mut conv: Vec<InputPair> = Vec::new();
        let mut ci: usize = 0;
        while ci < candidates.len()
            invariant
                orig == candidates@,
                0 <= ci <= candidates@.len(),
                conv@.len() == ci,
                forall|j: int|
                    0 <= j < ci ==> (#[trigger] orig[j]).valid() && orig[j].converts_to(
                        conv@[j],
                    ),
            decreases candidates@.len() - ci,
        {
            match convert_input_pair(&candidates[ci]) {
                Result::Ok(ip) => {
                    conv.push(ip);
                },
                Result::Err(_) => {
                    proof {
                        assert(!orig[ci as int].valid());
                        assert(!self.contribute_ok(candidates@));
                    }
                    return Result::Err(Error::InvalidInput);
                },
            }
            ci += 1;
        }
        proof {
            assert(conv@.len() == orig.len());
        }
        // Privacy-preserving selection: first candidate that blends in,
        // else the first candidate.
        let mut sel: usize = 0;
        let mut found: bool = false;
        let mut j: usize = 0;
        while j < conv.len() && !found
            invariant
                conv@.len() == orig.len() >= 1,
                forall|m: int|
                    0 <= m < conv@.len() ==> (#[trigger] orig[m]).valid() && orig[m].converts_to(
                        conv@[m],
                    ),
                self.wf(),
                0 <= j <= conv@.len(),
                !found ==> sel == 0 && select_from(orig, self.core.psbt.inputs@, 0) == select_from(
                    orig,
                    self.core.psbt.inputs@,
                    j as int,
                ),
                found ==> j < conv@.len() && sel == j && select_from(
                    orig,
                    self.core.psbt.inputs@,
                    0,
                ) == j as int,
                found ==> sel < conv@.len(),
            decreases conv@.len() - j + (if found { 0int } else { 1int }),
        {
            let m = ip_matches_exec(&conv[j], &self.core.psbt.inputs);
            proof {
                let req = orig[j as int];
                let c = conv@[j as int];
                match req.spec_utxo() {
                    Option::Some((v, spk)) => {
                        assert(c.utxo().value_sat == v && c.utxo().script_pubkey@ == spk);
                        assert(m == req_matches(req, self.core.psbt.inputs@));
                    },
                    Option::None => {
                        assert(false);
                    },
                }
            }
            if m {
                sel = j;
                found = true;
            } else {
                j += 1;
            }
        }
        proof {
            if !found {
                assert(select_from(orig, self.core.psbt.inputs@, conv@.len() as int) == 0);
                assert(spec_selected(orig, self.core.psbt.inputs@) == 0);
            }
            assert(sel as int == spec_selected(orig, self.core.psbt.inputs@));
        }
        let ghost conv0 = conv@;
        let ip = conv.remove(sel);
        proof {
            assert(ip == conv0[sel as int]);
        }
        let v: u64 = match utxo_ref(&ip) {
            Option::Some(u) => u.value_sat,
            Option::None => {
                proof {
                    assert(false);
                }
                0
            },
        };
        proof {
            assert(v == spec_selected_value(orig, self.core.psbt.inputs@));
        }
        let ti: u64 = match crate::psbt::sum_input_values(&self.core.psbt.inputs) {
            Option::Some(t) => t,
            Option::None => {
                proof {
                    assert(false);
                }
                0
            },
        };
        if v > crate::psbt::MAX_MONEY_SAT - ti {
            return Result::Err(Error::InvalidInput);
        }
        let mut core = self.core;
        let ghost old_core = core;
        let cv = core.change_vout as usize;
        let ghost old_outputs = core.psbt.outputs@;
        proof {
            lemma_sum_out_elem(old_outputs, cv as int);
            lemma_sum_out_nonneg(old_outputs);
        }
        let old_change = core.psbt.outputs[cv].value_sat;
        let new_len = core.psbt.inputs.len();
        core.psbt.inputs.push(ip);
        core.psbt.outputs[cv].value_sat = old_change + v;
        let mut ri: Vec<u64> = Vec::new();
        ri.push(new_len as u64);
        core.receiver_inputs = ri;
        proof {
            lemma_sum_in_push(old_core.psbt.inputs@, ip);
            lemma_sum_out_update(
                old_outputs,
                cv as int,
                core.psbt.outputs@[cv as int],
            );
            assert(core.psbt.outputs@[cv as int].script_pubkey == old_outputs[cv
                as int].script_pubkey);
            assert(core.receiver_inputs@ =~= seq![old_core.psbt.inputs@.len() as u64]);
        }
        Result::Ok(ProposalCommitted { core })
    }
}

/// Stage holding the committed joint proposal, awaiting the host
/// signer and the fee-policy check.
#[derive(Clone, Debug, PartialEq, Eq)]
pub struct ProposalCommitted {
    pub core: ProposalCore,
}

/// The fully signed, fee-checked joint transaction, ready for extraction
/// or broadcast.
#[derive(Clone, Debug, PartialEq, Eq)]
pub struct FinalizedProposal {
    pub core: ProposalCore,
}

/// Does the fee of `p` stay at or below `max_rate` satoshis per virtual
/// byte?
pub open spec fn within_max_rate(p: Psbt, max_rate: u64) -> bool {
    p.spec_fee() <= max_rate * p.spec_vsize()
}

/// Compare the fee of a well-formed proposal against an upper rate bound.
pub fn check_max_rate(p: &Psbt, max_rate: u64) -> (b: bool)
    requires
        p.wf(),
    ensures
        b == within_max_rate(*p, max_rate),
{
    let fee = p.fee();
    let vsize = p.vsize();
    proof {
        assert((max_rate as u128) * (vsize as u128) <= (0xffff_ffff_ffff_ffffu128)
            * (0xffff_ffff_ffff_ffffu128)) by (nonlinear_arith)
            requires
                max_rate as u128 <= 0xffff_ffff_ffff_ffffu128,
                vsize as u128 <= 0xffff_ffff_ffff_ffffu128,
        ;
    }
    (fee as u128) <= (max_rate as u128) * (vsize as u128)
}

/// The signed transaction the signer returns must be the committed
/// proposal with signatures filled in: the same previous outputs in the
/// same order, the same outputs, and every input finalized.
pub open spec fn signed_matches(orig: Psbt, s: Psbt) -> bool {
    &&& s.version == orig.version
    &&& s.inputs@.len() == orig.inputs@.len()
    &&& forall|i: int|
        0 <= i < orig.inputs@.len() ==> (#[trigger] s.inputs@[i]).txid@ == orig.inputs@[i].txid@
            && s.inputs@[i].vout == orig.inputs@[i].vout && s.inputs@[i].sequence
            == orig.inputs@[i].sequence && s.inputs@[i].finalized()
    &&& s.outputs@.len() == orig.outputs@.len()
    &&& forall|i: int|
        0 <= i < orig.outputs@.len() ==> txout_matches(#[trigger] s.outputs@[i], orig.outputs@[i])
    &&& s.locktime == orig.locktime
}

/// Check `signed_matches` over two well-formed models.
pub fn check_signed_matches(orig: &Psbt, s: &Psbt) -> (b: bool)
    ensures
        b == signed_matches(*orig, *s),
{
    if s.inputs.len() != orig.inputs.len() {
        return false;
    }
    if s.outputs.len() != orig.outputs.len() {
        return false;
    }
    if s.locktime != orig.locktime {
        return false;
    }
    if s.version != orig.version {
        return false;
    }
    let mut i: usize = 0;
    while i < orig.inputs.len()
        invariant
            s.inputs@.len() == orig.inputs@.len(),
            0 <= i <= orig.inputs@.len(),
            forall|j: int|
                0 <= j < i ==> (#[trigger] s.inputs@[j]).txid@ == orig.inputs@[j].txid@
                    && s.inputs@[j].vout == orig.inputs@[j].vout && s.inputs@[j].sequence
                    == orig.inputs@[j].sequence && s.inputs@[j].finalized(),
        decreases orig.inputs@.len() - i,
    {
        if !crate::text::bytes_eq(&s.inputs[i].txid, &orig.inputs[i].txid) {
            return false;
        }
        if s.inputs[i].vout != orig.inputs[i].vout {
            return false;
        }
        if s.inputs[i].sequence != orig.inputs[i].sequence {
            return false;
        }
        let fin: bool = match (&s.inputs[i].final_script_sig, &s.inputs[i].final_script_witness) {
            (Option::None, Option::None) => false,
            _ => true,
        };
        if !fin {
            return false;
        }
        i += 1;
    }
    let mut k: usize = 0;
    while k < orig.outputs.len()
        invariant
            s.outputs@.len() == orig.outputs@.len(),
            0 <= k <= orig.outputs@.len(),
            forall|j: int|
                0 <= j < k ==> txout_matches(#[trigger] s.outputs@[j], orig.outputs@[j]),
        decreases orig.outputs@.len() - k,
    {
        if s.outputs[k].value_sat != orig.outputs[k].value_sat {
            return false;
        }
        if !crate::text::bytes_eq(&s.outputs[k].script_pubkey, &orig.outputs[k].script_pubkey) {
            return false;
        }
        k += 1;
    }
    true
}

/// The rate a caller meant: an absent bound is zero.
pub open spec fn rate_of(o: Option<u64>) -> u64 {
    match o {
        Option::Some(v) => v,
        Option::None => 0,
    }
}

impl ProposalCommitted {
    pub open spec fn wf(self) -> bool {
        self.core.wf_contributed()
    }

    /// The committed proposal as a base64 BIP-174 document, for hosts
    /// whose signer reads the standard form rather than the model the
    /// signing callback receives.
    pub fn psbt_text(&self) -> (r: String)
        ensures
            r@ == crate::text::b64_of(
                crate::codec::ser_psbt174(crate::codec::abs_psbt(self.core.psbt)),
            ),
    {
        let pb = crate::codec::serialize_psbt174(&self.core.psbt);
        crate::text::b64_encode(&pb)
    }

    /// Hand the committed proposal to the host signer and validate what
    /// comes back: same transaction, every input signed, and an
    /// effective fee rate inside `[min_fee_rate, max_fee_rate]` (absent
    /// bounds are zero).  Fails without mutating the stage, so the call
    /// can be retried with different bounds.
    pub fn finalize_proposal<F: Fn(&Psbt) -> Result<Psbt, Error>>(
        &self,
        min_fee_rate: Option<u64>,
        max_fee_rate: Option<u64>,
        wallet_process_psbt: F,
    ) -> (r: Result<FinalizedProposal, Error>)
        requires
            self.wf(),
            forall|p: &Psbt| call_requires(wallet_process_psbt, (p,)),
        ensures
            match r {
                Result::Ok(fp) => {
                    &&& call_ensures(
                        wallet_process_psbt,
                        (&self.core.psbt,),
                        Result::<Psbt, Error>::Ok(fp.core.psbt),
                    )
                    &&& fp.core.psbt.wf()
                    &&& signed_matches(self.core.psbt, fp.core.psbt)
                    &&& meets_min_rate(fp.core.psbt, rate_of(min_fee_rate))
                    &&& within_max_rate(fp.core.psbt, rate_of(max_fee_rate))
                    &&& fp.core.receiver_vouts@ == self.core.receiver_vouts@
                    &&& fp.core.change_vout == self.core.change_vout
                    &&& fp.core.substitution_disabled == self.core.substitution_disabled
                    &&& fp.core.receiver_inputs@ == self.core.receiver_inputs@
                    &&& fp.wf()
                },
                Result::Err(e) => {
                    &&& (e == Error::ExternalFailure || e == Error::InvalidInput || e
                        == Error::FeePolicyViolation)
                    &&& (e == Error::ExternalFailure ==> exists|err: Error|
                        call_ensures(
                            wallet_process_psbt,
                            (&self.core.psbt,),
                            Result::<Psbt, Error>::Err(err),
                        ))
                    &&& (e == Error::InvalidInput ==> exists|s: Psbt|
                        #[trigger] call_ensures(
                            wallet_process_psbt,
                            (&self.core.psbt,),
                            Result::<Psbt, Error>::Ok(s),
                        ) && !(s.wf() && signed_matches(self.core.psbt, s)))
                    &&& (e == Error::FeePolicyViolation ==> exists|s: Psbt|
                        #[trigger] call_ensures(
                            wallet_process_psbt,
                            (&self.core.psbt,),
                            Result::<Psbt, Error>::Ok(s),
                        ) && s.wf() && signed_matches(self.core.psbt, s) && !(meets_min_rate(
                            s,
                            rate_of(min_fee_rate),
                        ) && within_max_rate(s, rate_of(max_fee_rate))))
                },
            },
    {
        let ans = wallet_process_psbt(&self.core.psbt);
        let signed: Psbt = match ans {
            Result::Ok(s) => s,
            Result::Err(e) => {
                proof {
                    assert(call_ensures(
                        wallet_process_psbt,
                        (&self.core.psbt,),
                        Result::<Psbt, Error>::Err(e),
                    ));
                }
                return Result::Err(Error::ExternalFailure);
            },
        };
        if !check_psbt(&signed) {
            return Result::Err(Error::InvalidInput);
        }
        if !check_signed_matches(&self.core.psbt, &signed) {
            return Result::Err(Error::InvalidInput);
        }
        let min = match min_fee_rate {
            Option::Some(m) => m,
            Option::None => 0,
        };
        let max = match max_fee_rate {
            Option::Some(m) => m,
            Option::None => 0,
        };
        if !check_min_rate(&signed, min) {
            return Result::Err(Error::FeePolicyViolation);
        }
        if !check_max_rate(&signed, max) {
            return Result::Err(Error::FeePolicyViolation);
        }
        Result::Ok(
            FinalizedProposal {
                core: ProposalCore {
                    psbt: signed,
                    substitution_disabled: self.core.substitution_disabled,
                    receiver_vouts: clone_indices(&self.core.receiver_vouts),
                    change_vout: self.core.change_vout,
                    receiver_inputs: clone_indices(&self.core.receiver_inputs),
                },
            },
        )
    }
}

/// One payment request's receiving side: the address, the store-and-
/// forward relay (directory), the transport's public encryption material,
/// the relay endpoint, and an optional expiry.  A sequence counter pairs
/// polls with responses; everything else is immutable.
#[derive(Debug)]
pub struct Receiver {
    pub address: String,
    pub directory: String,
    pub ohttp_keys: Vec<u8>,
    pub ohttp_relay: String,
    pub expiry_seconds: Option<u64>,
    pub request_seq: u64,
}

impl Receiver {
    pub open spec fn wf(self) -> bool {
        &&& crate::text::ascii_rep(self.address@) is Some
        &&& 1 <= self.address@.len() <= crate::psbt::MAX_SCRIPT_LEN
        &&& crate::text::ascii_rep(self.directory@) is Some
        &&& self.directory@.len() <= crate::psbt::MAX_SCRIPT_LEN
        &&& crate::text::ascii_rep(self.ohttp_relay@) is Some
        &&& self.ohttp_relay@.len() <= crate::psbt::MAX_SCRIPT_LEN
        &&& self.ohttp_keys@.len() <= crate::psbt::MAX_SCRIPT_LEN
        &&& crate::transport::spec_keys_safe(self.ohttp_keys@)
    }

    /// Create the receiving side of one payment request, validating the
    /// address, both URLs and the transport key material.
    pub fn new(
        address: String,
        directory: String,
        ohttp_keys: Vec<u8>,
        ohttp_relay: String,
        expiry_seconds: Option<u64>,
    ) -> (r: Result<Receiver, Error>)
        ensures
            match r {
                Result::Ok(rec) => {
                    &&& rec.wf()
                    &&& crate::uri::addr_script_of(address@) is Some
                    &&& crate::transport::ohttp_keys_ok(ohttp_keys@)
                    &&& rec.address@ == address@
                    &&& crate::uri::url_canon_of(directory@) == Option::Some(rec.directory@)
                    &&& crate::uri::url_canon_of(ohttp_relay@) == Option::Some(rec.ohttp_relay@)
                    &&& rec.ohttp_keys@ == ohttp_keys@
                    &&& rec.expiry_seconds == expiry_seconds
                    &&& rec.request_seq == 0
                },
                Result::Err(e) => e == Error::InvalidInput,
            },
            ({
                &&& crate::text::ascii_rep(address@) is Some
                &&& 1 <= address@.len() <= crate::psbt::MAX_SCRIPT_LEN
                &&& crate::uri::addr_script_of(address@) is Some
                &&& (match crate::uri::url_canon_of(directory@) {
                    Option::Some(d) => crate::text::ascii_rep(d) is Some && d.len()
                        <= crate::psbt::MAX_SCRIPT_LEN,
                    Option::None => false,
                })
                &&& (match crate::uri::url_canon_of(ohttp_relay@) {
                    Option::Some(rl) => crate::text::ascii_rep(rl) is Some && rl.len()
                        <= crate::psbt::MAX_SCRIPT_LEN,
                    Option::None => false,
                })
                &&& ohttp_keys@.len() <= crate::psbt::MAX_SCRIPT_LEN
                &&& crate::transport::spec_keys_safe(ohttp_keys@)
                &&& crate::transport::ohttp_keys_ok(ohttp_keys@)
            }) ==> r is Ok,
    {
        if address.as_str().is_ascii() == false {
            return Result::Err(Error::InvalidInput);
        }
        let alen = address.as_str().unicode_len();
        if alen == 0 || alen > crate::psbt::MAX_SCRIPT_LEN {
            return Result::Err(Error::InvalidInput);
        }
        if crate::uri::address_script(&address).is_none() {
            return Result::Err(Error::InvalidInput);
        }
        let directory = match crate::uri::parse_url(&directory) {
            Option::Some(u) => u,
            Option::None => {
                return Result::Err(Error::InvalidInput);
            },
        };
        if directory.as_str().is_ascii() == false || directory.as_str().unicode_len()
            > crate::psbt::MAX_SCRIPT_LEN {
            return Result::Err(Error::InvalidInput);
        }
        let ohttp_relay = match crate::uri::parse_url(&ohttp_relay) {
            Option::Some(u) => u,
            Option::None => {
                return Result::Err(Error::InvalidInput);
            },
        };
        if ohttp_relay.as_str().is_ascii() == false || ohttp_relay.as_str().unicode_len()
            > crate::psbt::MAX_SCRIPT_LEN {
            return Result::Err(Error::InvalidInput);
        }
        if ohttp_keys.len() > crate::psbt::MAX_SCRIPT_LEN {
            return Result::Err(Error::InvalidInput);
        }
        if !crate::transport::check_keys_safe(&ohttp_keys) {
            return Result::Err(Error::InvalidInput);
        }
        if !crate::transport::check_ohttp_keys(&ohttp_keys) {
            return Result::Err(Error::InvalidInput);
        }
        Result::Ok(
            Receiver { address, directory, ohttp_keys, ohttp_relay, expiry_seconds, request_seq: 0 },
        )
    }

    /// The directory location the payment line points senders at.
    pub fn pj_url(&self) -> (r: String)
        ensures
            r@ == self.directory@,
    {
        self.directory.clone()
    }

    /// The fragment that carries an expiry on the payment line, when one
    /// is set and representable: `#EX1` and the seven-character payload.
    pub open spec fn spec_exp_fragment(self) -> Seq<u8> {
        match self.expiry_seconds {
            Option::Some(e) => if e <= 0xffff_ffffu64 {
                seq![0x23u8, 0x45u8, 0x58u8, 0x31u8] + crate::uri::spec_exp_chars(e as u32)
            } else {
                Seq::empty()
            },
            Option::None => Seq::empty(),
        }
    }

    /// A payment-line builder primed with this receiver's address and
    /// directory endpoint; a configured expiry rides in the endpoint's
    /// fragment.
    pub fn pj_uri_builder(&self) -> (r: crate::uri::PayjoinUriBuilder)
        requires
            self.wf(),
        ensures
            r.address@ == self.address@,
            r.endpoint@ == crate::text::chars_of_ascii(
                crate::text::ascii_rep(self.directory@).unwrap_or(Seq::empty())
                    + self.spec_exp_fragment(),
            ),
            r.amount_sat is None,
            r.label is None,
            r.message is None,
            !r.pjos_disabled,
            r.wf(),
    {
        let mut eb = crate::uri::string_ascii_bytes(&self.directory);
        match self.expiry_seconds {
            Option::Some(e) => {
                if e <= 0xffff_ffff {
                    eb.push(0x23);
                    eb.push(0x45);
                    eb.push(0x58);
                    eb.push(0x31);
                    let payload = crate::uri::encode_exp_payload(e as u32);
                    let mut k: usize = 0;
                    let ghost base = eb@;
                    while k < payload.len()
                        invariant
                            0 <= k <= payload@.len(),
                            eb@ == base + payload@.take(k as int),
                        decreases payload@.len() - k,
                    {
                        eb.push(payload[k]);
                        proof {
                            assert(base + payload@.take(k + 1) =~= (base + payload@.take(
                                k as int,
                            )).push(payload@[k as int]));
                        }
                        k += 1;
                    }
                    proof {
                        assert(payload@.take(payload@.len() as int) =~= payload@);
                    }
                }
            },
            Option::None => {},
        }
        proof {
            crate::text::lemma_ascii_rep_low(self.directory@);
            assert(forall|k: int|
                0 <= k < self.spec_exp_fragment().len()
                    ==> #[trigger] self.spec_exp_fragment()[k] < 128) by {
                lemma_exp_fragment_ascii(*self);
            }
            assert(eb@ =~= crate::text::ascii_rep(self.directory@).unwrap_or(Seq::empty())
                + self.spec_exp_fragment());
            crate::text::lemma_chars_ascii_rep(eb@);
        }
        let endpoint = crate::text::ascii_string(&eb);
        crate::uri::PayjoinUriBuilder {
            address: self.address.clone(),
            endpoint,
            amount_sat: Option::None,
            label: Option::None,
            message: Option::None,
            pjos_disabled: false,
        }
    }

    /// Build the next encrypted poll of the directory, bumping the
    /// request counter; the paired context decrypts the answer.
    pub fn extract_request(&mut self) -> (r: Result<
        (crate::request::PayjoinRequest, crate::transport::TransportContext),
        Error,
    >)
        requires
            old(self).wf(),
        ensures
            final(self).wf(),
            final(self).address@ == old(self).address@,
            final(self).directory@ == old(self).directory@,
            final(self).ohttp_keys@ == old(self).ohttp_keys@,
            final(self).ohttp_relay@ == old(self).ohttp_relay@,
            final(self).expiry_seconds == old(self).expiry_seconds,
            final(self).request_seq as int == (if old(self).request_seq
                < 0xffff_ffff_ffff_ffffu64 {
                old(self).request_seq + 1
            } else {
                old(self).request_seq as int
            }),
            match r {
                Result::Ok((req, ctx)) => {
                    &&& req.url@ == old(self).ohttp_relay@
                    &&& !ctx.is_consumed()
                    &&& crate::transport::ohttp_keys_ok(old(self).ohttp_keys@)
                },
                Result::Err(e) => e == Error::TransportFailure,
            },
    {
        let mut payload: Vec<u8> = Vec::new();
        crate::codec::put_u64(&mut payload, self.request_seq);
        if self.request_seq < 0xffff_ffff_ffff_ffff {
            self.request_seq = self.request_seq + 1;
        }
        match crate::transport::issue_request(&self.ohttp_keys, &payload) {
            Result::Ok((enc, ctx)) => Result::Ok(
                (
                    crate::request::PayjoinRequest { url: self.ohttp_relay.clone(), body: enc },
                    ctx,
                ),
            ),
            Result::Err(e) => Result::Err(Error::TransportFailure),
        }
    }

    /// Decrypt the directory's answer with the poll's context and admit
    /// any waiting proposal into the pipeline.  An empty answer means
    /// nothing has arrived yet.  The context is consumed either way; a
    /// consumed context fails with `ProtocolViolation`.
    pub fn process_response(
        &mut self,
        response: &Vec<u8>,
        ctx: &mut crate::transport::TransportContext,
    ) -> (r: Result<Option<UnreviewedProposal>, Error>)
        requires
            old(self).wf(),
        ensures
            *final(self) == *old(self),
            final(ctx).is_consumed(),
            (r == Result::<Option<UnreviewedProposal>, Error>::Err(Error::ProtocolViolation))
                == old(ctx).is_consumed(),
            match r {
                Result::Ok(Option::Some(p)) => p.wf(),
                Result::Ok(Option::None) => true,
                Result::Err(e) => e == Error::ProtocolViolation || e == Error::TransportFailure
                    || e == Error::InvalidInput,
            },
    {
        let plain = match crate::transport::consume_response(ctx, response) {
            Result::Ok(p) => p,
            Result::Err(e) => {
                return Result::Err(e);
            },
        };
        interpret_directory_reply(&plain)
    }
}

/// Every byte of an expiry fragment is ASCII: the marker characters and
/// the bech32 data set both are.
proof fn lemma_exp_fragment_ascii(rec: Receiver)
    ensures
        forall|k: int|
            0 <= k < rec.spec_exp_fragment().len() ==> #[trigger] rec.spec_exp_fragment()[k]
                < 128,
{
    assert(forall|v: u8| #[trigger] crate::uri::b32_char(v) < 128);
    match rec.expiry_seconds {
        Option::Some(e) => {
            if e <= 0xffff_ffffu64 {
                let frag = rec.spec_exp_fragment();
                let chars = crate::uri::spec_exp_chars(e as u32);
                assert forall|k: int| 0 <= k < frag.len() implies #[trigger] frag[k] < 128 by {
                    if k >= 4 {
                        assert(frag[k] == chars[k - 4]);
                    }
                }
            }
        },
        Option::None => {},
    }
}

/// What a negotiation body denotes: the substitution flag and the
/// transaction model, with nothing trailing.
pub open spec fn spec_parse_body(s: Seq<u8>) -> Option<(bool, crate::codec::PsbtA)> {
    match crate::codec::dec_u64s(s, 0) {
        Option::Some((flag, j)) => if flag <= 1 {
            match crate::codec::dec_psbt_s(s, j) {
                Option::Some((p, e)) => if e == s.len() {
                    Option::Some((flag == 1, p))
                } else {
                    Option::None
                },
                Option::None => Option::None,
            }
        } else {
            Option::None
        },
        Option::None => Option::None,
    }
}

/// The bytes a negotiation body uses for a flag and a transaction.
pub open spec fn spec_body_bytes(disabled: bool, p: crate::codec::PsbtA) -> Seq<u8> {
    crate::codec::enc_u64(
        if disabled {
            1
        } else {
            0
        },
    ) + crate::codec::enc_psbt(p)
}

/// Serialize a negotiation body: the substitution flag, then the
/// transaction.
pub fn encode_body(disabled: bool, p: &Psbt) -> (r: Vec<u8>)
    ensures
        r@ == spec_body_bytes(disabled, crate::codec::abs_psbt(*p)),
{
    let mut out: Vec<u8> = Vec::new();
    crate::codec::put_u64(
        &mut out,
        if disabled {
            1
        } else {
            0
        },
    );
    let pb = crate::codec::encode_psbt(p);
    let mut i: usize = 0;
    let ghost base = out@;
    while i < pb.len()
        invariant
            0 <= i <= pb@.len(),
            out@ == base + pb@.take(i as int),
        decreases pb@.len() - i,
    {
        out.push(pb[i]);
        proof {
            assert(base + pb@.take(i + 1) =~= (base + pb@.take(i as int)).push(pb@[i as int]));
        }
        i += 1;
    }
    proof {
        assert(pb@.take(pb@.len() as int) =~= pb@);
    }
    out
}

/// Parse a decrypted negotiation body into the pipeline's first stage.
/// A body that does not decode fails, and so does one whose decoded
/// transaction is structurally ill-formed.
pub fn parse_proposal_body(s: &Vec<u8>) -> (r: Result<UnreviewedProposal, Error>)
    ensures
        match r {
            Result::Ok(p) => {
                &&& p.wf()
                &&& (match spec_parse_body(s@) {
                    Option::Some((disabled, pa)) => p.core.substitution_disabled == disabled
                        && crate::codec::abs_psbt(p.core.psbt) == pa,
                    Option::None => false,
                })
            },
            Result::Err(e) => e == Error::InvalidInput,
        },
        spec_parse_body(s@) is None ==> r is Err,
        (match spec_parse_body(s@) {
            Option::Some((disabled, pa)) => forall|q: Psbt|
                q.wf() && #[trigger] crate::codec::abs_psbt(q) == pa ==> r is Ok,
            Option::None => true,
        }),
{
    let (flag, j) = match crate::codec::get_u64(s, 0) {
        Option::Some(p) => p,
        Option::None => {
            return Result::Err(Error::InvalidInput);
        },
    };
    if flag > 1 {
        return Result::Err(Error::InvalidInput);
    }
    let (psbt, e) = match crate::codec::decode_psbt(s, j) {
        Option::Some(p) => p,
        Option::None => {
            return Result::Err(Error::InvalidInput);
        },
    };
    if e != s.len() {
        return Result::Err(Error::InvalidInput);
    }
    match UnreviewedProposal::new(psbt, flag == 1) {
        Result::Ok(p) => Result::Ok(p),
        Result::Err(_) => {
            proof {
                assert forall|q: Psbt|
                    q.wf() && #[trigger] crate::codec::abs_psbt(q) == crate::codec::abs_psbt(
                    psbt,
                ) implies false by {
                    crate::codec::lemma_psbt_wf_abs(q, psbt);
                }
            }
            Result::Err(Error::InvalidInput)
        },
    }
}

/// Interpret one decrypted directory reply: an empty body means nothing
/// is waiting yet; anything else must be a negotiation body carrying a
/// structurally valid proposal.
pub fn interpret_directory_reply(plain: &Vec<u8>) -> (r: Result<Option<UnreviewedProposal>, Error>)
    ensures
        match r {
            Result::Ok(Option::None) => plain@.len() == 0,
            Result::Ok(Option::Some(p)) => {
                &&& plain@.len() > 0
                &&& p.wf()
                &&& (match spec_parse_body(plain@) {
                    Option::Some((disabled, pa)) => p.core.substitution_disabled == disabled
                        && crate::codec::abs_psbt(p.core.psbt) == pa,
                    Option::None => false,
                })
            },
            Result::Err(e) => e == Error::InvalidInput && plain@.len() > 0,
        },
        plain@.len() == 0 ==> r == Result::<Option<UnreviewedProposal>, Error>::Ok(Option::None),
        plain@.len() > 0 && spec_parse_body(plain@) is None ==> r is Err,
        (match spec_parse_body(plain@) {
            Option::Some((disabled, pa)) => forall|q: Psbt|
                q.wf() && #[trigger] crate::codec::abs_psbt(q) == pa ==> r is Ok,
            Option::None => true,
        }),
{
    if plain.len() == 0 {
        return Result::Ok(Option::None);
    }
    match parse_proposal_body(plain) {
        Result::Ok(p) => Result::Ok(Option::Some(p)),
        Result::Err(e) => Result::Err(e),
    }
}

/// The chars of one previous-output reference, written `txid:vout` with
/// the txid in hex.
pub open spec fn outpoint_chars(txid: Seq<u8>, vout: int) -> Seq<char> {
    crate::text::chars_of_ascii(
        crate::text::spec_hex_bytes(txid).push(0x3au8) + crate::text::spec_dec_bytes(vout),
    )
}

impl FinalizedProposal {
    pub open spec fn wf(self) -> bool {
        self.core.wf_contributed()
    }

    /// Report whether the sender's parameters forbade output
    /// substitution.
    pub fn is_output_substitution_disabled(&self) -> (b: bool)
        ensures
            b == self.core.substitution_disabled,
    {
        self.core.substitution_disabled
    }

    /// The previous-output references the receiver's wallet should mark
    /// as in-flight, one `txid:vout` string per contributed input.
    pub fn utxos_to_be_locked(&self) -> (r: Vec<String>)
        requires
            self.wf(),
        ensures
            r@.len() == self.core.receiver_inputs@.len(),
            forall|k: int|
                0 <= k < r@.len() ==> (#[trigger] r@[k])@ == outpoint_chars(
                    self.core.psbt.inputs@[self.core.receiver_inputs@[k] as int].txid@,
                    self.core.psbt.inputs@[self.core.receiver_inputs@[k] as int].vout as int,
                ),
    {
        let mut r: Vec<String> = Vec::new();
        let mut k: usize = 0;
        while k < self.core.receiver_inputs.len()
            invariant
                self.wf(),
                0 <= k <= self.core.receiver_inputs@.len(),
                r@.len() == k,
                forall|j: int|
                    0 <= j < k ==> (#[trigger] r@[j])@ == outpoint_chars(
                        self.core.psbt.inputs@[self.core.receiver_inputs@[j] as int].txid@,
                        self.core.psbt.inputs@[self.core.receiver_inputs@[j] as int].vout as int,
                    ),
            decreases self.core.receiver_inputs@.len() - k,
        {
            let idx = self.core.receiver_inputs[k];
            proof {
                assert(self.core.receiver_inputs@[k as int] == idx);
                assert((self.core.receiver_inputs@[0] as int) < self.core.psbt.inputs@.len());
            }
            let inp = &self.core.psbt.inputs[idx as usize];
            let mut bs = crate::text::hex_bytes(&inp.txid);
            bs.push(0x3a);
            let mut dec = crate::text::dec_bytes(inp.vout as u64);
            let mut di: usize = 0;
            proof {
                crate::text::lemma_dec_bytes_ascii(inp.vout as int);
            }
            let ghost mid = bs@;
            while di < dec.len()
                invariant
                    0 <= di <= dec@.len(),
                    bs@ == mid + dec@.take(di as int),
                    forall|j: int| 0 <= j < dec@.len() ==> #[trigger] dec@[j] < 128,
                decreases dec@.len() - di,
            {
                bs.push(dec[di]);
                proof {
                    assert(mid + dec@.take(di + 1) =~= (mid + dec@.take(di as int)).push(
                        dec@[di as int],
                    ));
                }
                di += 1;
            }
            proof {
                assert(dec@.take(dec@.len() as int) =~= dec@);
                assert(bs@ =~= crate::text::spec_hex_bytes(inp.txid@).push(0x3au8)
                    + crate::text::spec_dec_bytes(inp.vout as int));
                assert(forall|j: int| 0 <= j < bs@.len() ==> #[trigger] bs@[j] < 128);
            }
            let st = crate::text::ascii_string(&bs);
            r.push(st);
            k += 1;
        }
        r
    }
}

impl FinalizedProposal {
    /// The signed document's string form: base64 of its BIP-174
    /// serialization, as wallets and other implementations read it.
    pub fn psbt(&self) -> (r: String)
        ensures
            r@ == crate::text::b64_of(
                crate::codec::ser_psbt174(crate::codec::abs_psbt(self.core.psbt)),
            ),
    {
        let pb = crate::codec::serialize_psbt174(&self.core.psbt);
        crate::text::b64_encode(&pb)
    }

    /// The transaction id in its display form: the byte-reversed
    /// double-SHA256 of the consensus serialization without witness
    /// data, in hex — the id the chain knows the transaction by.
    pub fn get_txid(&self) -> (r: String)
        ensures
            r@ == crate::text::chars_of_ascii(
                crate::text::spec_hex_bytes(
                    crate::codec::rev_bytes(
                        crate::text::sha256d_of(
                            crate::codec::ser_tx_legacy(crate::codec::abs_psbt(self.core.psbt)),
                        ),
                    ),
                ),
            ),
    {
        let tb = crate::codec::serialize_tx_legacy(&self.core.psbt);
        let digest = crate::text::sha256d(&tb);
        let rev = crate::codec::rev_bytes_exec(&digest);
        crate::text::hex_string(&rev)
    }

    /// Build the encrypted message that carries the finalized proposal
    /// back through the directory, paired with its single-use context.
    pub fn extract_v2_req(&self, receiver: &Receiver) -> (r: Result<
        (crate::request::PayjoinRequest, crate::transport::TransportContext),
        Error,
    >)
        requires
            self.wf(),
            receiver.wf(),
        ensures
            match r {
                Result::Ok((req, ctx)) => {
                    &&& req.url@ == receiver.directory@
                    &&& !ctx.is_consumed()
                    &&& crate::transport::ohttp_keys_ok(receiver.ohttp_keys@)
                },
                Result::Err(e) => e == Error::TransportFailure,
            },
    {
        let body = encode_body(self.core.substitution_disabled, &self.core.psbt);
        match crate::transport::issue_request(&receiver.ohttp_keys, &body) {
            Result::Ok((enc, ctx)) => Result::Ok(
                (
                    crate::request::PayjoinRequest { url: receiver.directory.clone(), body: enc },
                    ctx,
                ),
            ),
            Result::Err(_) => Result::Err(Error::TransportFailure),
        }
    }

    /// Decrypt the directory's acknowledgement with the message's
    /// context, consuming it; a consumed context fails with
    /// `ProtocolViolation`, and that failure is permanent.  The call may
    /// be repeated with a fresh exchange while the relay still says
    /// "not yet".
    pub fn process_res(
        &self,
        response: &Vec<u8>,
        ctx: &mut crate::transport::TransportContext,
    ) -> (r: Result<(), Error>)
        ensures
            final(ctx).is_consumed(),
            (r == Result::<(), Error>::Err(Error::ProtocolViolation)) == old(ctx).is_consumed(),
            match r {
                Result::Ok(u) => !old(ctx).is_consumed(),
                Result::Err(e) => e == Error::ProtocolViolation || e == Error::TransportFailure,
            },
    {
        match crate::transport::consume_response(ctx, response) {
            Result::Ok(_) => Result::Ok(()),
            Result::Err(e) => Result::Err(e),
        }
    }
}

} // verus!