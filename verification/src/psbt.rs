use vstd::prelude::*;

verus! {

/// Largest satoshi amount any output or total may carry (21 million BTC).
pub const MAX_MONEY_SAT: u64 = 2_100_000_000_000_000;

/// Upper bound on the number of inputs or outputs of one transaction.
pub const MAX_LIST_LEN: usize = 100_000;

/// Upper bound on the byte length of any script held by the model.
pub const MAX_SCRIPT_LEN: usize = 100_000;

/// Upper bound on the number of witness stack items of one input.
/// Consensus allows more than standardness-relaying nodes do; the bound
/// here is sized so that even non-standard script-path spends fit.
pub const MAX_WITNESS_ITEMS: usize = 1000;

/// One transaction output: an amount in integer satoshis and an opaque
/// script.  Amounts are never handled in floating point.
#[derive(Clone, Debug, PartialEq, Eq)]
pub struct TxOut {
    pub value_sat: u64,
    pub script_pubkey: Vec<u8>,
}

/// One unsigned transaction input paired with the PSBT metadata that
/// accompanies it: the UTXO it spends (witness or non-witness form),
/// optional redeem/witness scripts, and the finalized signature fields a
/// signer fills in.
#[derive(Clone, Debug, PartialEq, Eq)]
pub struct InputPair {
    /// Transaction id of the previous output, 32 bytes.
    pub txid: Vec<u8>,
    /// Index of the previous output within that transaction.
    pub vout: u32,
    pub script_sig: Vec<u8>,
    pub witness: Vec<Vec<u8>>,
    pub sequence: u32,
    /// The spent output itself, when supplied directly.
    pub witness_utxo: Option<TxOut>,
    /// The outputs of the funding transaction, when the whole transaction
    /// is supplied instead; `vout` must then index into it.
    pub non_witness_utxo: Option<Vec<TxOut>>,
    pub redeem_script: Option<Vec<u8>>,
    pub witness_script: Option<Vec<u8>>,
    pub final_script_sig: Option<Vec<u8>>,
    pub final_script_witness: Option<Vec<Vec<u8>>>,
    pub sighash_type: Option<u32>,
}

/// The in-progress joint transaction: inputs with their metadata, outputs,
/// and a locktime.  All stages of the negotiation carry snapshots of this
/// model.
#[derive(Clone, Debug, PartialEq, Eq)]
pub struct Psbt {
    pub version: u32,
    pub inputs: Vec<InputPair>,
    pub outputs: Vec<TxOut>,
    pub locktime: u32,
}

impl TxOut {
    pub open spec fn wf(self) -> bool {
        &&& self.value_sat <= MAX_MONEY_SAT
        &&& self.script_pubkey@.len() <= MAX_SCRIPT_LEN
    }
}

impl InputPair {
    /// The previous output reference decodes to a spendable UTXO the
    /// assembler recognizes.
    pub open spec fn resolvable(self) -> bool {
        match self.witness_utxo {
            Option::Some(_) => true,
            Option::None => match self.non_witness_utxo {
                Option::Some(outs) => (self.vout as int) < outs@.len(),
                Option::None => false,
            },
        }
    }

    /// The UTXO this input spends.
    pub open spec fn utxo(self) -> TxOut
        recommends
            self.resolvable(),
    {
        match self.witness_utxo {
            Option::Some(u) => u,
            Option::None => match self.non_witness_utxo {
                Option::Some(outs) => outs@[self.vout as int],
                Option::None => arbitrary(),
            },
        }
    }

    pub open spec fn wf(self) -> bool {
        &&& self.txid@.len() == 32
        &&& self.resolvable()
        &&& self.utxo().wf()
        &&& self.script_sig@.len() <= MAX_SCRIPT_LEN
        &&& self.witness@.len() <= MAX_WITNESS_ITEMS
        &&& forall|i: int|
            0 <= i < self.witness@.len() ==> (#[trigger] self.witness@[i])@.len()
                <= MAX_SCRIPT_LEN
        &&& (match self.non_witness_utxo {
            Option::Some(outs) => outs@.len() <= MAX_LIST_LEN && forall|i: int|
                0 <= i < outs@.len() ==> (#[trigger] outs@[i]).script_pubkey@.len()
                    <= MAX_SCRIPT_LEN,
            Option::None => true,
        })
        &&& (match self.redeem_script {
            Option::Some(b) => b@.len() <= MAX_SCRIPT_LEN,
            Option::None => true,
        })
        &&& (match self.witness_script {
            Option::Some(b) => b@.len() <= MAX_SCRIPT_LEN,
            Option::None => true,
        })
        &&& (match self.final_script_sig {
            Option::Some(b) => b@.len() <= MAX_SCRIPT_LEN,
            Option::None => true,
        })
        &&& (match self.final_script_witness {
            Option::Some(w) => w@.len() <= MAX_WITNESS_ITEMS && forall|i: int|
                0 <= i < w@.len() ==> (#[trigger] w@[i])@.len() <= MAX_SCRIPT_LEN,
            Option::None => true,
        })
    }

    /// An input counts as signed once a finalized signature field is
    /// present.
    pub open spec fn finalized(self) -> bool {
        self.final_script_sig is Some || self.final_script_witness is Some
    }
}

/// Total satoshi value of a sequence of outputs.
pub open spec fn sum_out(outs: Seq<TxOut>) -> int
    decreases outs.len(),
{
    if outs.len() == 0 {
        0
    } else {
        sum_out(outs.drop_last()) + outs.last().value_sat
    }
}

/// Total satoshi value spent by a sequence of inputs.
pub open spec fn sum_in(ins: Seq<InputPair>) -> int
    decreases ins.len(),
{
    if ins.len() == 0 {
        0
    } else {
        sum_in(ins.drop_last()) + ins.last().utxo().value_sat
    }
}

/// Total byte length of a witness stack.
pub open spec fn wit_total(w: Seq<Vec<u8>>) -> int
    decreases w.len(),
{
    if w.len() == 0 {
        0
    } else {
        wit_total(w.drop_last()) + w.last()@.len()
    }
}

/// The model's size measure of one input, in virtual bytes: a fixed part
/// for the outpoint, sequence and framing, plus its scripts.
pub open spec fn input_vsize(i: InputPair) -> int {
    41 + i.script_sig@.len() + wit_total(i.witness@)
}

/// Size measure of a sequence of inputs.
pub open spec fn vsize_ins(ins: Seq<InputPair>) -> int
    decreases ins.len(),
{
    if ins.len() == 0 {
        0
    } else {
        vsize_ins(ins.drop_last()) + input_vsize(ins.last())
    }
}

/// Size measure of a sequence of outputs: a fixed part per output plus its
/// script.
pub open spec fn vsize_outs(outs: Seq<TxOut>) -> int
    decreases outs.len(),
{
    if outs.len() == 0 {
        0
    } else {
        vsize_outs(outs.drop_last()) + 9 + outs.last().script_pubkey@.len()
    }
}

impl Psbt {
    pub open spec fn wf(self) -> bool {
        &&& 1 <= self.inputs@.len() <= MAX_LIST_LEN
        &&& 1 <= self.outputs@.len() <= MAX_LIST_LEN
        &&& forall|i: int| 0 <= i < self.inputs@.len() ==> (#[trigger] self.inputs@[i]).wf()
        &&& forall|i: int| 0 <= i < self.outputs@.len() ==> (#[trigger] self.outputs@[i]).wf()
        &&& sum_in(self.inputs@) <= MAX_MONEY_SAT
        &&& sum_out(self.outputs@) <= sum_in(self.inputs@)
    }

    /// The transaction fee: input total minus output total.
    pub open spec fn spec_fee(self) -> int {
        sum_in(self.inputs@) - sum_out(self.outputs@)
    }

    /// The model's size measure of the whole transaction, in virtual
    /// bytes.
    pub open spec fn spec_vsize(self) -> int {
        11 + vsize_ins(self.inputs@) + vsize_outs(self.outputs@)
    }
}

proof fn lemma_sum_out_step(outs: Seq<TxOut>, i: int)
    requires
        0 <= i < outs.len(),
    ensures
        sum_out(outs.take(i + 1)) == sum_out(outs.take(i)) + outs[i].value_sat,
{
    assert(outs.take(i + 1).drop_last() =~= outs.take(i));
    assert(outs.take(i + 1).last() == outs[i]);
}

proof fn lemma_sum_in_step(ins: Seq<InputPair>, i: int)
    requires
        0 <= i < ins.len(),
    ensures
        sum_in(ins.take(i + 1)) == sum_in(ins.take(i)) + ins[i].utxo().value_sat,
{
    assert(ins.take(i + 1).drop_last() =~= ins.take(i));
    assert(ins.take(i + 1).last() == ins[i]);
}

proof fn lemma_wit_total_step(w: Seq<Vec<u8>>, i: int)
    requires
        0 <= i < w.len(),
    ensures
        wit_total(w.take(i + 1)) == wit_total(w.take(i)) + w[i]@.len(),
{
    assert(w.take(i + 1).drop_last() =~= w.take(i));
    assert(w.take(i + 1).last() == w[i]);
}

proof fn lemma_vsize_ins_step(ins: Seq<InputPair>, i: int)
    requires
        0 <= i < ins.len(),
    ensures
        vsize_ins(ins.take(i + 1)) == vsize_ins(ins.take(i)) + input_vsize(ins[i]),
{
    assert(ins.take(i + 1).drop_last() =~= ins.take(i));
    assert(ins.take(i + 1).last() == ins[i]);
}

proof fn lemma_vsize_outs_step(outs: Seq<TxOut>, i: int)
    requires
        0 <= i < outs.len(),
    ensures
        vsize_outs(outs.take(i + 1)) == vsize_outs(outs.take(i)) + 9 + outs[
            i
        ].script_pubkey@.len(),
{
    assert(outs.take(i + 1).drop_last() =~= outs.take(i));
    assert(outs.take(i + 1).last() == outs[i]);
}

/// Check that one input is well-formed.
pub fn check_input(inp: &InputPair) -> (b: bool)
    ensures
        b == inp.wf(),
{
    if inp.txid.len() != 32 {
        return false;
    }
    let resolvable: bool = match &inp.witness_utxo {
        Option::Some(_) => true,
        Option::None => match &inp.non_witness_utxo {
            Option::Some(outs) => (inp.vout as usize) < outs.len(),
            Option::None => false,
        },
    };
    if !resolvable {
        return false;
    }
    let utxo_ok: bool = match &inp.witness_utxo {
        Option::Some(u) => u.value_sat <= MAX_MONEY_SAT && u.script_pubkey.len()
            <= MAX_SCRIPT_LEN,
        Option::None => match &inp.non_witness_utxo {
            Option::Some(outs) => {
                let u = &outs[inp.vout as usize];
                u.value_sat <= MAX_MONEY_SAT && u.script_pubkey.len() <= MAX_SCRIPT_LEN
            },
            Option::None => false,
        },
    };
    if !utxo_ok {
        return false;
    }
    if inp.script_sig.len() > MAX_SCRIPT_LEN {
        return false;
    }
    if inp.witness.len() > MAX_WITNESS_ITEMS {
        return false;
    }
    let mut i: usize = 0;
    while i < inp.witness.len()
        invariant
            0 <= i <= inp.witness@.len(),
            forall|j: int| 0 <= j < i ==> (#[trigger] inp.witness@[j])@.len() <= MAX_SCRIPT_LEN,
        decreases inp.witness@.len() - i,
    {
        if inp.witness[i].len() > MAX_SCRIPT_LEN {
            return false;
        }
        i += 1;
    }
    match &inp.non_witness_utxo {
        Option::Some(outs) => {
            if outs.len() > MAX_LIST_LEN {
                return false;
            }
            let mut k: usize = 0;
            while k < outs.len()
                invariant
                    inp.non_witness_utxo matches Option::Some(o) && o@ == outs@,
                    0 <= k <= outs@.len(),
                    forall|j: int|
                        0 <= j < k ==> (#[trigger] outs@[j]).script_pubkey@.len()
                            <= MAX_SCRIPT_LEN,
                decreases outs@.len() - k,
            {
                if outs[k].script_pubkey.len() > MAX_SCRIPT_LEN {
                    return false;
                }
                k += 1;
            }
        },
        Option::None => {},
    }
    match &inp.redeem_script {
        Option::Some(b) => {
            if b.len() > MAX_SCRIPT_LEN {
                return false;
            }
        },
        Option::None => {},
    }
    match &inp.witness_script {
        Option::Some(b) => {
            if b.len() > MAX_SCRIPT_LEN {
                return false;
            }
        },
        Option::None => {},
    }
    match &inp.final_script_sig {
        Option::Some(b) => {
            if b.len() > MAX_SCRIPT_LEN {
                return false;
            }
        },
        Option::None => {},
    }
    match &inp.final_script_witness {
        Option::Some(w) => {
            if w.len() > MAX_WITNESS_ITEMS {
                return false;
            }
            let mut k: usize = 0;
            while k < w.len()
                invariant
                    inp.final_script_witness matches Option::Some(o) && o@ == w@,
                    0 <= k <= w@.len(),
                    forall|j: int| 0 <= j < k ==> (#[trigger] w@[j])@.len() <= MAX_SCRIPT_LEN,
                decreases w@.len() - k,
            {
                if w[k].len() > MAX_SCRIPT_LEN {
                    return false;
                }
                k += 1;
            }
        },
        Option::None => {},
    }
    true
}

/// Sum the values spent by well-formed inputs, bailing out once the total
/// exceeds the money limit.
pub fn sum_input_values(ins: &Vec<InputPair>) -> (r: Option<u64>)
    requires
        forall|i: int| 0 <= i < ins@.len() ==> (#[trigger] ins@[i]).wf(),
    ensures
        match r {
            Option::Some(t) => t == sum_in(ins@) && sum_in(ins@) <= MAX_MONEY_SAT,
            Option::None => sum_in(ins@) > MAX_MONEY_SAT,
        },
{
    let mut total: u64 = 0;
    let mut i: usize = 0;
    assert(ins@.take(0) =~= Seq::<InputPair>::empty());
    while i < ins.len()
        invariant
            0 <= i <= ins@.len(),
            forall|k: int| 0 <= k < ins@.len() ==> (#[trigger] ins@[k]).wf(),
            total == sum_in(ins@.take(i as int)),
            total <= MAX_MONEY_SAT,
        decreases ins@.len() - i,
    {
        let v: u64 = match &ins[i].witness_utxo {
            Option::Some(u) => u.value_sat,
            Option::None => match &ins[i].non_witness_utxo {
                Option::Some(outs) => outs[ins[i].vout as usize].value_sat,
                Option::None => 0,
            },
        };
        assert(v == ins@[i as int].utxo().value_sat);
        proof {
            lemma_sum_in_step(ins@, i as int);
        }
        if v > MAX_MONEY_SAT - total {
            proof {
                lemma_sum_in_prefix_mono(ins@, i + 1);
            }
            return Option::None;
        }
        total += v;
        i += 1;
    }
    assert(ins@.take(ins@.len() as int) =~= ins@);
    Option::Some(total)
}

/// Sum the values of well-formed outputs, bailing out once the total
/// exceeds the money limit.
pub fn sum_output_values(outs: &Vec<TxOut>) -> (r: Option<u64>)
    requires
        forall|i: int| 0 <= i < outs@.len() ==> (#[trigger] outs@[i]).wf(),
    ensures
        match r {
            Option::Some(t) => t == sum_out(outs@) && sum_out(outs@) <= MAX_MONEY_SAT,
            Option::None => sum_out(outs@) > MAX_MONEY_SAT,
        },
{
    let mut total: u64 = 0;
    let mut i: usize = 0;
    assert(outs@.take(0) =~= Seq::<TxOut>::empty());
    while i < outs.len()
        invariant
            0 <= i <= outs@.len(),
            forall|k: int| 0 <= k < outs@.len() ==> (#[trigger] outs@[k]).wf(),
            total == sum_out(outs@.take(i as int)),
            total <= MAX_MONEY_SAT,
        decreases outs@.len() - i,
    {
        let v: u64 = outs[i].value_sat;
        proof {
            lemma_sum_out_step(outs@, i as int);
        }
        if v > MAX_MONEY_SAT - total {
            proof {
                lemma_sum_out_prefix_mono(outs@, i + 1);
            }
            return Option::None;
        }
        total += v;
        i += 1;
    }
    assert(outs@.take(outs@.len() as int) =~= outs@);
    Option::Some(total)
}

proof fn lemma_sum_in_prefix_mono(ins: Seq<InputPair>, i: int)
    requires
        0 <= i <= ins.len(),
    ensures
        sum_in(ins.take(i)) <= sum_in(ins),
    decreases ins.len() - i,
{
    if i == ins.len() {
        assert(ins.take(i) =~= ins);
    } else {
        lemma_sum_in_step(ins, i);
        lemma_sum_in_prefix_mono(ins, i + 1);
    }
}

proof fn lemma_sum_out_prefix_mono(outs: Seq<TxOut>, i: int)
    requires
        0 <= i <= outs.len(),
    ensures
        sum_out(outs.take(i)) <= sum_out(outs),
    decreases outs.len() - i,
{
    if i == outs.len() {
        assert(outs.take(i) =~= outs);
    } else {
        lemma_sum_out_step(outs, i);
        lemma_sum_out_prefix_mono(outs, i + 1);
    }
}

/// Largest size measure one well-formed input can have.
pub const INPUT_VSIZE_MAX: u64 = 100_100_041;

/// Largest size measure one well-formed output can have.
pub const OUTPUT_VSIZE_MAX: u64 = 100_009;

proof fn lemma_wit_total_bound(w: Seq<Vec<u8>>)
    requires
        forall|i: int| 0 <= i < w.len() ==> (#[trigger] w[i])@.len() <= MAX_SCRIPT_LEN,
    ensures
        0 <= wit_total(w) <= w.len() * (MAX_SCRIPT_LEN as int),
    decreases w.len(),
{
    if w.len() == 0 {
    } else {
        lemma_wit_total_bound(w.drop_last());
        assert((w.len() - 1) * (MAX_SCRIPT_LEN as int) + (MAX_SCRIPT_LEN as int) == w.len() * (
        MAX_SCRIPT_LEN as int)) by (nonlinear_arith);
    }
}

proof fn lemma_input_vsize_bound(inp: InputPair)
    requires
        inp.wf(),
    ensures
        0 <= input_vsize(inp) <= INPUT_VSIZE_MAX,
{
    lemma_wit_total_bound(inp.witness@);
    assert(inp.witness@.len() * (MAX_SCRIPT_LEN as int) <= (MAX_WITNESS_ITEMS as int) * (
    MAX_SCRIPT_LEN as int)) by (nonlinear_arith)
        requires
            0 <= inp.witness@.len() <= MAX_WITNESS_ITEMS,
    ;
}

proof fn lemma_vsize_ins_bound(ins: Seq<InputPair>)
    requires
        forall|i: int| 0 <= i < ins.len() ==> (#[trigger] ins[i]).wf(),
    ensures
        0 <= vsize_ins(ins) <= ins.len() * (INPUT_VSIZE_MAX as int),
    decreases ins.len(),
{
    if ins.len() == 0 {
    } else {
        lemma_vsize_ins_bound(ins.drop_last());
        lemma_input_vsize_bound(ins.last());
        assert((ins.len() - 1) * (INPUT_VSIZE_MAX as int) + (INPUT_VSIZE_MAX as int) == ins.len()
            * (INPUT_VSIZE_MAX as int)) by (nonlinear_arith);
    }
}

proof fn lemma_vsize_outs_bound(outs: Seq<TxOut>)
    requires
        forall|i: int| 0 <= i < outs.len() ==> (#[trigger] outs[i]).wf(),
    ensures
        0 <= vsize_outs(outs) <= outs.len() * (OUTPUT_VSIZE_MAX as int),
    decreases outs.len(),
{
    if outs.len() == 0 {
    } else {
        lemma_vsize_outs_bound(outs.drop_last());
        assert((outs.len() - 1) * (OUTPUT_VSIZE_MAX as int) + (OUTPUT_VSIZE_MAX as int)
            == outs.len() * (OUTPUT_VSIZE_MAX as int)) by (nonlinear_arith);
    }
}

/// Compute the size measure of one well-formed input.
fn input_vsize_exec(inp: &InputPair) -> (v: u64)
    requires
        inp.wf(),
    ensures
        v == input_vsize(*inp),
        v <= INPUT_VSIZE_MAX,
{
    proof {
        lemma_input_vsize_bound(*inp);
    }
    let mut wt: u64 = 0;
    let mut i: usize = 0;
    assert(inp.witness@.take(0) =~= Seq::<Vec<u8>>::empty());
    while i < inp.witness.len()
        invariant
            inp.wf(),
            0 <= i <= inp.witness@.len(),
            wt == wit_total(inp.witness@.take(i as int)),
            wt <= (i as int) * (MAX_SCRIPT_LEN as int),
        decreases inp.witness@.len() - i,
    {
        proof {
            lemma_wit_total_step(inp.witness@, i as int);
            assert((i as int) * (MAX_SCRIPT_LEN as int) + (MAX_SCRIPT_LEN as int) == (i + 1) * (
            MAX_SCRIPT_LEN as int)) by (nonlinear_arith);
            assert((i as int) * (MAX_SCRIPT_LEN as int) <= (MAX_WITNESS_ITEMS as int) * (
            MAX_SCRIPT_LEN as int)) by (nonlinear_arith)
                requires
                    0 <= i as int <= MAX_WITNESS_ITEMS,
            ;
        }
        wt = wt + inp.witness[i].len() as u64;
        i += 1;
    }
    assert(inp.witness@.take(inp.witness@.len() as int) =~= inp.witness@);
    41 + inp.script_sig.len() as u64 + wt
}

impl Psbt {
    /// Compute the transaction fee of a well-formed model.
    pub fn fee(&self) -> (f: u64)
        requires
            self.wf(),
        ensures
            f == self.spec_fee(),
            f <= MAX_MONEY_SAT,
    {
        let ti: u64 = match sum_input_values(&self.inputs) {
            Option::Some(t) => t,
            Option::None => {
                proof {
                    assert(false);
                }
                0
            },
        };
        let to: u64 = match sum_output_values(&self.outputs) {
            Option::Some(t) => t,
            Option::None => {
                proof {
                    lemma_sum_out_prefix_mono(self.outputs@, self.outputs@.len() as int);
                    assert(false);
                }
                0
            },
        };
        ti - to
    }

    /// Compute the size measure of a well-formed model.
    pub fn vsize(&self) -> (v: u64)
        requires
            self.wf(),
        ensures
            v == self.spec_vsize(),
            v >= 11,
    {
        proof {
            lemma_vsize_ins_bound(self.inputs@);
            lemma_vsize_outs_bound(self.outputs@);
            assert(self.inputs@.len() * (INPUT_VSIZE_MAX as int) <= (MAX_LIST_LEN as int) * (
            INPUT_VSIZE_MAX as int)) by (nonlinear_arith)
                requires
                    0 <= self.inputs@.len() <= MAX_LIST_LEN,
            ;
            assert(self.outputs@.len() * (OUTPUT_VSIZE_MAX as int) <= (MAX_LIST_LEN as int) * (
            OUTPUT_VSIZE_MAX as int)) by (nonlinear_arith)
                requires
                    0 <= self.outputs@.len() <= MAX_LIST_LEN,
            ;
        }
        let mut vin: u64 = 0;
        let mut i: usize = 0;
        assert(self.inputs@.take(0) =~= Seq::<InputPair>::empty());
        while i < self.inputs.len()
            invariant
                self.wf(),
                0 <= i <= self.inputs@.len(),
                vin == vsize_ins(self.inputs@.take(i as int)),
                vin <= (i as int) * (INPUT_VSIZE_MAX as int),
            decreases self.inputs@.len() - i,
        {
            proof {
                lemma_vsize_ins_step(self.inputs@, i as int);
                lemma_input_vsize_bound(self.inputs@[i as int]);
                assert((i as int) * (INPUT_VSIZE_MAX as int) + (INPUT_VSIZE_MAX as int) == (i + 1)
                    * (INPUT_VSIZE_MAX as int)) by (nonlinear_arith);
                assert((i as int) * (INPUT_VSIZE_MAX as int) <= (MAX_LIST_LEN as int) * (
                INPUT_VSIZE_MAX as int)) by (nonlinear_arith)
                    requires
                        0 <= i as int <= MAX_LIST_LEN,
                ;
            }
            let iv = input_vsize_exec(&self.inputs[i]);
            vin = vin + iv;
            i += 1;
        }
        assert(self.inputs@.take(self.inputs@.len() as int) =~= self.inputs@);
        let mut vout: u64 = 0;
        let mut k: usize = 0;
        assert(self.outputs@.take(0) =~= Seq::<TxOut>::empty());
        while k < self.outputs.len()
            invariant
                self.wf(),
                0 <= k <= self.outputs@.len(),
                vout == vsize_outs(self.outputs@.take(k as int)),
                vout <= (k as int) * (OUTPUT_VSIZE_MAX as int),
            decreases self.outputs@.len() - k,
        {
            proof {
                lemma_vsize_outs_step(self.outputs@, k as int);
                assert((k as int) * (OUTPUT_VSIZE_MAX as int) + (OUTPUT_VSIZE_MAX as int) == (k
                    + 1) * (OUTPUT_VSIZE_MAX as int)) by (nonlinear_arith);
                assert((k as int) * (OUTPUT_VSIZE_MAX as int) <= (MAX_LIST_LEN as int) * (
                OUTPUT_VSIZE_MAX as int)) by (nonlinear_arith)
                    requires
                        0 <= k as int <= MAX_LIST_LEN,
                ;
            }
            vout = vout + 9 + self.outputs[k].script_pubkey.len() as u64;
            k += 1;
        }
        assert(self.outputs@.take(self.outputs@.len() as int) =~= self.outputs@);
        proof {
            lemma_vsize_ins_bound(self.inputs@);
            lemma_vsize_outs_bound(self.outputs@);
        }
        11 + vin + vout
    }
}

/// The coarse classes of output script this model distinguishes, used by
/// the privacy-preserving input selection.
#[derive(Clone, Copy, Debug, PartialEq, Eq, Structural)]
pub enum ScriptKind {
    P2Pkh,
    P2Sh,
    P2Wpkh,
    P2Wsh,
    P2Tr,
    Other,
}

/// Classify a script by its template.
pub open spec fn spec_script_kind(s: Seq<u8>) -> ScriptKind {
    if s.len() == 25 && s[0] == 0x76u8 && s[1] == 0xa9u8 && s[2] == 0x14u8 && s[23] == 0x88u8 && s[
        24
    ] == 0xacu8 {
        ScriptKind::P2Pkh
    } else if s.len() == 23 && s[0] == 0xa9u8 && s[1] == 0x14u8 && s[22] == 0x87u8 {
        ScriptKind::P2Sh
    } else if s.len() == 22 && s[0] == 0x00u8 && s[1] == 0x14u8 {
        ScriptKind::P2Wpkh
    } else if s.len() == 34 && s[0] == 0x00u8 && s[1] == 0x20u8 {
        ScriptKind::P2Wsh
    } else if s.len() == 34 && s[0] == 0x51u8 && s[1] == 0x20u8 {
        ScriptKind::P2Tr
    } else {
        ScriptKind::Other
    }
}

/// Classify a script by its template.
pub fn script_kind(s: &Vec<u8>) -> (k: ScriptKind)
    ensures
        k == spec_script_kind(s@),
{
    if s.len() == 25 && s[0] == 0x76 && s[1] == 0xa9 && s[2] == 0x14 && s[23] == 0x88 && s[24]
        == 0xac {
        ScriptKind::P2Pkh
    } else if s.len() == 23 && s[0] == 0xa9 && s[1] == 0x14 && s[22] == 0x87 {
        ScriptKind::P2Sh
    } else if s.len() == 22 && s[0] == 0x00 && s[1] == 0x14 {
        ScriptKind::P2Wpkh
    } else if s.len() == 34 && s[0] == 0x00 && s[1] == 0x20 {
        ScriptKind::P2Wsh
    } else if s.len() == 34 && s[0] == 0x51 && s[1] == 0x20 {
        ScriptKind::P2Tr
    } else {
        ScriptKind::Other
    }
}

/// Two satoshi amounts count as similar in magnitude when each is at most
/// twice the other.
pub open spec fn similar_value(a: u64, b: u64) -> bool {
    a <= 2 * b && b <= 2 * a
}

/// Decide whether the whole transaction model is well-formed: every input
/// resolves to a recognized UTXO, every amount is a valid satoshi amount,
/// and the inputs cover the outputs.
pub fn check_psbt(p: &Psbt) -> (b: bool)
    ensures
        b == p.wf(),
{
    if p.inputs.len() < 1 || p.inputs.len() > MAX_LIST_LEN {
        return false;
    }
    if p.outputs.len() < 1 || p.outputs.len() > MAX_LIST_LEN {
        return false;
    }
    let mut i: usize = 0;
    while i < p.inputs.len()
        invariant
            0 <= i <= p.inputs@.len(),
            forall|j: int| 0 <= j < i ==> (#[trigger] p.inputs@[j]).wf(),
        decreases p.inputs@.len() - i,
    {
        if !check_input(&p.inputs[i]) {
            return false;
        }
        i += 1;
    }
    let mut k: usize = 0;
    while k < p.outputs.len()
        invariant
            0 <= k <= p.outputs@.len(),
            forall|j: int| 0 <= j < k ==> (#[trigger] p.outputs@[j]).wf(),
        decreases p.outputs@.len() - k,
    {
        if p.outputs[k].value_sat > MAX_MONEY_SAT || p.outputs[k].script_pubkey.len()
            > MAX_SCRIPT_LEN {
            return false;
        }
        k += 1;
    }
    let total_in: u64 = match sum_input_values(&p.inputs) {
        Option::Some(t) => t,
        Option::None => {
            return false;
        },
    };
    let total_out: u64 = match sum_output_values(&p.outputs) {
        Option::Some(t) => t,
        Option::None => {
            return false;
        },
    };
    total_out <= total_in
}

} // verus!
