use vstd::prelude::*;

use crate::error::Error;
use crate::psbt::{Psbt, TxOut};
use crate::psbt::{check_psbt, spec_script_kind, ScriptKind};

verus! {

/// How many outputs pay the given script.
pub open spec fn payee_count(outs: Seq<TxOut>, payee: Seq<u8>) -> int
    decreases outs.len(),
{
    if outs.len() == 0 {
        0
    } else {
        payee_count(outs.drop_last(), payee) + (if outs.last().script_pubkey@ == payee {
            1int
        } else {
            0int
        })
    }
}

/// Index of the first output paying the given script, scanning from `j`,
/// or the length.
pub open spec fn first_payee_idx(outs: Seq<TxOut>, payee: Seq<u8>, j: int) -> int
    decreases outs.len() - j,
{
    if j < 0 || j >= outs.len() {
        outs.len() as int
    } else if outs[j].script_pubkey@ == payee {
        j
    } else {
        first_payee_idx(outs, payee, j + 1)
    }
}

/// Index of the first output NOT paying the given script, or the length.
pub open spec fn first_non_payee_idx(outs: Seq<TxOut>, payee: Seq<u8>, j: int) -> int
    decreases outs.len() - j,
{
    if j < 0 || j >= outs.len() {
        outs.len() as int
    } else if outs[j].script_pubkey@ != payee {
        j
    } else {
        first_non_payee_idx(outs, payee, j + 1)
    }
}

/// The original transaction pays the payee exactly once, with the
/// requested amount when one was requested.
pub open spec fn single_payee_ok(p: Psbt, payee: Seq<u8>, amount: Option<u64>) -> bool {
    &&& payee_count(p.outputs@, payee) == 1
    &&& (match amount {
        Option::Some(v) => p.outputs@[first_payee_idx(p.outputs@, payee, 0)].value_sat == v,
        Option::None => true,
    })
}

proof fn lemma_payee_count_step(outs: Seq<TxOut>, payee: Seq<u8>, i: int)
    requires
        0 <= i < outs.len(),
    ensures
        payee_count(outs.take(i + 1), payee) == payee_count(outs.take(i), payee) + (if outs[
            i
        ].script_pubkey@ == payee {
            1int
        } else {
            0int
        }),
{
    assert(outs.take(i + 1).drop_last() =~= outs.take(i));
    assert(outs.take(i + 1).last() == outs[i]);
}

/// Count payee outputs and find the first, in one pass.
fn scan_payee(outs: &Vec<TxOut>, payee: &Vec<u8>) -> (r: (u64, usize))
    requires
        outs@.len() <= crate::psbt::MAX_LIST_LEN,
    ensures
        r.0 as int == payee_count(outs@, payee@),
        r.1 as int == first_payee_idx(outs@, payee@, 0),
        (r.0 > 0) == ((r.1 as int) < outs@.len()),
{
    let mut count: u64 = 0;
    let mut first: usize = outs.len();
    let mut i: usize = 0;
    assert(outs@.take(0) =~= Seq::<TxOut>::empty());
    while i < outs.len()
        invariant
            outs@.len() <= crate::psbt::MAX_LIST_LEN,
            0 <= i <= outs@.len(),
            count as int == payee_count(outs@.take(i as int), payee@),
            count <= i as u64,
            (count > 0) == ((first as int) < i as int),
            first_payee_idx(outs@, payee@, 0) == (if (first as int) < i as int {
                first as int
            } else {
                first_payee_idx(outs@, payee@, i as int)
            }),
            (first as int) < i as int ==> outs@[first as int].script_pubkey@ == payee@,
            (first as int) >= i as int ==> first as int == outs@.len(),
        decreases outs@.len() - i,
    {
        proof {
            lemma_payee_count_step(outs@, payee@, i as int);
        }
        if crate::text::bytes_eq(&outs[i].script_pubkey, payee) {
            count = count + 1;
            if first == outs.len() {
                first = i;
            }
        }
        i += 1;
    }
    proof {
        assert(outs@.take(outs@.len() as int) =~= outs@);
    }
    (count, first)
}

/// Find the first non-payee output.
fn scan_non_payee(outs: &Vec<TxOut>, payee: &Vec<u8>) -> (r: usize)
    ensures
        r as int == first_non_payee_idx(outs@, payee@, 0),
        r <= outs@.len(),
        (r as int) < outs@.len() ==> outs@[r as int].script_pubkey@ != payee@,
{
    let mut i: usize = 0;
    while i < outs.len()
        invariant
            0 <= i <= outs@.len(),
            first_non_payee_idx(outs@, payee@, 0) == first_non_payee_idx(
                outs@,
                payee@,
                i as int,
            ),
            forall|j: int| 0 <= j < i ==> (#[trigger] outs@[j]).script_pubkey@ == payee@,
        decreases outs@.len() - i,
    {
        if !crate::text::bytes_eq(&outs[i].script_pubkey, payee) {
            return i;
        }
        i += 1;
    }
    outs.len()
}

/// Builds the sender's side of a negotiation from an existing original
/// transaction and a Payjoin-capable payment line.
#[derive(Debug)]
pub struct SenderBuilder {
    pub psbt: Psbt,
    pub payee_script: Vec<u8>,
    pub endpoint: String,
    pub amount_sat: Option<u64>,
    pub output_substitution_disabled: bool,
}

impl SenderBuilder {
    pub open spec fn wf(self) -> bool {
        &&& self.psbt.wf()
        &&& single_payee_ok(self.psbt, self.payee_script@, self.amount_sat)
        &&& crate::text::ascii_rep(self.endpoint@) is Some
        &&& self.endpoint@.len() <= crate::psbt::MAX_SCRIPT_LEN
        &&& self.payee_script@.len() <= crate::psbt::MAX_SCRIPT_LEN
    }

    /// Start a negotiation from an original transaction and a payment
    /// line.  The line must parse, must declare Payjoin support, its
    /// address must decode, and the transaction must pay it exactly
    /// once, with the requested amount if one was requested.  The
    /// single-payee and amount checks run here, at construction, by
    /// design: every later stage can then assume a well-formed pairing,
    /// and a mismatch is reported before any request is built.
    pub fn from_psbt_and_uri(psbt: Psbt, uri: String) -> (r: Result<SenderBuilder, Error>)
        ensures
            match r {
                Result::Ok(b) => {
                    &&& b.wf()
                    &&& b.psbt == psbt
                    &&& (match crate::text::ascii_rep(uri@) {
                        Option::Some(bs) => match crate::uri::spec_parse_uri(bs) {
                            Option::Some((addr, f)) => {
                                &&& f.pj is Some
                                &&& b.amount_sat == f.amount
                                &&& b.output_substitution_disabled == f.pjos_disabled
                            },
                            Option::None => false,
                        },
                        Option::None => false,
                    })
                },
                Result::Err(e) => e == Error::InvalidInput,
            },
            (match crate::text::ascii_rep(uri@) {
                Option::Some(bs) => match crate::uri::spec_parse_uri(bs) {
                    Option::Some((addr, f)) => f.pj is None ==> r == Result::<
                        SenderBuilder,
                        Error,
                    >::Err(Error::InvalidInput),
                    Option::None => r is Err,
                },
                Option::None => r is Err,
            }),
            (match crate::text::ascii_rep(uri@) {
                Option::Some(bs) => match crate::uri::spec_parse_uri(bs) {
                    Option::Some((addr, f)) => ({
                        &&& (match f.pj {
                            Option::Some(pjb) => pjb.len() <= crate::psbt::MAX_SCRIPT_LEN,
                            Option::None => false,
                        })
                        &&& (match crate::uri::addr_script_of(
                            crate::text::chars_of_ascii(addr),
                        ) {
                            Option::Some(spk) => spk.len() <= crate::psbt::MAX_SCRIPT_LEN
                                && psbt.wf() && single_payee_ok(psbt, spk, f.amount),
                            Option::None => false,
                        })
                    }) ==> r is Ok,
                    Option::None => true,
                },
                Option::None => true,
            }),
    {
        let parsed = match crate::uri::BtcUri::try_from(uri) {
            Result::Ok(u) => u,
            Result::Err(_) => {
                return Result::Err(Error::InvalidInput);
            },
        };
        let checked = parsed.assume_checked();
        let pj_uri = match checked.check_pj_supported() {
            Result::Ok(u) => u,
            Result::Err(_) => {
                return Result::Err(Error::InvalidInput);
            },
        };
        proof {
            crate::text::lemma_ascii_rep_chars(pj_uri.address@);
            crate::text::lemma_ascii_rep_chars(pj_uri.endpoint@);
        }
        let payee_script = match crate::uri::address_script(&pj_uri.address) {
            Option::Some(s) => s,
            Option::None => {
                return Result::Err(Error::InvalidInput);
            },
        };
        if payee_script.len() > crate::psbt::MAX_SCRIPT_LEN {
            return Result::Err(Error::InvalidInput);
        }
        if pj_uri.endpoint.as_str().is_ascii() == false || pj_uri.endpoint.as_str().unicode_len()
            > crate::psbt::MAX_SCRIPT_LEN {
            return Result::Err(Error::InvalidInput);
        }
        if !check_psbt(&psbt) {
            return Result::Err(Error::InvalidInput);
        }
        let (count, first) = scan_payee(&psbt.outputs, &payee_script);
        if count != 1 {
            return Result::Err(Error::InvalidInput);
        }
        match pj_uri.amount_sat {
            Option::Some(v) => {
                if psbt.outputs[first].value_sat != v {
                    return Result::Err(Error::InvalidInput);
                }
            },
            Option::None => {},
        }
        Result::Ok(
            SenderBuilder {
                psbt,
                payee_script,
                endpoint: pj_uri.endpoint,
                amount_sat: pj_uri.amount_sat,
                output_substitution_disabled: pj_uri.pjos_disabled,
            },
        )
    }

    /// Forbid the receiver from substituting its output, regardless of
    /// what the payment line allowed.  The flag is sticky on purpose —
    /// this mirrors the sender builder of the payjoin crate, whose
    /// disable method also only ever ors the flag in — so a
    /// prohibition, once set here or by the line's own parameter, is
    /// never lifted, and passing `false` leaves an earlier prohibition
    /// in force.
    pub fn always_disable_output_substitution(self, disable: bool) -> (b: Self)
        requires
            self.wf(),
        ensures
            b == (SenderBuilder {
                output_substitution_disabled: self.output_substitution_disabled || disable,
                ..self
            }),
            b.wf(),
    {
        let d = self.output_substitution_disabled || disable;
        SenderBuilder { output_substitution_disabled: d, ..self }
    }
}

/// The model's weight, in virtual bytes, of one additional input of the
/// given script class; the fallback serves mixed or unknown classes.
pub open spec fn kind_weight(k: ScriptKind) -> u64 {
    match k {
        ScriptKind::P2Pkh => 148,
        ScriptKind::P2Sh => 91,
        ScriptKind::P2Wpkh => 68,
        ScriptKind::P2Wsh => 105,
        ScriptKind::P2Tr => 58,
        ScriptKind::Other => 110,
    }
}

/// Do all inputs spend the same script class?
pub open spec fn inputs_uniform(p: Psbt) -> bool {
    forall|i: int|
        0 <= i < p.inputs@.len() ==> spec_script_kind(
            (#[trigger] p.inputs@[i]).utxo().script_pubkey@,
        ) == spec_script_kind(p.inputs@[0].utxo().script_pubkey@)
}

/// The weight one contributed input is budgeted at: the common class's
/// weight, or the fallback when classes are mixed.
pub open spec fn contribution_weight(p: Psbt) -> u64 {
    if inputs_uniform(p) {
        kind_weight(spec_script_kind(p.inputs@[0].utxo().script_pubkey@))
    } else {
        110
    }
}

/// The fee amount a change output can cover: the requested fee, the
/// whole output when clamping, or nothing.
pub open spec fn spec_fee_from_output(value: u64, fee: u64, clamp: bool) -> Option<u64> {
    if fee <= value {
        Option::Some(fee)
    } else if clamp {
        Option::Some(value)
    } else {
        Option::None
    }
}

/// Where the additional fee may come from when no change index is
/// given: mirrors the strict two-output rule.  `None` is failure;
/// `Some(None)` is "no contribution".
pub open spec fn spec_find_change(p: Psbt, payee: Seq<u8>, fee: u64, clamp: bool) -> Option<
    Option<(u64, u64)>,
> {
    let n = p.outputs@.len();
    if n == 0 {
        Option::None
    } else if n == 1 && p.outputs@[0].script_pubkey@ == payee {
        if clamp {
            Option::Some(Option::None)
        } else {
            Option::None
        }
    } else if n == 1 {
        Option::None
    } else if n == 2 {
        let idx = first_non_payee_idx(p.outputs@, payee, 0);
        if idx == n {
            Option::None
        } else {
            match spec_fee_from_output(p.outputs@[idx].value_sat, fee, clamp) {
                Option::Some(a) => Option::Some(Option::Some((a, idx as u64))),
                Option::None => Option::None,
            }
        }
    } else {
        Option::None
    }
}

/// The contribution a given change index yields.
pub open spec fn spec_check_change(p: Psbt, payee: Seq<u8>, fee: u64, index: u64, clamp: bool)
    -> Option<(u64, u64)> {
    if (index as int) < p.outputs@.len() && p.outputs@[index as int].script_pubkey@ != payee {
        match spec_fee_from_output(p.outputs@[index as int].value_sat, fee, clamp) {
            Option::Some(a) => Option::Some((a, index)),
            Option::None => Option::None,
        }
    } else {
        Option::None
    }
}

/// A clamped zero contribution offers the receiver nothing; drop it.
pub open spec fn filter_positive(o: Option<(u64, u64)>) -> Option<(u64, u64)> {
    match o {
        Option::Some((a, v)) => if a > 0 {
            Option::Some((a, v))
        } else {
            Option::None
        },
        Option::None => Option::None,
    }
}

/// The contribution `build_recommended` settles on.
pub open spec fn spec_recommended(p: Psbt, payee: Seq<u8>, min_fee_rate: u64) -> Option<
    (u64, u64),
> {
    if p.outputs@.len() == 1 && p.outputs@[0].script_pubkey@ == payee {
        Option::None
    } else {
        let idx = first_non_payee_idx(p.outputs@, payee, 0);
        if idx == p.outputs@.len() {
            Option::None
        } else {
            let available = p.outputs@[idx].value_sat;
            let recommended = min_fee_rate * contribution_weight(p);
            filter_positive(
                Option::Some(
                    (
                        if recommended <= available {
                            recommended as u64
                        } else {
                            available
                        },
                        idx as u64,
                    ),
                ),
            )
        }
    }
}

/// A sender-side negotiation context: the original transaction, the
/// payee's script, the negotiation endpoint, the substitution flag and
/// the additional-fee offer.
#[derive(Debug)]
pub struct Sender {
    pub psbt: Psbt,
    pub payee_script: Vec<u8>,
    pub endpoint: String,
    pub output_substitution_disabled: bool,
    pub fee_contribution: Option<(u64, u64)>,
    pub min_fee_rate: u64,
}

impl Sender {
    pub open spec fn wf(self) -> bool {
        &&& self.psbt.wf()
        &&& crate::text::ascii_rep(self.endpoint@) is Some
        &&& self.endpoint@.len() <= crate::psbt::MAX_SCRIPT_LEN
        &&& self.payee_script@.len() <= crate::psbt::MAX_SCRIPT_LEN
        &&& (match self.fee_contribution {
            Option::Some((a, v)) => (v as int) < self.psbt.outputs@.len(),
            Option::None => true,
        })
    }
}

impl SenderBuilder {
    /// Offer an additional fee computed from the transaction's own
    /// change output: the cost of one more input at `min_fee_rate`,
    /// clamped to what the change can cover.
    pub fn build_recommended(self, min_fee_rate: u64) -> (r: Result<Sender, Error>)
        requires
            self.wf(),
        ensures
            match r {
                Result::Ok(s) => {
                    &&& s.wf()
                    &&& s.psbt == self.psbt
                    &&& s.payee_script@ == self.payee_script@
                    &&& s.endpoint@ == self.endpoint@
                    &&& s.output_substitution_disabled == self.output_substitution_disabled
                    &&& s.min_fee_rate == min_fee_rate
                    &&& s.fee_contribution == spec_recommended(
                        self.psbt,
                        self.payee_script@,
                        min_fee_rate,
                    )
                },
                Result::Err(e) => e == Error::InvalidInput && min_fee_rate
                    * contribution_weight(self.psbt) > u64::MAX,
            },
    {
        let n = self.psbt.outputs.len();
        if n == 1 && crate::text::bytes_eq(&self.psbt.outputs[0].script_pubkey, &self.payee_script) {
            return Result::Ok(
                Sender {
                    psbt: self.psbt,
                    payee_script: self.payee_script,
                    endpoint: self.endpoint,
                    output_substitution_disabled: self.output_substitution_disabled,
                    fee_contribution: Option::None,
                    min_fee_rate,
                },
            );
        }
        let idx = scan_non_payee(&self.psbt.outputs, &self.payee_script);
        if idx == n {
            return Result::Ok(
                Sender {
                    psbt: self.psbt,
                    payee_script: self.payee_script,
                    endpoint: self.endpoint,
                    output_substitution_disabled: self.output_substitution_disabled,
                    fee_contribution: Option::None,
                    min_fee_rate,
                },
            );
        }
        let available = self.psbt.outputs[idx].value_sat;
        let weight = contribution_weight_exec(&self.psbt);
        if min_fee_rate > 0 && weight > u64::MAX / min_fee_rate {
            proof {
                assert(min_fee_rate * contribution_weight(self.psbt) > u64::MAX)
                    by (nonlinear_arith)
                    requires
                        min_fee_rate > 0,
                        weight == contribution_weight(self.psbt),
                        weight > u64::MAX / min_fee_rate,
                        u64::MAX / min_fee_rate == ((u64::MAX as int) / (min_fee_rate as int)),
                ;
            }
            return Result::Err(Error::InvalidInput);
        }
        proof {
            if min_fee_rate > 0 {
                assert(min_fee_rate * weight <= u64::MAX) by (nonlinear_arith)
                    requires
                        min_fee_rate > 0,
                        weight <= u64::MAX / min_fee_rate,
                        u64::MAX / min_fee_rate == ((u64::MAX as int) / (min_fee_rate as int)),
                ;
            }
        }
        let recommended = min_fee_rate * weight;
        let amount = if recommended <= available {
            recommended
        } else {
            available
        };
        let contribution = if amount > 0 {
            Option::Some((amount, idx as u64))
        } else {
            Option::None
        };
        Result::Ok(
            Sender {
                psbt: self.psbt,
                payee_script: self.payee_script,
                endpoint: self.endpoint,
                output_substitution_disabled: self.output_substitution_disabled,
                fee_contribution: contribution,
                min_fee_rate,
            },
        )
    }

    /// Offer a caller-chosen additional fee.  When `clamp` is false and
    /// the chosen output cannot cover the contribution, the build fails
    /// rather than silently reducing it.
    pub fn build_with_additional_fee(
        self,
        max_fee_contribution: u64,
        change_index: Option<u64>,
        min_fee_rate: u64,
        clamp_fee_contribution: bool,
    ) -> (r: Result<Sender, Error>)
        requires
            self.wf(),
        ensures
            match r {
                Result::Ok(s) => {
                    &&& s.wf()
                    &&& s.psbt == self.psbt
                    &&& s.payee_script@ == self.payee_script@
                    &&& s.endpoint@ == self.endpoint@
                    &&& s.output_substitution_disabled == self.output_substitution_disabled
                    &&& s.min_fee_rate == min_fee_rate
                    &&& (match change_index {
                        Option::Some(i) => {
                            &&& spec_check_change(
                                self.psbt,
                                self.payee_script@,
                                max_fee_contribution,
                                i,
                                clamp_fee_contribution,
                            ) is Some
                            &&& s.fee_contribution == filter_positive(
                                spec_check_change(
                                    self.psbt,
                                    self.payee_script@,
                                    max_fee_contribution,
                                    i,
                                    clamp_fee_contribution,
                                ),
                            )
                        },
                        Option::None => {
                            &&& spec_find_change(
                                self.psbt,
                                self.payee_script@,
                                max_fee_contribution,
                                clamp_fee_contribution,
                            ) matches Option::Some(c)
                            &&& s.fee_contribution == filter_positive(
                                spec_find_change(
                                    self.psbt,
                                    self.payee_script@,
                                    max_fee_contribution,
                                    clamp_fee_contribution,
                                )->Some_0,
                            )
                        },
                    })
                },
                Result::Err(e) => {
                    &&& e == Error::InvalidInput
                    &&& (match change_index {
                        Option::Some(i) => spec_check_change(
                            self.psbt,
                            self.payee_script@,
                            max_fee_contribution,
                            i,
                            clamp_fee_contribution,
                        ) is None,
                        Option::None => spec_find_change(
                            self.psbt,
                            self.payee_script@,
                            max_fee_contribution,
                            clamp_fee_contribution,
                        ) is None,
                    })
                },
            },
    {
        let contribution: Option<(u64, u64)> = match change_index {
            Option::Some(i) => {
                if i >= self.psbt.outputs.len() as u64 {
                    return Result::Err(Error::InvalidInput);
                }
                let iu = i as usize;
                proof {
                    assert(iu as int == i as int);
                }
                if crate::text::bytes_eq(
                    &self.psbt.outputs[iu].script_pubkey,
                    &self.payee_script,
                ) {
                    return Result::Err(Error::InvalidInput);
                }
                let value = self.psbt.outputs[iu].value_sat;
                if max_fee_contribution <= value {
                    Option::Some((max_fee_contribution, i))
                } else if clamp_fee_contribution {
                    Option::Some((value, i))
                } else {
                    return Result::Err(Error::InvalidInput);
                }
            },
            Option::None => {
                let n = self.psbt.outputs.len();
                if n == 0 {
                    proof {
                        assert(false);
                    }
                    return Result::Err(Error::InvalidInput);
                }
                if n == 1 {
                    if crate::text::bytes_eq(
                        &self.psbt.outputs[0].script_pubkey,
                        &self.payee_script,
                    ) {
                        if clamp_fee_contribution {
                            Option::None
                        } else {
                            return Result::Err(Error::InvalidInput);
                        }
                    } else {
                        return Result::Err(Error::InvalidInput);
                    }
                } else if n == 2 {
                    let idx = scan_non_payee(&self.psbt.outputs, &self.payee_script);
                    if idx == n {
                        return Result::Err(Error::InvalidInput);
                    }
                    let value = self.psbt.outputs[idx].value_sat;
                    if max_fee_contribution <= value {
                        Option::Some((max_fee_contribution, idx as u64))
                    } else if clamp_fee_contribution {
                        Option::Some((value, idx as u64))
                    } else {
                        return Result::Err(Error::InvalidInput);
                    }
                } else {
                    return Result::Err(Error::InvalidInput);
                }
            },
        };
        proof {
            match contribution {
                Option::Some((a, v)) => {
                    assert((v as int) < self.psbt.outputs@.len());
                },
                Option::None => {},
            }
            match change_index {
                Option::Some(i) => {
                    assert(spec_check_change(
                        self.psbt,
                        self.payee_script@,
                        max_fee_contribution,
                        i,
                        clamp_fee_contribution,
                    ) == contribution);
                },
                Option::None => {
                    assert(spec_find_change(
                        self.psbt,
                        self.payee_script@,
                        max_fee_contribution,
                        clamp_fee_contribution,
                    ) == Option::Some(contribution));
                },
            }
        }
        let contribution = match contribution {
            Option::Some((a, v)) => {
                if a > 0 {
                    Option::Some((a, v))
                } else {
                    Option::None
                }
            },
            Option::None => Option::None,
        };
        Result::Ok(
            Sender {
                psbt: self.psbt,
                payee_script: self.payee_script,
                endpoint: self.endpoint,
                output_substitution_disabled: self.output_substitution_disabled,
                fee_contribution: contribution,
                min_fee_rate,
            },
        )
    }
}

/// Compute the model's weight for one contributed input.
fn contribution_weight_exec(p: &Psbt) -> (w: u64)
    requires
        p.wf(),
    ensures
        w == contribution_weight(*p),
{
    let first = match crate::receive::utxo_ref(&p.inputs[0]) {
        Option::Some(u) => u,
        Option::None => {
            proof {
                assert(false);
            }
            return 110;
        },
    };
    let k0 = crate::psbt::script_kind(&first.script_pubkey);
    let mut uniform = true;
    let mut i: usize = 1;
    while i < p.inputs.len() && uniform
        invariant
            p.wf(),
            k0 == spec_script_kind(p.inputs@[0].utxo().script_pubkey@),
            1 <= i <= p.inputs@.len(),
            uniform ==> forall|j: int|
                0 <= j < i ==> spec_script_kind(
                    (#[trigger] p.inputs@[j]).utxo().script_pubkey@,
                ) == k0,
            !uniform ==> !inputs_uniform(*p),
        decreases p.inputs@.len() - i + (if uniform { 1int } else { 0int }),
    {
        let u = match crate::receive::utxo_ref(&p.inputs[i]) {
            Option::Some(u) => u,
            Option::None => {
                proof {
                    assert(false);
                }
                return 110;
            },
        };
        let k = crate::psbt::script_kind(&u.script_pubkey);
        if !(k == k0) {
            uniform = false;
        } else {
            i += 1;
        }
    }
    if uniform {
        proof {
            assert(inputs_uniform(*p));
        }
        match k0 {
            ScriptKind::P2Pkh => 148,
            ScriptKind::P2Sh => 91,
            ScriptKind::P2Wpkh => 68,
            ScriptKind::P2Wsh => 105,
            ScriptKind::P2Tr => 58,
            ScriptKind::Other => 110,
        }
    } else {
        110
    }
}

impl Sender {
    /// Build the first encrypted negotiation message for the relay,
    /// paired with its single-use context.  The peer's transport keys
    /// are supplied by the caller, who fetched them out of band.
    pub fn extract_v2(&self, ohttp_relay: String, ohttp_keys: &Vec<u8>) -> (r: Result<
        (crate::request::PayjoinRequest, crate::transport::TransportContext),
        Error,
    >)
        requires
            self.wf(),
        ensures
            match r {
                Result::Ok((req, ctx)) => {
                    &&& crate::uri::url_canon_of(ohttp_relay@) == Option::Some(req.url@)
                    &&& !ctx.is_consumed()
                    &&& crate::transport::ohttp_keys_ok(ohttp_keys@)
                },
                Result::Err(e) => e == Error::InvalidInput || e == Error::TransportFailure,
            },
            (r == Result::<
                (crate::request::PayjoinRequest, crate::transport::TransportContext),
                Error,
            >::Err(Error::InvalidInput)) == (crate::uri::url_canon_of(ohttp_relay@) is None),
    {
        let relay = match crate::uri::parse_url(&ohttp_relay) {
            Option::Some(u) => u,
            Option::None => {
                return Result::Err(Error::InvalidInput);
            },
        };
        if !crate::transport::check_keys_safe(ohttp_keys) {
            return Result::Err(Error::TransportFailure);
        }
        let body = crate::receive::encode_body(self.output_substitution_disabled, &self.psbt);
        match crate::transport::issue_request(ohttp_keys, &body) {
            Result::Ok((enc, ctx)) => Result::Ok(
                (crate::request::PayjoinRequest { url: relay, body: enc }, ctx),
            ),
            Result::Err(_) => Result::Err(Error::TransportFailure),
        }
    }

    /// Decrypt the relay's answer with the message's context.  An empty
    /// answer means the receiver has not replied yet; otherwise the body
    /// must carry a structurally valid counter-proposal.  The context is
    /// consumed either way, and a consumed context fails with
    /// `ProtocolViolation`.
    pub fn process_response(
        &self,
        response: &Vec<u8>,
        ctx: &mut crate::transport::TransportContext,
    ) -> (r: Result<Option<Psbt>, Error>)
        ensures
            final(ctx).is_consumed(),
            (r == Result::<Option<Psbt>, Error>::Err(Error::ProtocolViolation)) == old(
                ctx,
            ).is_consumed(),
            match r {
                Result::Ok(Option::Some(p)) => p.wf(),
                Result::Ok(Option::None) => true,
                Result::Err(e) => e == Error::ProtocolViolation || e == Error::TransportFailure
                    || e == Error::InvalidInput,
            },
    {
        let plain = match crate::transport::consume_response(ctx, response) {
            Result::Ok(p) => p,
            Result::Err(e) => {
                return Result::Err(e);
            },
        };
        interpret_relay_reply(&plain)
    }
}

/// Interpret one decrypted relay reply for the sender: an empty body
/// means the receiver has not answered yet; anything else must be a
/// negotiation body carrying a structurally valid counter-proposal.
pub fn interpret_relay_reply(plain: &Vec<u8>) -> (r: Result<Option<Psbt>, Error>)
    ensures
        match r {
            Result::Ok(Option::None) => plain@.len() == 0,
            Result::Ok(Option::Some(q)) => {
                &&& plain@.len() > 0
                &&& q.wf()
                &&& (match crate::receive::spec_parse_body(plain@) {
                    Option::Some((disabled, pa)) => crate::codec::abs_psbt(q) == pa,
                    Option::None => false,
                })
            },
            Result::Err(e) => e == Error::InvalidInput && plain@.len() > 0,
        },
        plain@.len() == 0 ==> r == Result::<Option<Psbt>, Error>::Ok(Option::None),
        plain@.len() > 0 && crate::receive::spec_parse_body(plain@) is None ==> r is Err,
        (match crate::receive::spec_parse_body(plain@) {
            Option::Some((disabled, pa)) => forall|q: Psbt|
                q.wf() && #[trigger] crate::codec::abs_psbt(q) == pa ==> r is Ok,
            Option::None => true,
        }),
{
    if plain.len() == 0 {
        return Result::Ok(Option::None);
    }
    match crate::receive::parse_proposal_body(plain) {
        Result::Ok(p) => Result::Ok(Option::Some(p.core.psbt)),
        Result::Err(e) => Result::Err(e),
    }
}

} // verus!
