use vstd::prelude::*;

use crate::psbt::{InputPair, Psbt, TxOut};

verus! {

// Abstract mirrors of the model types: what a value *is*, independent of
// how a particular `Vec` happens to hold it.  The persistence laws are
// stated over these.

pub struct TxOutA {
    pub value_sat: u64,
    pub script_pubkey: Seq<u8>,
}

pub struct InputA {
    pub txid: Seq<u8>,
    pub vout: u32,
    pub script_sig: Seq<u8>,
    pub witness: Seq<Seq<u8>>,
    pub sequence: u32,
    pub witness_utxo: Option<TxOutA>,
    pub non_witness_utxo: Option<Seq<TxOutA>>,
    pub redeem_script: Option<Seq<u8>>,
    pub witness_script: Option<Seq<u8>>,
    pub final_script_sig: Option<Seq<u8>>,
    pub final_script_witness: Option<Seq<Seq<u8>>>,
    pub sighash_type: Option<u32>,
}

pub struct PsbtA {
    pub version: u32,
    pub inputs: Seq<InputA>,
    pub outputs: Seq<TxOutA>,
    pub locktime: u32,
}

pub open spec fn abs_txout(t: TxOut) -> TxOutA {
    TxOutA { value_sat: t.value_sat, script_pubkey: t.script_pubkey@ }
}

pub open spec fn abs_txouts(s: Seq<TxOut>) -> Seq<TxOutA> {
    s.map_values(|t: TxOut| abs_txout(t))
}

pub open spec fn abs_input(i: InputPair) -> InputA {
    InputA {
        txid: i.txid@,
        vout: i.vout,
        script_sig: i.script_sig@,
        witness: i.witness.deep_view(),
        sequence: i.sequence,
        witness_utxo: match i.witness_utxo {
            Option::Some(t) => Option::Some(abs_txout(t)),
            Option::None => Option::None,
        },
        non_witness_utxo: match i.non_witness_utxo {
            Option::Some(outs) => Option::Some(abs_txouts(outs@)),
            Option::None => Option::None,
        },
        redeem_script: i.redeem_script.deep_view(),
        witness_script: i.witness_script.deep_view(),
        final_script_sig: i.final_script_sig.deep_view(),
        final_script_witness: match i.final_script_witness {
            Option::Some(w) => Option::Some(w.deep_view()),
            Option::None => Option::None,
        },
        sighash_type: i.sighash_type,
    }
}

pub open spec fn abs_inputs(s: Seq<InputPair>) -> Seq<InputA> {
    s.map_values(|i: InputPair| abs_input(i))
}

pub open spec fn abs_psbt(p: Psbt) -> PsbtA {
    PsbtA {
        version: p.version,
        inputs: abs_inputs(p.inputs@),
        outputs: abs_txouts(p.outputs@),
        locktime: p.locktime,
    }
}

// ---- primitive encoders ----

pub open spec fn enc_u64(x: u64) -> Seq<u8> {
    seq![
        (x & 0xff) as u8,
        ((x >> 8) & 0xff) as u8,
        ((x >> 16) & 0xff) as u8,
        ((x >> 24) & 0xff) as u8,
        ((x >> 32) & 0xff) as u8,
        ((x >> 40) & 0xff) as u8,
        ((x >> 48) & 0xff) as u8,
        ((x >> 56) & 0xff) as u8,
    ]
}

pub open spec fn dec_u64_at(s: Seq<u8>, i: int) -> u64
    recommends
        0 <= i,
        i + 8 <= s.len(),
{
    (s[i] as u64) | ((s[i + 1] as u64) << 8) | ((s[i + 2] as u64) << 16) | ((s[i + 3] as u64)
        << 24) | ((s[i + 4] as u64) << 32) | ((s[i + 5] as u64) << 40) | ((s[i + 6] as u64) << 48)
        | ((s[i + 7] as u64) << 56)
}

pub proof fn lemma_u64_round_trip(x: u64, s: Seq<u8>, i: int)
    requires
        0 <= i,
        i + 8 <= s.len(),
        s.subrange(i, i + 8) == enc_u64(x),
    ensures
        dec_u64_at(s, i) == x,
{
    assert(s[i] == enc_u64(x)[0]);
    assert(s[i + 1] == enc_u64(x)[1]);
    assert(s[i + 2] == enc_u64(x)[2]);
    assert(s[i + 3] == enc_u64(x)[3]);
    assert(s[i + 4] == enc_u64(x)[4]);
    assert(s[i + 5] == enc_u64(x)[5]);
    assert(s[i + 6] == enc_u64(x)[6]);
    assert(s[i + 7] == enc_u64(x)[7]);
    assert(((x & 0xff) as u8 as u64) | (((x >> 8) & 0xff) as u8 as u64) << 8 | (((x >> 16)
        & 0xff) as u8 as u64) << 16 | (((x >> 24) & 0xff) as u8 as u64) << 24 | (((x >> 32)
        & 0xff) as u8 as u64) << 32 | (((x >> 40) & 0xff) as u8 as u64) << 40 | (((x >> 48)
        & 0xff) as u8 as u64) << 48 | (((x >> 56) & 0xff) as u8 as u64) << 56 == x)
        by (bit_vector);
}

/// Append the encoding of a number to the output buffer.
pub fn put_u64(out: &mut Vec<u8>, x: u64)
    ensures
        final(out)@ == old(out)@ + enc_u64(x),
{
    out.push((x & 0xff) as u8);
    out.push(((x >> 8) & 0xff) as u8);
    out.push(((x >> 16) & 0xff) as u8);
    out.push(((x >> 24) & 0xff) as u8);
    out.push(((x >> 32) & 0xff) as u8);
    out.push(((x >> 40) & 0xff) as u8);
    out.push(((x >> 48) & 0xff) as u8);
    out.push(((x >> 56) & 0xff) as u8);
    proof {
        assert(final(out)@ =~= old(out)@ + enc_u64(x));
    }
}

/// Read the number encoded at `i`.
pub fn get_u64(s: &Vec<u8>, i: usize) -> (r: Option<(u64, usize)>)
    ensures
        match r {
            Option::Some((x, j)) => i + 8 <= s@.len() && x == dec_u64_at(s@, i as int) && j == i
                + 8,
            Option::None => i + 8 > s@.len(),
        },
{
    if s.len() < 8 || i > s.len() - 8 {
        return Option::None;
    }
    let x: u64 = (s[i] as u64) | ((s[i + 1] as u64) << 8) | ((s[i + 2] as u64) << 16) | ((s[i
        + 3] as u64) << 24) | ((s[i + 4] as u64) << 32) | ((s[i + 5] as u64) << 40) | ((s[i
        + 6] as u64) << 48) | ((s[i + 7] as u64) << 56);
    Option::Some((x, i + 8))
}

// ---- byte-string encoder ----

pub open spec fn enc_bytes(b: Seq<u8>) -> Seq<u8> {
    enc_u64(b.len() as u64) + b
}

/// Append a length-prefixed byte string.
pub fn put_bytes(out: &mut Vec<u8>, b: &Vec<u8>)
    ensures
        final(out)@ == old(out)@ + enc_bytes(b@),
{
    put_u64(out, b.len() as u64);
    let mut i: usize = 0;
    let ghost mid = out@;
    while i < b.len()
        invariant
            0 <= i <= b@.len(),
            out@ == mid + b@.take(i as int),
        decreases b@.len() - i,
    {
        out.push(b[i]);
        proof {
            assert(mid + b@.take(i + 1) =~= (mid + b@.take(i as int)).push(b@[i as int]));
        }
        i += 1;
    }
    proof {
        assert(b@.take(b@.len() as int) =~= b@);
        assert(out@ =~= old(out)@ + enc_bytes(b@));
    }
}

/// Read the byte string encoded at `i`, within a length budget.
pub fn get_bytes(s: &Vec<u8>, i: usize, max_len: usize) -> (r: Option<(Vec<u8>, usize)>)
    ensures
        match r {
            Option::Some((b, j)) => {
                &&& i + 8 <= s@.len()
                &&& dec_u64_at(s@, i as int) == b@.len()
                &&& b@.len() <= max_len
                &&& j == i + 8 + b@.len()
                &&& j <= s@.len()
                &&& b@ == s@.subrange(i + 8, j as int)
            },
            Option::None => i + 8 > s@.len() || dec_u64_at(s@, i as int) > max_len || i + 8
                + dec_u64_at(s@, i as int) > s@.len(),
        },
{
    let (n, j) = match get_u64(s, i) {
        Option::Some(p) => p,
        Option::None => {
            return Option::None;
        },
    };
    if n > max_len as u64 {
        return Option::None;
    }
    let n = n as usize;
    if n > s.len() - j {
        return Option::None;
    }
    let b = crate::text::sub_bytes(s, j, j + n);
    Option::Some((b, j + n))
}

/// The decoded byte string equals what was encoded.
pub proof fn lemma_bytes_round_trip(b: Seq<u8>, s: Seq<u8>, i: int)
    requires
        0 <= i,
        b.len() < 0x8000_0000_0000_0000,
        i + enc_bytes(b).len() <= s.len(),
        s.subrange(i, i + enc_bytes(b).len() as int) == enc_bytes(b),
    ensures
        dec_u64_at(s, i) == b.len(),
        s.subrange(i + 8, i + 8 + b.len() as int) == b,
{
    assert(enc_bytes(b).len() == 8 + b.len());
    assert(s.subrange(i, i + 8) =~= enc_bytes(b).subrange(0, 8));
    assert(enc_bytes(b).subrange(0, 8) =~= enc_u64(b.len() as u64));
    lemma_u64_round_trip(b.len() as u64, s, i);
    assert forall|j: int| 0 <= j < b.len() implies s[i + 8 + j] == b[j] by {
        assert(s.subrange(i, i + enc_bytes(b).len() as int)[8 + j] == enc_bytes(b)[8 + j]);
    }
    assert(s.subrange(i + 8, i + 8 + b.len() as int) =~= b);
}

/// Total decoder for one number.
pub open spec fn dec_u64s(s: Seq<u8>, i: int) -> Option<(u64, int)> {
    if 0 <= i && i + 8 <= s.len() {
        Option::Some((dec_u64_at(s, i), i + 8))
    } else {
        Option::None
    }
}

/// Total decoder for one length-prefixed byte string under a budget.
pub open spec fn dec_bytes_s(s: Seq<u8>, i: int, max: int) -> Option<(Seq<u8>, int)> {
    match dec_u64s(s, i) {
        Option::Some((n, j)) => if n <= max && j + n <= s.len() {
            Option::Some((s.subrange(j, j + n), j + n))
        } else {
            Option::None
        },
        Option::None => Option::None,
    }
}

/// A part of a matched window in `s` is itself matched at its offset.
proof fn lemma_chunk(s: Seq<u8>, i: int, whole: Seq<u8>, off: int, part: Seq<u8>)
    requires
        0 <= i,
        i + whole.len() <= s.len(),
        s.subrange(i, i + whole.len() as int) == whole,
        0 <= off,
        off + part.len() <= whole.len(),
        part == whole.subrange(off, off + part.len() as int),
    ensures
        s.subrange(i + off, i + off + part.len() as int) == part,
{
    assert forall|j: int| 0 <= j < part.len() implies s[i + off + j] == part[j] by {
        assert(s.subrange(i, i + whole.len() as int)[off + j] == whole[off + j]);
        assert(whole.subrange(off, off + part.len() as int)[j] == whole[off + j]);
    }
    assert(s.subrange(i + off, i + off + part.len() as int) =~= part);
}

pub proof fn lemma_bytes_round_trip_s(b: Seq<u8>, s: Seq<u8>, i: int, max: int)
    requires
        0 <= i,
        b.len() <= max,
        max <= 0x1000_0000,
        i + enc_bytes(b).len() <= s.len(),
        s.subrange(i, i + enc_bytes(b).len() as int) == enc_bytes(b),
    ensures
        dec_bytes_s(s, i, max) == Option::Some((b, i + enc_bytes(b).len() as int)),
{
    lemma_bytes_round_trip(b, s, i);
}

// ---- output codec ----

pub open spec fn wf_txout_a(t: TxOutA) -> bool {
    t.script_pubkey.len() <= crate::psbt::MAX_SCRIPT_LEN
}

pub open spec fn enc_txout(t: TxOutA) -> Seq<u8> {
    enc_u64(t.value_sat) + enc_bytes(t.script_pubkey)
}

pub open spec fn dec_txout_s(s: Seq<u8>, i: int) -> Option<(TxOutA, int)> {
    match dec_u64s(s, i) {
        Option::Some((v, j)) => match dec_bytes_s(s, j, crate::psbt::MAX_SCRIPT_LEN as int) {
            Option::Some((spk, k)) => Option::Some(
                (TxOutA { value_sat: v, script_pubkey: spk }, k),
            ),
            Option::None => Option::None,
        },
        Option::None => Option::None,
    }
}

pub proof fn lemma_rt_txout(t: TxOutA, s: Seq<u8>, i: int)
    requires
        0 <= i,
        wf_txout_a(t),
        i + enc_txout(t).len() <= s.len(),
        s.subrange(i, i + enc_txout(t).len() as int) == enc_txout(t),
    ensures
        dec_txout_s(s, i) == Option::Some((t, i + enc_txout(t).len() as int)),
{
    let whole = enc_txout(t);
    assert(enc_u64(t.value_sat) =~= whole.subrange(0, 8));
    lemma_chunk(s, i, whole, 0, enc_u64(t.value_sat));
    lemma_u64_round_trip(t.value_sat, s, i);
    let eb = enc_bytes(t.script_pubkey);
    assert(eb =~= whole.subrange(8, 8 + eb.len() as int));
    lemma_chunk(s, i, whole, 8, eb);
    lemma_bytes_round_trip_s(t.script_pubkey, s, i + 8, crate::psbt::MAX_SCRIPT_LEN as int);
}

/// Append one output.
pub fn put_txout(out: &mut Vec<u8>, t: &TxOut)
    ensures
        final(out)@ == old(out)@ + enc_txout(abs_txout(*t)),
{
    put_u64(out, t.value_sat);
    put_bytes(out, &t.script_pubkey);
    proof {
        assert(out@ =~= old(out)@ + enc_txout(abs_txout(*t)));
    }
}

/// Read one output.
pub fn get_txout(s: &Vec<u8>, i: usize) -> (r: Option<(TxOut, usize)>)
    ensures
        match r {
            Option::Some((t, j)) => dec_txout_s(s@, i as int) == Option::Some(
                (abs_txout(t), j as int),
            ) && j <= s@.len(),
            Option::None => dec_txout_s(s@, i as int) is None,
        },
{
    let (v, j) = match get_u64(s, i) {
        Option::Some(p) => p,
        Option::None => {
            return Option::None;
        },
    };
    let (spk, k) = match get_bytes(s, j, crate::psbt::MAX_SCRIPT_LEN) {
        Option::Some(p) => p,
        Option::None => {
            return Option::None;
        },
    };
    Option::Some((TxOut { value_sat: v, script_pubkey: spk }, k))
}

// ---- output list codec ----

pub open spec fn enc_txout_list(ts: Seq<TxOutA>) -> Seq<u8>
    decreases ts.len(),
{
    if ts.len() == 0 {
        Seq::empty()
    } else {
        enc_txout(ts.first()) + enc_txout_list(ts.drop_first())
    }
}

pub open spec fn enc_txouts(ts: Seq<TxOutA>) -> Seq<u8> {
    enc_u64(ts.len() as u64) + enc_txout_list(ts)
}

pub open spec fn dec_txout_list_s(s: Seq<u8>, i: int, n: int) -> Option<(Seq<TxOutA>, int)>
    decreases n,
{
    if n <= 0 {
        Option::Some((Seq::empty(), i))
    } else {
        match dec_txout_s(s, i) {
            Option::Some((t, j)) => match dec_txout_list_s(s, j, n - 1) {
                Option::Some((rest, k)) => Option::Some((seq![t] + rest, k)),
                Option::None => Option::None,
            },
            Option::None => Option::None,
        }
    }
}

pub open spec fn dec_txouts_s(s: Seq<u8>, i: int) -> Option<(Seq<TxOutA>, int)> {
    match dec_u64s(s, i) {
        Option::Some((n, j)) => if n <= crate::psbt::MAX_LIST_LEN as u64 {
            dec_txout_list_s(s, j, n as int)
        } else {
            Option::None
        },
        Option::None => Option::None,
    }
}

pub proof fn lemma_enc_txout_list_snoc(ts: Seq<TxOutA>, t: TxOutA)
    ensures
        enc_txout_list(ts.push(t)) == enc_txout_list(ts) + enc_txout(t),
    decreases ts.len(),
{
    if ts.len() == 0 {
        assert(ts.push(t).drop_first() =~= Seq::<TxOutA>::empty());
        assert(ts.push(t).first() == t);
        assert(enc_txout_list(Seq::<TxOutA>::empty()) =~= Seq::<u8>::empty());
        assert(enc_txout_list(ts.push(t)) =~= enc_txout_list(ts) + enc_txout(t));
    } else {
        assert(ts.push(t).drop_first() =~= ts.drop_first().push(t));
        assert(ts.push(t).first() == ts.first());
        lemma_enc_txout_list_snoc(ts.drop_first(), t);
        assert(enc_txout_list(ts.push(t)) =~= enc_txout_list(ts) + enc_txout(t));
    }
}

#[verifier::rlimit(100)]
#[verifier::spinoff_prover]
pub proof fn lemma_rt_txout_list(ts: Seq<TxOutA>, s: Seq<u8>, i: int)
    requires
        0 <= i,
        forall|k: int| 0 <= k < ts.len() ==> wf_txout_a(#[trigger] ts[k]),
        i + enc_txout_list(ts).len() <= s.len(),
        s.subrange(i, i + enc_txout_list(ts).len() as int) == enc_txout_list(ts),
    ensures
        dec_txout_list_s(s, i, ts.len() as int) == Option::Some(
            (ts, i + enc_txout_list(ts).len() as int),
        ),
    decreases ts.len(),
{
    if ts.len() == 0 {
        assert(ts =~= Seq::<TxOutA>::empty());
    } else {
        let whole = enc_txout_list(ts);
        let e0 = enc_txout(ts.first());
        assert(e0 =~= whole.subrange(0, e0.len() as int));
        lemma_chunk(s, i, whole, 0, e0);
        lemma_rt_txout(ts.first(), s, i);
        let rest = enc_txout_list(ts.drop_first());
        assert(rest =~= whole.subrange(e0.len() as int, whole.len() as int));
        lemma_chunk(s, i, whole, e0.len() as int, rest);
        lemma_rt_txout_list(ts.drop_first(), s, i + e0.len());
        assert(seq![ts.first()] + ts.drop_first() =~= ts);
    }
}

pub proof fn lemma_rt_txouts(ts: Seq<TxOutA>, s: Seq<u8>, i: int)
    requires
        0 <= i,
        ts.len() <= crate::psbt::MAX_LIST_LEN,
        forall|k: int| 0 <= k < ts.len() ==> wf_txout_a(#[trigger] ts[k]),
        i + enc_txouts(ts).len() <= s.len(),
        s.subrange(i, i + enc_txouts(ts).len() as int) == enc_txouts(ts),
    ensures
        dec_txouts_s(s, i) == Option::Some((ts, i + enc_txouts(ts).len() as int)),
{
    let whole = enc_txouts(ts);
    assert(enc_u64(ts.len() as u64) =~= whole.subrange(0, 8));
    lemma_chunk(s, i, whole, 0, enc_u64(ts.len() as u64));
    lemma_u64_round_trip(ts.len() as u64, s, i);
    let rest = enc_txout_list(ts);
    assert(rest =~= whole.subrange(8, whole.len() as int));
    lemma_chunk(s, i, whole, 8, rest);
    lemma_rt_txout_list(ts, s, i + 8);
}

/// Append a list of outputs.
pub fn put_txouts(out: &mut Vec<u8>, ts: &Vec<TxOut>)
    ensures
        final(out)@ == old(out)@ + enc_txouts(abs_txouts(ts@)),
{
    put_u64(out, ts.len() as u64);
    let ghost mid = out@;
    let mut i: usize = 0;
    while i < ts.len()
        invariant
            0 <= i <= ts@.len(),
            out@ == mid + enc_txout_list(abs_txouts(ts@.take(i as int))),
        decreases ts@.len() - i,
    {
        put_txout(out, &ts[i]);
        proof {
            assert(abs_txouts(ts@.take(i + 1)) =~= abs_txouts(ts@.take(i as int)).push(
                abs_txout(ts@[i as int]),
            ));
            lemma_enc_txout_list_snoc(abs_txouts(ts@.take(i as int)), abs_txout(ts@[i as int]));
        }
        i += 1;
    }
    proof {
        assert(ts@.take(ts@.len() as int) =~= ts@);
        assert(out@ =~= old(out)@ + enc_txouts(abs_txouts(ts@)));
    }
}

/// Read a list of outputs; the recursion mirrors the spec decoder.
pub fn get_txout_list(s: &Vec<u8>, i: usize, n: u64) -> (r: Option<(Vec<TxOut>, usize)>)
    requires
        i <= s@.len(),
        n <= crate::psbt::MAX_LIST_LEN as u64,
    ensures
        match r {
            Option::Some((ts, j)) => dec_txout_list_s(s@, i as int, n as int) == Option::Some(
                (abs_txouts(ts@), j as int),
            ) && j <= s@.len() && ts@.len() == n,
            Option::None => dec_txout_list_s(s@, i as int, n as int) is None,
        },
    decreases n,
{
    if n == 0 {
        let ts: Vec<TxOut> = Vec::new();
        proof {
            assert(abs_txouts(ts@) =~= Seq::<TxOutA>::empty());
            assert(dec_txout_list_s(s@, i as int, 0) == Option::Some(
                (Seq::<TxOutA>::empty(), i as int),
            ));
        }
        return Option::Some((ts, i));
    }
    let (t, j) = match get_txout(s, i) {
        Option::Some(p) => p,
        Option::None => {
            return Option::None;
        },
    };
    let (rest, k) = match get_txout_list(s, j, n - 1) {
        Option::Some(p) => p,
        Option::None => {
            return Option::None;
        },
    };
    let mut ts: Vec<TxOut> = Vec::new();
    let ghost t0 = t;
    let ghost rest0 = rest@;
    ts.push(t);
    let mut rest = rest;
    while rest.len() > 0
        invariant
            rest@.len() <= rest0.len(),
            ts@ == seq![t0] + rest0.take((rest0.len() - rest@.len()) as int),
            rest@ == rest0.skip((rest0.len() - rest@.len()) as int),
        decreases rest@.len(),
    {
        let ghost done = rest0.len() - rest@.len();
        let u = rest.remove(0);
        proof {
            assert(u == rest0[done as int]);
            assert(rest@ =~= rest0.skip(done + 1));
            assert((seq![t0] + rest0.take(done as int)).push(u) =~= seq![t0] + rest0.take(
                done + 1,
            ));
        }
        ts.push(u);
    }
    proof {
        assert(rest0.take(rest0.len() as int) =~= rest0);
        assert(ts@ == seq![t0] + rest0);
        assert(abs_txouts(ts@) =~= seq![abs_txout(t0)] + abs_txouts(rest0));
    }
    Option::Some((ts, k))
}

/// Read a length-prefixed list of outputs.
pub fn get_txouts(s: &Vec<u8>, i: usize) -> (r: Option<(Vec<TxOut>, usize)>)
    ensures
        match r {
            Option::Some((ts, j)) => dec_txouts_s(s@, i as int) == Option::Some(
                (abs_txouts(ts@), j as int),
            ) && j <= s@.len() && ts@.len() <= crate::psbt::MAX_LIST_LEN,
            Option::None => dec_txouts_s(s@, i as int) is None,
        },
{
    let (n, j) = match get_u64(s, i) {
        Option::Some(p) => p,
        Option::None => {
            return Option::None;
        },
    };
    if n > crate::psbt::MAX_LIST_LEN as u64 {
        return Option::None;
    }
    get_txout_list(s, j, n)
}

// ---- optional byte string ----

pub open spec fn enc_opt_bytes(o: Option<Seq<u8>>) -> Seq<u8> {
    match o {
        Option::Some(b) => enc_u64(1) + enc_bytes(b),
        Option::None => enc_u64(0),
    }
}

pub open spec fn dec_opt_bytes_s(s: Seq<u8>, i: int) -> Option<(Option<Seq<u8>>, int)> {
    match dec_u64s(s, i) {
        Option::Some((tag, j)) => if tag == 0 {
            Option::Some((Option::None, j))
        } else if tag == 1 {
            match dec_bytes_s(s, j, crate::psbt::MAX_SCRIPT_LEN as int) {
                Option::Some((b, k)) => Option::Some((Option::Some(b), k)),
                Option::None => Option::None,
            }
        } else {
            Option::None
        },
        Option::None => Option::None,
    }
}

pub proof fn lemma_rt_opt_bytes(o: Option<Seq<u8>>, s: Seq<u8>, i: int)
    requires
        0 <= i,
        (match o {
            Option::Some(b) => b.len() <= crate::psbt::MAX_SCRIPT_LEN,
            Option::None => true,
        }),
        i + enc_opt_bytes(o).len() <= s.len(),
        s.subrange(i, i + enc_opt_bytes(o).len() as int) == enc_opt_bytes(o),
    ensures
        dec_opt_bytes_s(s, i) == Option::Some((o, i + enc_opt_bytes(o).len() as int)),
{
    let whole = enc_opt_bytes(o);
    match o {
        Option::None => {
            assert(enc_u64(0) =~= whole.subrange(0, 8));
            lemma_chunk(s, i, whole, 0, enc_u64(0));
            lemma_u64_round_trip(0, s, i);
        },
        Option::Some(b) => {
            assert(enc_u64(1) =~= whole.subrange(0, 8));
            lemma_chunk(s, i, whole, 0, enc_u64(1));
            lemma_u64_round_trip(1, s, i);
            let eb = enc_bytes(b);
            assert(eb =~= whole.subrange(8, 8 + eb.len() as int));
            lemma_chunk(s, i, whole, 8, eb);
            lemma_bytes_round_trip_s(b, s, i + 8, crate::psbt::MAX_SCRIPT_LEN as int);
        },
    }
}

/// Append an optional byte string.
pub fn put_opt_bytes(out: &mut Vec<u8>, o: &Option<Vec<u8>>)
    ensures
        final(out)@ == old(out)@ + enc_opt_bytes(o.deep_view()),
{
    match o {
        Option::Some(b) => {
            put_u64(out, 1);
            put_bytes(out, b);
            proof {
                assert(b.deep_view() =~= b@);
                assert(out@ =~= old(out)@ + enc_opt_bytes(o.deep_view()));
            }
        },
        Option::None => {
            put_u64(out, 0);
            proof {
                assert(out@ =~= old(out)@ + enc_opt_bytes(o.deep_view()));
            }
        },
    }
}

/// Read an optional byte string.
pub fn get_opt_bytes(s: &Vec<u8>, i: usize) -> (r: Option<(Option<Vec<u8>>, usize)>)
    ensures
        match r {
            Option::Some((o, j)) => dec_opt_bytes_s(s@, i as int) == Option::Some(
                (o.deep_view(), j as int),
            ) && j <= s@.len(),
            Option::None => dec_opt_bytes_s(s@, i as int) is None,
        },
{
    let (tag, j) = match get_u64(s, i) {
        Option::Some(p) => p,
        Option::None => {
            return Option::None;
        },
    };
    if tag == 0 {
        let o: Option<Vec<u8>> = Option::None;
        return Option::Some((o, j));
    }
    if tag != 1 {
        return Option::None;
    }
    let (b, k) = match get_bytes(s, j, crate::psbt::MAX_SCRIPT_LEN) {
        Option::Some(p) => p,
        Option::None => {
            return Option::None;
        },
    };
    proof {
        assert(b.deep_view() =~= b@);
    }
    let o: Option<Vec<u8>> = Option::Some(b);
    Option::Some((o, k))
}

// ---- byte-string list (witness stacks) ----

pub open spec fn enc_bs_list(w: Seq<Seq<u8>>) -> Seq<u8>
    decreases w.len(),
{
    if w.len() == 0 {
        Seq::empty()
    } else {
        enc_bytes(w.first()) + enc_bs_list(w.drop_first())
    }
}

pub open spec fn enc_vv(w: Seq<Seq<u8>>) -> Seq<u8> {
    enc_u64(w.len() as u64) + enc_bs_list(w)
}

pub open spec fn dec_bs_list_s(s: Seq<u8>, i: int, n: int, acc: Seq<Seq<u8>>) -> Option<
    (Seq<Seq<u8>>, int),
>
    decreases n,
{
    if n <= 0 {
        Option::Some((acc, i))
    } else {
        match dec_bytes_s(s, i, crate::psbt::MAX_SCRIPT_LEN as int) {
            Option::Some((b, j)) => dec_bs_list_s(s, j, n - 1, acc.push(b)),
            Option::None => Option::None,
        }
    }
}

pub open spec fn dec_vv_s(s: Seq<u8>, i: int) -> Option<(Seq<Seq<u8>>, int)> {
    match dec_u64s(s, i) {
        Option::Some((n, j)) => if n <= crate::psbt::MAX_WITNESS_ITEMS as u64 {
            dec_bs_list_s(s, j, n as int, Seq::empty())
        } else {
            Option::None
        },
        Option::None => Option::None,
    }
}

pub proof fn lemma_enc_bs_list_snoc(w: Seq<Seq<u8>>, b: Seq<u8>)
    ensures
        enc_bs_list(w.push(b)) == enc_bs_list(w) + enc_bytes(b),
    decreases w.len(),
{
    if w.len() == 0 {
        assert(w.push(b).drop_first() =~= Seq::<Seq<u8>>::empty());
        assert(w.push(b).first() == b);
        assert(enc_bs_list(Seq::<Seq<u8>>::empty()) =~= Seq::<u8>::empty());
        assert(enc_bs_list(w.push(b)) =~= enc_bs_list(w) + enc_bytes(b));
    } else {
        assert(w.push(b).drop_first() =~= w.drop_first().push(b));
        assert(w.push(b).first() == w.first());
        lemma_enc_bs_list_snoc(w.drop_first(), b);
        assert(enc_bs_list(w.push(b)) =~= enc_bs_list(w) + enc_bytes(b));
    }
}

#[verifier::rlimit(100)]
#[verifier::spinoff_prover]
pub proof fn lemma_rt_bs_list(w: Seq<Seq<u8>>, s: Seq<u8>, i: int, acc: Seq<Seq<u8>>)
    requires
        0 <= i,
        forall|k: int| 0 <= k < w.len() ==> (#[trigger] w[k]).len() <= crate::psbt::MAX_SCRIPT_LEN,
        i + enc_bs_list(w).len() <= s.len(),
        s.subrange(i, i + enc_bs_list(w).len() as int) == enc_bs_list(w),
    ensures
        dec_bs_list_s(s, i, w.len() as int, acc) == Option::Some(
            (acc + w, i + enc_bs_list(w).len() as int),
        ),
    decreases w.len(),
{
    if w.len() == 0 {
        assert(acc + w =~= acc);
    } else {
        let whole = enc_bs_list(w);
        let e0 = enc_bytes(w.first());
        assert(e0 =~= whole.subrange(0, e0.len() as int));
        lemma_chunk(s, i, whole, 0, e0);
        lemma_bytes_round_trip_s(w.first(), s, i, crate::psbt::MAX_SCRIPT_LEN as int);
        let rest = enc_bs_list(w.drop_first());
        assert(rest =~= whole.subrange(e0.len() as int, whole.len() as int));
        lemma_chunk(s, i, whole, e0.len() as int, rest);
        lemma_rt_bs_list(w.drop_first(), s, i + e0.len(), acc.push(w.first()));
        assert(acc.push(w.first()) + w.drop_first() =~= acc + w);
    }
}

pub proof fn lemma_rt_vv(w: Seq<Seq<u8>>, s: Seq<u8>, i: int)
    requires
        0 <= i,
        w.len() <= crate::psbt::MAX_WITNESS_ITEMS,
        forall|k: int| 0 <= k < w.len() ==> (#[trigger] w[k]).len() <= crate::psbt::MAX_SCRIPT_LEN,
        i + enc_vv(w).len() <= s.len(),
        s.subrange(i, i + enc_vv(w).len() as int) == enc_vv(w),
    ensures
        dec_vv_s(s, i) == Option::Some((w, i + enc_vv(w).len() as int)),
{
    let whole = enc_vv(w);
    assert(enc_u64(w.len() as u64) =~= whole.subrange(0, 8));
    lemma_chunk(s, i, whole, 0, enc_u64(w.len() as u64));
    lemma_u64_round_trip(w.len() as u64, s, i);
    let rest = enc_bs_list(w);
    assert(rest =~= whole.subrange(8, whole.len() as int));
    lemma_chunk(s, i, whole, 8, rest);
    lemma_rt_bs_list(w, s, i + 8, Seq::empty());
    assert(Seq::<Seq<u8>>::empty() + w =~= w);
}

/// Append a list of byte strings.
pub fn put_vv(out: &mut Vec<u8>, w: &Vec<Vec<u8>>)
    ensures
        final(out)@ == old(out)@ + enc_vv(w.deep_view()),
{
    put_u64(out, w.len() as u64);
    let ghost mid = out@;
    let mut i: usize = 0;
    while i < w.len()
        invariant
            0 <= i <= w@.len(),
            out@ == mid + enc_bs_list(w@.take(i as int).map_values(|v: Vec<u8>| v@)),
        decreases w@.len() - i,
    {
        put_bytes(out, &w[i]);
        proof {
            assert(w@.take(i + 1).map_values(|v: Vec<u8>| v@) =~= w@.take(i as int).map_values(
                |v: Vec<u8>| v@,
            ).push(w@[i as int]@));
            lemma_enc_bs_list_snoc(
                w@.take(i as int).map_values(|v: Vec<u8>| v@),
                w@[i as int]@,
            );
        }
        i += 1;
    }
    proof {
        assert(w@.take(w@.len() as int) =~= w@);
        assert(w@.map_values(|v: Vec<u8>| v@) =~~= w.deep_view());
        assert(out@ =~= old(out)@ + enc_vv(w.deep_view()));
    }
}

/// Read a list of byte strings.
pub fn get_bs_list(s: &Vec<u8>, i: usize, n: u64) -> (r: Option<(Vec<Vec<u8>>, usize)>)
    requires
        i <= s@.len(),
        n <= crate::psbt::MAX_WITNESS_ITEMS as u64,
    ensures
        match r {
            Option::Some((w, j)) => dec_bs_list_s(s@, i as int, n as int, Seq::empty())
                == Option::Some((w.deep_view(), j as int)) && j <= s@.len() && w@.len() == n,
            Option::None => dec_bs_list_s(s@, i as int, n as int, Seq::empty()) is None,
        },
{
    let mut w: Vec<Vec<u8>> = Vec::new();
    let mut idx: usize = i;
    let mut remaining: u64 = n;
    proof {
        assert(w.deep_view() =~= Seq::<Seq<u8>>::empty());
    }
    while remaining > 0
        invariant
            idx <= s@.len(),
            remaining <= n,
            w@.len() == n - remaining,
            dec_bs_list_s(s@, i as int, n as int, Seq::empty()) == dec_bs_list_s(
                s@,
                idx as int,
                remaining as int,
                w.deep_view(),
            ),
        decreases remaining,
    {
        let ghost old_dv = w.deep_view();
        let (b, j) = match get_bytes(s, idx, crate::psbt::MAX_SCRIPT_LEN) {
            Option::Some(p) => p,
            Option::None => {
                return Option::None;
            },
        };
        let ghost bv = b@;
        w.push(b);
        proof {
            assert forall|q: int| 0 <= q < w.deep_view().len() implies w.deep_view()[q]
                == old_dv.push(bv)[q] by {
                assert(w.deep_view()[q] == w@[q].deep_view());
                if q < w@.len() - 1 {
                    assert(old_dv[q] == w@[q].deep_view());
                }
            }
            assert(w.deep_view() =~= old_dv.push(bv));
        }
        idx = j;
        remaining = remaining - 1;
    }
    Option::Some((w, idx))
}

/// Read a length-prefixed list of byte strings.
pub fn get_vv(s: &Vec<u8>, i: usize) -> (r: Option<(Vec<Vec<u8>>, usize)>)
    requires
        i <= s@.len(),
    ensures
        match r {
            Option::Some((w, j)) => dec_vv_s(s@, i as int) == Option::Some(
                (w.deep_view(), j as int),
            ) && j <= s@.len() && w@.len() <= crate::psbt::MAX_WITNESS_ITEMS,
            Option::None => dec_vv_s(s@, i as int) is None,
        },
{
    let (n, j) = match get_u64(s, i) {
        Option::Some(p) => p,
        Option::None => {
            return Option::None;
        },
    };
    if n > crate::psbt::MAX_WITNESS_ITEMS as u64 {
        return Option::None;
    }
    get_bs_list(s, j, n)
}

// ---- small wrappers: u32 and tagged options ----

pub open spec fn enc_u32(x: u32) -> Seq<u8> {
    enc_u64(x as u64)
}

pub open spec fn dec_u32_s(s: Seq<u8>, i: int) -> Option<(u32, int)> {
    match dec_u64s(s, i) {
        Option::Some((v, j)) => if v <= 0xffff_ffffu64 {
            Option::Some((v as u32, j))
        } else {
            Option::None
        },
        Option::None => Option::None,
    }
}

pub proof fn lemma_rt_u32(x: u32, s: Seq<u8>, i: int)
    requires
        0 <= i,
        i + 8 <= s.len(),
        s.subrange(i, i + 8) == enc_u32(x),
    ensures
        dec_u32_s(s, i) == Option::Some((x, i + 8)),
{
    lemma_u64_round_trip(x as u64, s, i);
}

pub fn put_u32(out: &mut Vec<u8>, x: u32)
    ensures
        final(out)@ == old(out)@ + enc_u32(x),
{
    put_u64(out, x as u64);
}

pub fn get_u32(s: &Vec<u8>, i: usize) -> (r: Option<(u32, usize)>)
    ensures
        match r {
            Option::Some((x, j)) => dec_u32_s(s@, i as int) == Option::Some((x, j as int)) && j
                <= s@.len(),
            Option::None => dec_u32_s(s@, i as int) is None,
        },
{
    let (v, j) = match get_u64(s, i) {
        Option::Some(p) => p,
        Option::None => {
            return Option::None;
        },
    };
    if v > 0xffff_ffff {
        return Option::None;
    }
    Option::Some((v as u32, j))
}

pub open spec fn enc_opt_u32(o: Option<u32>) -> Seq<u8> {
    match o {
        Option::Some(x) => enc_u64(1) + enc_u32(x),
        Option::None => enc_u64(0),
    }
}

pub open spec fn dec_opt_u32_s(s: Seq<u8>, i: int) -> Option<(Option<u32>, int)> {
    match dec_u64s(s, i) {
        Option::Some((tag, j)) => if tag == 0 {
            Option::Some((Option::None, j))
        } else if tag == 1 {
            match dec_u32_s(s, j) {
                Option::Some((x, k)) => Option::Some((Option::Some(x), k)),
                Option::None => Option::None,
            }
        } else {
            Option::None
        },
        Option::None => Option::None,
    }
}

pub proof fn lemma_rt_opt_u32(o: Option<u32>, s: Seq<u8>, i: int)
    requires
        0 <= i,
        i + enc_opt_u32(o).len() <= s.len(),
        s.subrange(i, i + enc_opt_u32(o).len() as int) == enc_opt_u32(o),
    ensures
        dec_opt_u32_s(s, i) == Option::Some((o, i + enc_opt_u32(o).len() as int)),
{
    let whole = enc_opt_u32(o);
    match o {
        Option::None => {
            assert(enc_u64(0) =~= whole.subrange(0, 8));
            lemma_chunk(s, i, whole, 0, enc_u64(0));
            lemma_u64_round_trip(0, s, i);
        },
        Option::Some(x) => {
            assert(enc_u64(1) =~= whole.subrange(0, 8));
            lemma_chunk(s, i, whole, 0, enc_u64(1));
            lemma_u64_round_trip(1, s, i);
            assert(enc_u32(x) =~= whole.subrange(8, 16));
            lemma_chunk(s, i, whole, 8, enc_u32(x));
            lemma_rt_u32(x, s, i + 8);
        },
    }
}

pub fn put_opt_u32(out: &mut Vec<u8>, o: &Option<u32>)
    ensures
        final(out)@ == old(out)@ + enc_opt_u32(*o),
{
    match o {
        Option::Some(x) => {
            put_u64(out, 1);
            put_u32(out, *x);
            proof {
                assert(out@ =~= old(out)@ + enc_opt_u32(*o));
            }
        },
        Option::None => {
            put_u64(out, 0);
            proof {
                assert(out@ =~= old(out)@ + enc_opt_u32(*o));
            }
        },
    }
}

pub fn get_opt_u32(s: &Vec<u8>, i: usize) -> (r: Option<(Option<u32>, usize)>)
    ensures
        match r {
            Option::Some((o, j)) => dec_opt_u32_s(s@, i as int) == Option::Some((o, j as int))
                && j <= s@.len(),
            Option::None => dec_opt_u32_s(s@, i as int) is None,
        },
{
    let (tag, j) = match get_u64(s, i) {
        Option::Some(p) => p,
        Option::None => {
            return Option::None;
        },
    };
    if tag == 0 {
        return Option::Some((Option::None, j));
    }
    if tag != 1 {
        return Option::None;
    }
    match get_u32(s, j) {
        Option::Some((x, k)) => Option::Some((Option::Some(x), k)),
        Option::None => Option::None,
    }
}

pub open spec fn enc_opt_txout(o: Option<TxOutA>) -> Seq<u8> {
    match o {
        Option::Some(t) => enc_u64(1) + enc_txout(t),
        Option::None => enc_u64(0),
    }
}

pub open spec fn dec_opt_txout_s(s: Seq<u8>, i: int) -> Option<(Option<TxOutA>, int)> {
    match dec_u64s(s, i) {
        Option::Some((tag, j)) => if tag == 0 {
            Option::Some((Option::None, j))
        } else if tag == 1 {
            match dec_txout_s(s, j) {
                Option::Some((t, k)) => Option::Some((Option::Some(t), k)),
                Option::None => Option::None,
            }
        } else {
            Option::None
        },
        Option::None => Option::None,
    }
}

pub proof fn lemma_rt_opt_txout(o: Option<TxOutA>, s: Seq<u8>, i: int)
    requires
        0 <= i,
        (match o {
            Option::Some(t) => wf_txout_a(t),
            Option::None => true,
        }),
        i + enc_opt_txout(o).len() <= s.len(),
        s.subrange(i, i + enc_opt_txout(o).len() as int) == enc_opt_txout(o),
    ensures
        dec_opt_txout_s(s, i) == Option::Some((o, i + enc_opt_txout(o).len() as int)),
{
    let whole = enc_opt_txout(o);
    match o {
        Option::None => {
            assert(enc_u64(0) =~= whole.subrange(0, 8));
            lemma_chunk(s, i, whole, 0, enc_u64(0));
            lemma_u64_round_trip(0, s, i);
        },
        Option::Some(t) => {
            assert(enc_u64(1) =~= whole.subrange(0, 8));
            lemma_chunk(s, i, whole, 0, enc_u64(1));
            lemma_u64_round_trip(1, s, i);
            let et = enc_txout(t);
            assert(et =~= whole.subrange(8, 8 + et.len() as int));
            lemma_chunk(s, i, whole, 8, et);
            lemma_rt_txout(t, s, i + 8);
        },
    }
}

pub open spec fn abs_opt_txout(o: Option<TxOut>) -> Option<TxOutA> {
    match o {
        Option::Some(t) => Option::Some(abs_txout(t)),
        Option::None => Option::None,
    }
}

pub fn put_opt_txout(out: &mut Vec<u8>, o: &Option<TxOut>)
    ensures
        final(out)@ == old(out)@ + enc_opt_txout(abs_opt_txout(*o)),
{
    match o {
        Option::Some(t) => {
            put_u64(out, 1);
            put_txout(out, t);
            proof {
                assert(out@ =~= old(out)@ + enc_opt_txout(abs_opt_txout(*o)));
            }
        },
        Option::None => {
            put_u64(out, 0);
            proof {
                assert(out@ =~= old(out)@ + enc_opt_txout(abs_opt_txout(*o)));
            }
        },
    }
}

pub fn get_opt_txout(s: &Vec<u8>, i: usize) -> (r: Option<(Option<TxOut>, usize)>)
    ensures
        match r {
            Option::Some((o, j)) => dec_opt_txout_s(s@, i as int) == Option::Some(
                (abs_opt_txout(o), j as int),
            ) && j <= s@.len(),
            Option::None => dec_opt_txout_s(s@, i as int) is None,
        },
{
    let (tag, j) = match get_u64(s, i) {
        Option::Some(p) => p,
        Option::None => {
            return Option::None;
        },
    };
    if tag == 0 {
        return Option::Some((Option::None, j));
    }
    if tag != 1 {
        return Option::None;
    }
    match get_txout(s, j) {
        Option::Some((t, k)) => Option::Some((Option::Some(t), k)),
        Option::None => Option::None,
    }
}

pub open spec fn enc_opt_txouts(o: Option<Seq<TxOutA>>) -> Seq<u8> {
    match o {
        Option::Some(ts) => enc_u64(1) + enc_txouts(ts),
        Option::None => enc_u64(0),
    }
}

pub open spec fn dec_opt_txouts_s(s: Seq<u8>, i: int) -> Option<(Option<Seq<TxOutA>>, int)> {
    match dec_u64s(s, i) {
        Option::Some((tag, j)) => if tag == 0 {
            Option::Some((Option::None, j))
        } else if tag == 1 {
            match dec_txouts_s(s, j) {
                Option::Some((ts, k)) => Option::Some((Option::Some(ts), k)),
                Option::None => Option::None,
            }
        } else {
            Option::None
        },
        Option::None => Option::None,
    }
}

pub proof fn lemma_rt_opt_txouts(o: Option<Seq<TxOutA>>, s: Seq<u8>, i: int)
    requires
        0 <= i,
        (match o {
            Option::Some(ts) => ts.len() <= crate::psbt::MAX_LIST_LEN && forall|k: int|
                0 <= k < ts.len() ==> wf_txout_a(#[trigger] ts[k]),
            Option::None => true,
        }),
        i + enc_opt_txouts(o).len() <= s.len(),
        s.subrange(i, i + enc_opt_txouts(o).len() as int) == enc_opt_txouts(o),
    ensures
        dec_opt_txouts_s(s, i) == Option::Some((o, i + enc_opt_txouts(o).len() as int)),
{
    let whole = enc_opt_txouts(o);
    match o {
        Option::None => {
            assert(enc_u64(0) =~= whole.subrange(0, 8));
            lemma_chunk(s, i, whole, 0, enc_u64(0));
            lemma_u64_round_trip(0, s, i);
        },
        Option::Some(ts) => {
            assert(enc_u64(1) =~= whole.subrange(0, 8));
            lemma_chunk(s, i, whole, 0, enc_u64(1));
            lemma_u64_round_trip(1, s, i);
            let et = enc_txouts(ts);
            assert(et =~= whole.subrange(8, 8 + et.len() as int));
            lemma_chunk(s, i, whole, 8, et);
            lemma_rt_txouts(ts, s, i + 8);
        },
    }
}

pub open spec fn abs_opt_txouts(o: Option<Vec<TxOut>>) -> Option<Seq<TxOutA>> {
    match o {
        Option::Some(ts) => Option::Some(abs_txouts(ts@)),
        Option::None => Option::None,
    }
}

pub fn put_opt_txouts(out: &mut Vec<u8>, o: &Option<Vec<TxOut>>)
    ensures
        final(out)@ == old(out)@ + enc_opt_txouts(abs_opt_txouts(*o)),
{
    match o {
        Option::Some(ts) => {
            put_u64(out, 1);
            put_txouts(out, ts);
            proof {
                assert(out@ =~= old(out)@ + enc_opt_txouts(abs_opt_txouts(*o)));
            }
        },
        Option::None => {
            put_u64(out, 0);
            proof {
                assert(out@ =~= old(out)@ + enc_opt_txouts(abs_opt_txouts(*o)));
            }
        },
    }
}

pub fn get_opt_txouts(s: &Vec<u8>, i: usize) -> (r: Option<(Option<Vec<TxOut>>, usize)>)
    ensures
        match r {
            Option::Some((o, j)) => dec_opt_txouts_s(s@, i as int) == Option::Some(
                (abs_opt_txouts(o), j as int),
            ) && j <= s@.len(),
            Option::None => dec_opt_txouts_s(s@, i as int) is None,
        },
{
    let (tag, j) = match get_u64(s, i) {
        Option::Some(p) => p,
        Option::None => {
            return Option::None;
        },
    };
    if tag == 0 {
        return Option::Some((Option::None, j));
    }
    if tag != 1 {
        return Option::None;
    }
    match get_txouts(s, j) {
        Option::Some((ts, k)) => Option::Some((Option::Some(ts), k)),
        Option::None => Option::None,
    }
}

pub open spec fn enc_opt_vv(o: Option<Seq<Seq<u8>>>) -> Seq<u8> {
    match o {
        Option::Some(w) => enc_u64(1) + enc_vv(w),
        Option::None => enc_u64(0),
    }
}

pub open spec fn dec_opt_vv_s(s: Seq<u8>, i: int) -> Option<(Option<Seq<Seq<u8>>>, int)> {
    match dec_u64s(s, i) {
        Option::Some((tag, j)) => if tag == 0 {
            Option::Some((Option::None, j))
        } else if tag == 1 {
            match dec_vv_s(s, j) {
                Option::Some((w, k)) => Option::Some((Option::Some(w), k)),
                Option::None => Option::None,
            }
        } else {
            Option::None
        },
        Option::None => Option::None,
    }
}

pub proof fn lemma_rt_opt_vv(o: Option<Seq<Seq<u8>>>, s: Seq<u8>, i: int)
    requires
        0 <= i,
        (match o {
            Option::Some(w) => w.len() <= crate::psbt::MAX_WITNESS_ITEMS && forall|k: int|
                0 <= k < w.len() ==> (#[trigger] w[k]).len() <= crate::psbt::MAX_SCRIPT_LEN,
            Option::None => true,
        }),
        i + enc_opt_vv(o).len() <= s.len(),
        s.subrange(i, i + enc_opt_vv(o).len() as int) == enc_opt_vv(o),
    ensures
        dec_opt_vv_s(s, i) == Option::Some((o, i + enc_opt_vv(o).len() as int)),
{
    let whole = enc_opt_vv(o);
    match o {
        Option::None => {
            assert(enc_u64(0) =~= whole.subrange(0, 8));
            lemma_chunk(s, i, whole, 0, enc_u64(0));
            lemma_u64_round_trip(0, s, i);
        },
        Option::Some(w) => {
            assert(enc_u64(1) =~= whole.subrange(0, 8));
            lemma_chunk(s, i, whole, 0, enc_u64(1));
            lemma_u64_round_trip(1, s, i);
            let ew = enc_vv(w);
            assert(ew =~= whole.subrange(8, 8 + ew.len() as int));
            lemma_chunk(s, i, whole, 8, ew);
            lemma_rt_vv(w, s, i + 8);
        },
    }
}

pub open spec fn abs_opt_vv(o: Option<Vec<Vec<u8>>>) -> Option<Seq<Seq<u8>>> {
    match o {
        Option::Some(w) => Option::Some(w.deep_view()),
        Option::None => Option::None,
    }
}

pub fn put_opt_vv(out: &mut Vec<u8>, o: &Option<Vec<Vec<u8>>>)
    ensures
        final(out)@ == old(out)@ + enc_opt_vv(abs_opt_vv(*o)),
{
    match o {
        Option::Some(w) => {
            put_u64(out, 1);
            put_vv(out, w);
            proof {
                assert(out@ =~= old(out)@ + enc_opt_vv(abs_opt_vv(*o)));
            }
        },
        Option::None => {
            put_u64(out, 0);
            proof {
                assert(out@ =~= old(out)@ + enc_opt_vv(abs_opt_vv(*o)));
            }
        },
    }
}

pub fn get_opt_vv(s: &Vec<u8>, i: usize) -> (r: Option<(Option<Vec<Vec<u8>>>, usize)>)
    requires
        i <= s@.len(),
    ensures
        match r {
            Option::Some((o, j)) => dec_opt_vv_s(s@, i as int) == Option::Some(
                (abs_opt_vv(o), j as int),
            ) && j <= s@.len(),
            Option::None => dec_opt_vv_s(s@, i as int) is None,
        },
{
    let (tag, j) = match get_u64(s, i) {
        Option::Some(p) => p,
        Option::None => {
            return Option::None;
        },
    };
    if tag == 0 {
        return Option::Some((Option::None, j));
    }
    if tag != 1 {
        return Option::None;
    }
    match get_vv(s, j) {
        Option::Some((w, k)) => Option::Some((Option::Some(w), k)),
        Option::None => Option::None,
    }
}

// ---- input codec ----

/// The bounds the decoder's budgets impose; every well-formed model input
/// satisfies them.
pub open spec fn wf_input_a(a: InputA) -> bool {
    &&& a.txid.len() <= crate::psbt::MAX_SCRIPT_LEN
    &&& a.script_sig.len() <= crate::psbt::MAX_SCRIPT_LEN
    &&& a.witness.len() <= crate::psbt::MAX_WITNESS_ITEMS
    &&& forall|k: int|
        0 <= k < a.witness.len() ==> (#[trigger] a.witness[k]).len()
            <= crate::psbt::MAX_SCRIPT_LEN
    &&& (match a.witness_utxo {
        Option::Some(t) => wf_txout_a(t),
        Option::None => true,
    })
    &&& (match a.non_witness_utxo {
        Option::Some(ts) => ts.len() <= crate::psbt::MAX_LIST_LEN && forall|k: int|
            0 <= k < ts.len() ==> wf_txout_a(#[trigger] ts[k]),
        Option::None => true,
    })
    &&& (match a.redeem_script {
        Option::Some(b) => b.len() <= crate::psbt::MAX_SCRIPT_LEN,
        Option::None => true,
    })
    &&& (match a.witness_script {
        Option::Some(b) => b.len() <= crate::psbt::MAX_SCRIPT_LEN,
        Option::None => true,
    })
    &&& (match a.final_script_sig {
        Option::Some(b) => b.len() <= crate::psbt::MAX_SCRIPT_LEN,
        Option::None => true,
    })
    &&& (match a.final_script_witness {
        Option::Some(w) => w.len() <= crate::psbt::MAX_WITNESS_ITEMS && forall|k: int|
            0 <= k < w.len() ==> (#[trigger] w[k]).len() <= crate::psbt::MAX_SCRIPT_LEN,
        Option::None => true,
    })
}

pub open spec fn enc_input_head(a: InputA) -> Seq<u8> {
    enc_bytes(a.txid) + enc_u32(a.vout) + enc_bytes(a.script_sig) + enc_vv(a.witness) + enc_u32(
        a.sequence,
    ) + enc_opt_txout(a.witness_utxo)
}

pub open spec fn enc_input_tail(a: InputA) -> Seq<u8> {
    enc_opt_txouts(a.non_witness_utxo) + enc_opt_bytes(a.redeem_script) + enc_opt_bytes(
        a.witness_script,
    ) + enc_opt_bytes(a.final_script_sig) + enc_opt_vv(a.final_script_witness) + enc_opt_u32(
        a.sighash_type,
    )
}

pub open spec fn enc_input(a: InputA) -> Seq<u8> {
    enc_input_head(a) + enc_input_tail(a)
}

/// Decode the first six fields, yielding an input with the remaining
/// fields cleared.
pub open spec fn dec_input_head_s(s: Seq<u8>, i: int) -> Option<(InputA, int)> {
    match dec_bytes_s(s, i, crate::psbt::MAX_SCRIPT_LEN as int) {
        Option::Some((txid, i1)) => match dec_u32_s(s, i1) {
            Option::Some((vout, i2)) => match dec_bytes_s(
                s,
                i2,
                crate::psbt::MAX_SCRIPT_LEN as int,
            ) {
                Option::Some((script_sig, i3)) => match dec_vv_s(s, i3) {
                    Option::Some((witness, i4)) => match dec_u32_s(s, i4) {
                        Option::Some((sequence, i5)) => match dec_opt_txout_s(s, i5) {
                            Option::Some((witness_utxo, i6)) => Option::Some(
                                (
                                    InputA {
                                        txid,
                                        vout,
                                        script_sig,
                                        witness,
                                        sequence,
                                        witness_utxo,
                                        non_witness_utxo: Option::None,
                                        redeem_script: Option::None,
                                        witness_script: Option::None,
                                        final_script_sig: Option::None,
                                        final_script_witness: Option::None,
                                        sighash_type: Option::None,
                                    },
                                    i6,
                                ),
                            ),
                            Option::None => Option::None,
                        },
                        Option::None => Option::None,
                    },
                    Option::None => Option::None,
                },
                Option::None => Option::None,
            },
            Option::None => Option::None,
        },
        Option::None => Option::None,
    }
}

/// Decode the last six fields into a head-decoded input.
pub open spec fn dec_input_tail_s(s: Seq<u8>, i: int, h: InputA) -> Option<(InputA, int)> {
    match dec_opt_txouts_s(s, i) {
        Option::Some((non_witness_utxo, i7)) => match dec_opt_bytes_s(s, i7) {
            Option::Some((redeem_script, i8)) => match dec_opt_bytes_s(s, i8) {
                Option::Some((witness_script, i9)) => match dec_opt_bytes_s(s, i9) {
                    Option::Some((final_script_sig, i10)) => match dec_opt_vv_s(s, i10) {
                        Option::Some((final_script_witness, i11)) => match dec_opt_u32_s(
                            s,
                            i11,
                        ) {
                            Option::Some((sighash_type, i12)) => Option::Some(
                                (
                                    InputA {
                                        non_witness_utxo,
                                        redeem_script,
                                        witness_script,
                                        final_script_sig,
                                        final_script_witness,
                                        sighash_type,
                                        ..h
                                    },
                                    i12,
                                ),
                            ),
                            Option::None => Option::None,
                        },
                        Option::None => Option::None,
                    },
                    Option::None => Option::None,
                },
                Option::None => Option::None,
            },
            Option::None => Option::None,
        },
        Option::None => Option::None,
    }
}

pub open spec fn dec_input_s(s: Seq<u8>, i: int) -> Option<(InputA, int)> {
    match dec_input_head_s(s, i) {
        Option::Some((h, m)) => dec_input_tail_s(s, m, h),
        Option::None => Option::None,
    }
}

/// The head of an input, with the tail fields cleared.
pub open spec fn head_of(a: InputA) -> InputA {
    InputA {
        non_witness_utxo: Option::None,
        redeem_script: Option::None,
        witness_script: Option::None,
        final_script_sig: Option::None,
        final_script_witness: Option::None,
        sighash_type: Option::None,
        ..a
    }
}

#[verifier::rlimit(100)]
#[verifier::spinoff_prover]
pub proof fn lemma_rt_input_head(a: InputA, s: Seq<u8>, i: int)
    requires
        0 <= i,
        wf_input_a(a),
        i + enc_input_head(a).len() <= s.len(),
        s.subrange(i, i + enc_input_head(a).len() as int) == enc_input_head(a),
    ensures
        dec_input_head_s(s, i) == Option::Some((head_of(a), i + enc_input_head(a).len() as int)),
{
    let whole = enc_input_head(a);
    let e1 = enc_bytes(a.txid);
    let e2 = enc_u32(a.vout);
    let e3 = enc_bytes(a.script_sig);
    let e4 = enc_vv(a.witness);
    let e5 = enc_u32(a.sequence);
    let e6 = enc_opt_txout(a.witness_utxo);
    let o1 = e1.len() as int;
    let o2 = o1 + e2.len();
    let o3 = o2 + e3.len();
    let o4 = o3 + e4.len();
    let o5 = o4 + e5.len();
    let o6 = o5 + e6.len();
    assert(whole.len() == o6);
    assert(e1 =~= whole.subrange(0, o1));
    lemma_chunk(s, i, whole, 0, e1);
    lemma_bytes_round_trip_s(a.txid, s, i, crate::psbt::MAX_SCRIPT_LEN as int);
    assert(e2 =~= whole.subrange(o1, o2));
    lemma_chunk(s, i, whole, o1, e2);
    lemma_rt_u32(a.vout, s, i + o1);
    assert(e3 =~= whole.subrange(o2, o3));
    lemma_chunk(s, i, whole, o2, e3);
    lemma_bytes_round_trip_s(a.script_sig, s, i + o2, crate::psbt::MAX_SCRIPT_LEN as int);
    assert(e4 =~= whole.subrange(o3, o4));
    lemma_chunk(s, i, whole, o3, e4);
    lemma_rt_vv(a.witness, s, i + o3);
    assert(e5 =~= whole.subrange(o4, o5));
    lemma_chunk(s, i, whole, o4, e5);
    lemma_rt_u32(a.sequence, s, i + o4);
    assert(e6 =~= whole.subrange(o5, o6));
    lemma_chunk(s, i, whole, o5, e6);
    lemma_rt_opt_txout(a.witness_utxo, s, i + o5);
}

#[verifier::rlimit(100)]
#[verifier::spinoff_prover]
pub proof fn lemma_rt_input_tail(a: InputA, s: Seq<u8>, i: int, h: InputA)
    requires
        0 <= i,
        wf_input_a(a),
        h == head_of(a),
        i + enc_input_tail(a).len() <= s.len(),
        s.subrange(i, i + enc_input_tail(a).len() as int) == enc_input_tail(a),
    ensures
        dec_input_tail_s(s, i, h) == Option::Some((a, i + enc_input_tail(a).len() as int)),
{
    let whole = enc_input_tail(a);
    let e7 = enc_opt_txouts(a.non_witness_utxo);
    let e8 = enc_opt_bytes(a.redeem_script);
    let e9 = enc_opt_bytes(a.witness_script);
    let e10 = enc_opt_bytes(a.final_script_sig);
    let e11 = enc_opt_vv(a.final_script_witness);
    let e12 = enc_opt_u32(a.sighash_type);
    let o7 = e7.len() as int;
    let o8 = o7 + e8.len();
    let o9 = o8 + e9.len();
    let o10 = o9 + e10.len();
    let o11 = o10 + e11.len();
    let o12 = o11 + e12.len();
    assert(whole.len() == o12);
    assert(e7 =~= whole.subrange(0, o7));
    lemma_chunk(s, i, whole, 0, e7);
    lemma_rt_opt_txouts(a.non_witness_utxo, s, i);
    assert(e8 =~= whole.subrange(o7, o8));
    lemma_chunk(s, i, whole, o7, e8);
    lemma_rt_opt_bytes(a.redeem_script, s, i + o7);
    assert(e9 =~= whole.subrange(o8, o9));
    lemma_chunk(s, i, whole, o8, e9);
    lemma_rt_opt_bytes(a.witness_script, s, i + o8);
    assert(e10 =~= whole.subrange(o9, o10));
    lemma_chunk(s, i, whole, o9, e10);
    lemma_rt_opt_bytes(a.final_script_sig, s, i + o9);
    assert(e11 =~= whole.subrange(o10, o11));
    lemma_chunk(s, i, whole, o10, e11);
    lemma_rt_opt_vv(a.final_script_witness, s, i + o10);
    assert(e12 =~= whole.subrange(o11, o12));
    lemma_chunk(s, i, whole, o11, e12);
    lemma_rt_opt_u32(a.sighash_type, s, i + o11);
}

pub proof fn lemma_rt_input(a: InputA, s: Seq<u8>, i: int)
    requires
        0 <= i,
        wf_input_a(a),
        i + enc_input(a).len() <= s.len(),
        s.subrange(i, i + enc_input(a).len() as int) == enc_input(a),
    ensures
        dec_input_s(s, i) == Option::Some((a, i + enc_input(a).len() as int)),
{
    let whole = enc_input(a);
    let eh = enc_input_head(a);
    let et = enc_input_tail(a);
    assert(eh =~= whole.subrange(0, eh.len() as int));
    lemma_chunk(s, i, whole, 0, eh);
    lemma_rt_input_head(a, s, i);
    assert(et =~= whole.subrange(eh.len() as int, whole.len() as int));
    lemma_chunk(s, i, whole, eh.len() as int, et);
    lemma_rt_input_tail(a, s, i + eh.len(), head_of(a));
}

/// Append the first six fields of one input.
#[verifier::rlimit(100)]
#[verifier::spinoff_prover]
fn put_input_head(out: &mut Vec<u8>, a: &InputPair)
    ensures
        final(out)@ == old(out)@ + enc_input_head(abs_input(*a)),
{
    put_bytes(out, &a.txid);
    put_u32(out, a.vout);
    put_bytes(out, &a.script_sig);
    put_vv(out, &a.witness);
    put_u32(out, a.sequence);
    put_opt_txout(out, &a.witness_utxo);
    proof {
        assert(out@ =~= old(out)@ + enc_input_head(abs_input(*a)));
    }
}

/// Append the last six fields of one input.
#[verifier::rlimit(100)]
#[verifier::spinoff_prover]
fn put_input_tail(out: &mut Vec<u8>, a: &InputPair)
    ensures
        final(out)@ == old(out)@ + enc_input_tail(abs_input(*a)),
{
    put_opt_txouts(out, &a.non_witness_utxo);
    put_opt_bytes(out, &a.redeem_script);
    put_opt_bytes(out, &a.witness_script);
    put_opt_bytes(out, &a.final_script_sig);
    put_opt_vv(out, &a.final_script_witness);
    put_opt_u32(out, &a.sighash_type);
    proof {
        assert(abs_opt_vv(a.final_script_witness) == abs_input(*a).final_script_witness);
        assert(out@ =~= old(out)@ + enc_input_tail(abs_input(*a)));
    }
}

/// Append one input.
pub fn put_input(out: &mut Vec<u8>, a: &InputPair)
    ensures
        final(out)@ == old(out)@ + enc_input(abs_input(*a)),
{
    put_input_head(out, a);
    put_input_tail(out, a);
    proof {
        assert(out@ =~= old(out)@ + enc_input(abs_input(*a)));
    }
}

/// Read one input.
pub fn get_input(s: &Vec<u8>, i: usize) -> (r: Option<(InputPair, usize)>)
    requires
        i <= s@.len(),
    ensures
        match r {
            Option::Some((a, j)) => dec_input_s(s@, i as int) == Option::Some(
                (abs_input(a), j as int),
            ) && j <= s@.len(),
            Option::None => dec_input_s(s@, i as int) is None,
        },
{
    let (txid, i1) = match get_bytes(s, i, crate::psbt::MAX_SCRIPT_LEN) {
        Option::Some(p) => p,
        Option::None => {
            return Option::None;
        },
    };
    let (vout, i2) = match get_u32(s, i1) {
        Option::Some(p) => p,
        Option::None => {
            return Option::None;
        },
    };
    let (script_sig, i3) = match get_bytes(s, i2, crate::psbt::MAX_SCRIPT_LEN) {
        Option::Some(p) => p,
        Option::None => {
            return Option::None;
        },
    };
    let (witness, i4) = match get_vv(s, i3) {
        Option::Some(p) => p,
        Option::None => {
            return Option::None;
        },
    };
    let (sequence, i5) = match get_u32(s, i4) {
        Option::Some(p) => p,
        Option::None => {
            return Option::None;
        },
    };
    let (witness_utxo, i6) = match get_opt_txout(s, i5) {
        Option::Some(p) => p,
        Option::None => {
            return Option::None;
        },
    };
    let (non_witness_utxo, i7) = match get_opt_txouts(s, i6) {
        Option::Some(p) => p,
        Option::None => {
            return Option::None;
        },
    };
    let (redeem_script, i8) = match get_opt_bytes(s, i7) {
        Option::Some(p) => p,
        Option::None => {
            return Option::None;
        },
    };
    let (witness_script, i9) = match get_opt_bytes(s, i8) {
        Option::Some(p) => p,
        Option::None => {
            return Option::None;
        },
    };
    let (final_script_sig, i10) = match get_opt_bytes(s, i9) {
        Option::Some(p) => p,
        Option::None => {
            return Option::None;
        },
    };
    let (final_script_witness, i11) = match get_opt_vv(s, i10) {
        Option::Some(p) => p,
        Option::None => {
            return Option::None;
        },
    };
    let (sighash_type, i12) = match get_opt_u32(s, i11) {
        Option::Some(p) => p,
        Option::None => {
            return Option::None;
        },
    };
    let a = InputPair {
        txid,
        vout,
        script_sig,
        witness,
        sequence,
        witness_utxo,
        non_witness_utxo,
        redeem_script,
        witness_script,
        final_script_sig,
        final_script_witness,
        sighash_type,
    };
    proof {
        assert(a.witness.deep_view() == abs_input(a).witness);
        assert(abs_opt_txouts(a.non_witness_utxo) == abs_input(a).non_witness_utxo);
        assert(abs_opt_vv(a.final_script_witness) == abs_input(a).final_script_witness);
    }
    Option::Some((a, i12))
}

// ---- input list and whole-psbt codec ----

pub open spec fn enc_input_list(ins: Seq<InputA>) -> Seq<u8>
    decreases ins.len(),
{
    if ins.len() == 0 {
        Seq::empty()
    } else {
        enc_input(ins.first()) + enc_input_list(ins.drop_first())
    }
}

pub open spec fn dec_input_list_s(s: Seq<u8>, i: int, n: int, acc: Seq<InputA>) -> Option<
    (Seq<InputA>, int),
>
    decreases n,
{
    if n <= 0 {
        Option::Some((acc, i))
    } else {
        match dec_input_s(s, i) {
            Option::Some((a, j)) => dec_input_list_s(s, j, n - 1, acc.push(a)),
            Option::None => Option::None,
        }
    }
}

pub proof fn lemma_enc_input_list_snoc(ins: Seq<InputA>, a: InputA)
    ensures
        enc_input_list(ins.push(a)) == enc_input_list(ins) + enc_input(a),
    decreases ins.len(),
{
    if ins.len() == 0 {
        assert(ins.push(a).drop_first() =~= Seq::<InputA>::empty());
        assert(ins.push(a).first() == a);
        assert(enc_input_list(Seq::<InputA>::empty()) =~= Seq::<u8>::empty());
        assert(enc_input_list(ins.push(a)) =~= enc_input_list(ins) + enc_input(a));
    } else {
        assert(ins.push(a).drop_first() =~= ins.drop_first().push(a));
        assert(ins.push(a).first() == ins.first());
        lemma_enc_input_list_snoc(ins.drop_first(), a);
        assert(enc_input_list(ins.push(a)) =~= enc_input_list(ins) + enc_input(a));
    }
}

#[verifier::rlimit(100)]
#[verifier::spinoff_prover]
pub proof fn lemma_rt_input_list(ins: Seq<InputA>, s: Seq<u8>, i: int, acc: Seq<InputA>)
    requires
        0 <= i,
        forall|k: int| 0 <= k < ins.len() ==> wf_input_a(#[trigger] ins[k]),
        i + enc_input_list(ins).len() <= s.len(),
        s.subrange(i, i + enc_input_list(ins).len() as int) == enc_input_list(ins),
    ensures
        dec_input_list_s(s, i, ins.len() as int, acc) == Option::Some(
            (acc + ins, i + enc_input_list(ins).len() as int),
        ),
    decreases ins.len(),
{
    if ins.len() == 0 {
        assert(acc + ins =~= acc);
    } else {
        let whole = enc_input_list(ins);
        let e0 = enc_input(ins.first());
        assert(e0 =~= whole.subrange(0, e0.len() as int));
        lemma_chunk(s, i, whole, 0, e0);
        lemma_rt_input(ins.first(), s, i);
        let rest = enc_input_list(ins.drop_first());
        assert(rest =~= whole.subrange(e0.len() as int, whole.len() as int));
        lemma_chunk(s, i, whole, e0.len() as int, rest);
        lemma_rt_input_list(ins.drop_first(), s, i + e0.len(), acc.push(ins.first()));
        assert(acc.push(ins.first()) + ins.drop_first() =~= acc + ins);
    }
}

pub open spec fn enc_psbt(p: PsbtA) -> Seq<u8> {
    enc_u32(p.version) + enc_u64(p.inputs.len() as u64) + enc_input_list(p.inputs) + enc_txouts(
        p.outputs,
    ) + enc_u32(p.locktime)
}

pub open spec fn dec_psbt_s(s: Seq<u8>, i: int) -> Option<(PsbtA, int)> {
    match dec_u32_s(s, i) {
        Option::Some((version, i0)) => match dec_u64s(s, i0) {
            Option::Some((n, j)) => if n <= crate::psbt::MAX_LIST_LEN as u64 {
                match dec_input_list_s(s, j, n as int, Seq::empty()) {
                    Option::Some((ins, k)) => match dec_txouts_s(s, k) {
                        Option::Some((outs, m)) => match dec_u32_s(s, m) {
                            Option::Some((locktime, e)) => Option::Some(
                                (PsbtA { version, inputs: ins, outputs: outs, locktime }, e),
                            ),
                            Option::None => Option::None,
                        },
                        Option::None => Option::None,
                    },
                    Option::None => Option::None,
                }
            } else {
                Option::None
            },
            Option::None => Option::None,
        },
        Option::None => Option::None,
    }
}

/// The decoder's budgets, satisfied by every well-formed model.
pub open spec fn wf_psbt_a(p: PsbtA) -> bool {
    &&& p.inputs.len() <= crate::psbt::MAX_LIST_LEN
    &&& forall|k: int| 0 <= k < p.inputs.len() ==> wf_input_a(#[trigger] p.inputs[k])
    &&& p.outputs.len() <= crate::psbt::MAX_LIST_LEN
    &&& forall|k: int| 0 <= k < p.outputs.len() ==> wf_txout_a(#[trigger] p.outputs[k])
}

/// Decoding inverts encoding: the serialize→deserialize round trip gives
/// back the same abstract transaction.
#[verifier::rlimit(100)]
#[verifier::spinoff_prover]
pub proof fn lemma_rt_psbt(p: PsbtA, s: Seq<u8>, i: int)
    requires
        0 <= i,
        wf_psbt_a(p),
        i + enc_psbt(p).len() <= s.len(),
        s.subrange(i, i + enc_psbt(p).len() as int) == enc_psbt(p),
    ensures
        dec_psbt_s(s, i) == Option::Some((p, i + enc_psbt(p).len() as int)),
{
    let whole = enc_psbt(p);
    let e0 = enc_u32(p.version);
    let e1 = enc_u64(p.inputs.len() as u64);
    let e2 = enc_input_list(p.inputs);
    let e3 = enc_txouts(p.outputs);
    let e4 = enc_u32(p.locktime);
    let o0 = e0.len() as int;
    let o1 = o0 + e1.len();
    let o2 = o1 + e2.len();
    let o3 = o2 + e3.len();
    let o4 = o3 + e4.len();
    assert(whole.len() == o4);
    assert(e0 =~= whole.subrange(0, o0));
    lemma_chunk(s, i, whole, 0, e0);
    lemma_rt_u32(p.version, s, i);
    assert(e1 =~= whole.subrange(o0, o1));
    lemma_chunk(s, i, whole, o0, e1);
    lemma_u64_round_trip(p.inputs.len() as u64, s, i + o0);
    assert(e2 =~= whole.subrange(o1, o2));
    lemma_chunk(s, i, whole, o1, e2);
    lemma_rt_input_list(p.inputs, s, i + o1, Seq::empty());
    assert(Seq::<InputA>::empty() + p.inputs =~= p.inputs);
    assert(e3 =~= whole.subrange(o2, o3));
    lemma_chunk(s, i, whole, o2, e3);
    lemma_rt_txouts(p.outputs, s, i + o2);
    assert(e4 =~= whole.subrange(o3, o4));
    lemma_chunk(s, i, whole, o3, e4);
    lemma_rt_u32(p.locktime, s, i + o3);
}

/// Every well-formed model satisfies the decoder's budgets.
pub proof fn lemma_wf_abs(p: Psbt)
    requires
        p.wf(),
    ensures
        wf_psbt_a(abs_psbt(p)),
{
    let a = abs_psbt(p);
    assert forall|k: int| 0 <= k < a.inputs.len() implies wf_input_a(#[trigger] a.inputs[k]) by {
        let ip = p.inputs@[k];
        assert(ip.wf());
        assert(a.inputs[k] == abs_input(ip));
        assert(ip.witness.deep_view().len() == ip.witness@.len());
        assert forall|q: int|
            0 <= q < ip.witness.deep_view().len() implies (#[trigger] ip.witness.deep_view()[q]).len()
            <= crate::psbt::MAX_SCRIPT_LEN by {
            assert(ip.witness.deep_view()[q] == ip.witness@[q].deep_view());
            assert(ip.witness@[q].deep_view() =~= ip.witness@[q]@);
        }
        match ip.witness_utxo {
            Option::Some(t) => {
                assert(t.wf());
            },
            Option::None => {},
        }
        match ip.non_witness_utxo {
            Option::Some(outs) => {
                assert forall|q: int|
                    0 <= q < abs_txouts(outs@).len() implies wf_txout_a(
                    #[trigger] abs_txouts(outs@)[q],
                ) by {
                    assert(abs_txouts(outs@)[q] == abs_txout(outs@[q]));
                }
            },
            Option::None => {},
        }
        match ip.redeem_script {
            Option::Some(b) => {
                assert(b.deep_view() =~= b@);
            },
            Option::None => {},
        }
        match ip.witness_script {
            Option::Some(b) => {
                assert(b.deep_view() =~= b@);
            },
            Option::None => {},
        }
        match ip.final_script_sig {
            Option::Some(b) => {
                assert(b.deep_view() =~= b@);
            },
            Option::None => {},
        }
        match ip.final_script_witness {
            Option::Some(w) => {
                assert forall|q: int|
                    0 <= q < w.deep_view().len() implies (#[trigger] w.deep_view()[q]).len()
                    <= crate::psbt::MAX_SCRIPT_LEN by {
                    assert(w.deep_view()[q] == w@[q].deep_view());
                    assert(w@[q].deep_view() =~= w@[q]@);
                }
                assert(w.deep_view().len() == w@.len());
            },
            Option::None => {},
        }
    }
    assert forall|k: int| 0 <= k < a.outputs.len() implies wf_txout_a(#[trigger] a.outputs[k]) by {
        assert(p.outputs@[k].wf());
        assert(a.outputs[k] == abs_txout(p.outputs@[k]));
    }
}

/// Serialize a transaction model.
pub fn encode_psbt(p: &Psbt) -> (r: Vec<u8>)
    ensures
        r@ == enc_psbt(abs_psbt(*p)),
{
    let mut out: Vec<u8> = Vec::new();
    put_u32(&mut out, p.version);
    put_u64(&mut out, p.inputs.len() as u64);
    let ghost mid = out@;
    let mut i: usize = 0;
    while i < p.inputs.len()
        invariant
            0 <= i <= p.inputs@.len(),
            out@ == mid + enc_input_list(abs_inputs(p.inputs@.take(i as int))),
        decreases p.inputs@.len() - i,
    {
        put_input(&mut out, &p.inputs[i]);
        proof {
            assert(abs_inputs(p.inputs@.take(i + 1)) =~= abs_inputs(
                p.inputs@.take(i as int),
            ).push(abs_input(p.inputs@[i as int])));
            lemma_enc_input_list_snoc(
                abs_inputs(p.inputs@.take(i as int)),
                abs_input(p.inputs@[i as int]),
            );
        }
        i += 1;
    }
    proof {
        assert(p.inputs@.take(p.inputs@.len() as int) =~= p.inputs@);
    }
    put_txouts(&mut out, &p.outputs);
    put_u32(&mut out, p.locktime);
    proof {
        assert(out@ =~= enc_psbt(abs_psbt(*p)));
    }
    out
}

/// Deserialize a transaction model.
#[verifier::rlimit(100)]
#[verifier::spinoff_prover]
pub fn decode_psbt(s: &Vec<u8>, i: usize) -> (r: Option<(Psbt, usize)>)
    ensures
        match r {
            Option::Some((p, j)) => dec_psbt_s(s@, i as int) == Option::Some(
                (abs_psbt(p), j as int),
            ) && j <= s@.len(),
            Option::None => dec_psbt_s(s@, i as int) is None,
        },
{
    let (version, i0) = match get_u32(s, i) {
        Option::Some(p) => p,
        Option::None => {
            return Option::None;
        },
    };
    let (n, j) = match get_u64(s, i0) {
        Option::Some(p) => p,
        Option::None => {
            return Option::None;
        },
    };
    if n > crate::psbt::MAX_LIST_LEN as u64 {
        return Option::None;
    }
    let mut ins: Vec<InputPair> = Vec::new();
    let mut idx: usize = j;
    let mut remaining: u64 = n;
    proof {
        assert(abs_inputs(ins@) =~= Seq::<InputA>::empty());
    }
    while remaining > 0
        invariant
            idx <= s@.len(),
            remaining <= n,
            ins@.len() == n - remaining,
            dec_u32_s(s@, i as int) == Option::Some((version, i0 as int)),
            dec_u64s(s@, i0 as int) == Option::Some((n, j as int)),
            n <= crate::psbt::MAX_LIST_LEN as u64,
            dec_input_list_s(s@, j as int, n as int, Seq::empty()) == dec_input_list_s(
                s@,
                idx as int,
                remaining as int,
                abs_inputs(ins@),
            ),
        decreases remaining,
    {
        let ghost old_abs = abs_inputs(ins@);
        let (a, j2) = match get_input(s, idx) {
            Option::Some(p) => p,
            Option::None => {
                proof {
                    assert(dec_input_list_s(
                        s@,
                        idx as int,
                        remaining as int,
                        abs_inputs(ins@),
                    ) is None);
                    assert(dec_psbt_s(s@, i as int) is None);
                }
                return Option::None;
            },
        };
        let ghost av = abs_input(a);
        ins.push(a);
        proof {
            assert(abs_inputs(ins@) =~= old_abs.push(av));
        }
        idx = j2;
        remaining = remaining - 1;
    }
    let (outs, k) = match get_txouts(s, idx) {
        Option::Some(p) => p,
        Option::None => {
            return Option::None;
        },
    };
    let (locktime, m) = match get_u32(s, k) {
        Option::Some(p) => p,
        Option::None => {
            return Option::None;
        },
    };
    let p = Psbt { version, inputs: ins, outputs: outs, locktime };
    Option::Some((p, m))
}

// ---- well-formedness is determined by the abstraction ----

proof fn lemma_input_utxo_abs(i1: InputPair, i2: InputPair)
    requires
        abs_input(i1) == abs_input(i2),
    ensures
        i1.resolvable() == i2.resolvable(),
        i1.resolvable() ==> abs_txout(i1.utxo()) == abs_txout(i2.utxo()),
{
    match (i1.witness_utxo, i2.witness_utxo) {
        (Option::Some(t1), Option::Some(t2)) => {
            assert(abs_txout(t1) == abs_txout(t2));
        },
        (Option::None, Option::None) => {
            match (i1.non_witness_utxo, i2.non_witness_utxo) {
                (Option::Some(o1), Option::Some(o2)) => {
                    assert(abs_txouts(o1@).len() == abs_txouts(o2@).len());
                    assert(o1@.len() == o2@.len());
                    if (i1.vout as int) < o1@.len() {
                        assert(abs_txouts(o1@)[i1.vout as int] == abs_txout(o1@[i1.vout as int]));
                        assert(abs_txouts(o2@)[i2.vout as int] == abs_txout(o2@[i2.vout as int]));
                    }
                },
                (Option::None, Option::None) => {},
                _ => {
                    assert(false);
                },
            }
        },
        _ => {
            assert(false);
        },
    }
}

#[verifier::rlimit(60)]
#[verifier::spinoff_prover]
proof fn lemma_input_wf_abs(i1: InputPair, i2: InputPair)
    requires
        abs_input(i1) == abs_input(i2),
    ensures
        i1.wf() == i2.wf(),
{
    lemma_input_utxo_abs(i1, i2);
    if i1.resolvable() {
        assert(abs_txout(i1.utxo()) == abs_txout(i2.utxo()));
        assert(i1.utxo().value_sat == i2.utxo().value_sat);
        assert(i1.utxo().script_pubkey@ == i2.utxo().script_pubkey@);
        assert(i1.utxo().wf() == i2.utxo().wf());
    }
    assert(i1.witness.deep_view() == i2.witness.deep_view());
    assert(i1.witness.deep_view().len() == i1.witness@.len());
    assert(i2.witness.deep_view().len() == i2.witness@.len());
    assert(i1.witness@.len() == i2.witness@.len());
    assert forall|k: int|
        #![trigger i1.witness@[k]]
        #![trigger i2.witness@[k]]
        0 <= k < i1.witness@.len() implies i1.witness@[k]@ == i2.witness@[k]@ by {
        assert(i1.witness.deep_view()[k] == i1.witness@[k].deep_view());
        assert(i2.witness.deep_view()[k] == i2.witness@[k].deep_view());
        assert(i1.witness@[k].deep_view() =~= i1.witness@[k]@);
        assert(i2.witness@[k].deep_view() =~= i2.witness@[k]@);
    }
    match (i1.non_witness_utxo, i2.non_witness_utxo) {
        (Option::Some(o1), Option::Some(o2)) => {
            assert(abs_txouts(o1@).len() == o1@.len());
            assert(abs_txouts(o2@).len() == o2@.len());
            assert forall|k: int|
                #![trigger o1@[k]]
                #![trigger o2@[k]]
                0 <= k < o1@.len() implies o1@[k].script_pubkey@ == o2@[k].script_pubkey@ by {
                assert(abs_txouts(o1@)[k] == abs_txout(o1@[k]));
                assert(abs_txouts(o2@)[k] == abs_txout(o2@[k]));
            }
        },
        (Option::None, Option::None) => {},
        _ => {
            assert(false);
        },
    }
    match (i1.redeem_script, i2.redeem_script) {
        (Option::Some(b1), Option::Some(b2)) => {
            assert(b1.deep_view() =~= b1@);
            assert(b2.deep_view() =~= b2@);
        },
        (Option::None, Option::None) => {},
        _ => {
            assert(false);
        },
    }
    match (i1.witness_script, i2.witness_script) {
        (Option::Some(b1), Option::Some(b2)) => {
            assert(b1.deep_view() =~= b1@);
            assert(b2.deep_view() =~= b2@);
        },
        (Option::None, Option::None) => {},
        _ => {
            assert(false);
        },
    }
    match (i1.final_script_sig, i2.final_script_sig) {
        (Option::Some(b1), Option::Some(b2)) => {
            assert(b1.deep_view() =~= b1@);
            assert(b2.deep_view() =~= b2@);
        },
        (Option::None, Option::None) => {},
        _ => {
            assert(false);
        },
    }
    match (i1.final_script_witness, i2.final_script_witness) {
        (Option::Some(w1), Option::Some(w2)) => {
            assert(w1.deep_view() == w2.deep_view());
            assert(w1.deep_view().len() == w1@.len());
            assert(w2.deep_view().len() == w2@.len());
            assert(w1@.len() == w2@.len());
            assert forall|k: int|
                #![trigger w1@[k]]
                #![trigger w2@[k]]
                0 <= k < w1@.len() implies w1@[k]@ == w2@[k]@ by {
                assert(w1.deep_view()[k] == w1@[k].deep_view());
                assert(w2.deep_view()[k] == w2@[k].deep_view());
                assert(w1@[k].deep_view() =~= w1@[k]@);
                assert(w2@[k].deep_view() =~= w2@[k]@);
            }
        },
        (Option::None, Option::None) => {},
        _ => {
            assert(false);
        },
    }
}

proof fn lemma_sum_out_abs(o1: Seq<TxOut>, o2: Seq<TxOut>)
    requires
        abs_txouts(o1) == abs_txouts(o2),
    ensures
        crate::psbt::sum_out(o1) == crate::psbt::sum_out(o2),
    decreases o1.len(),
{
    assert(abs_txouts(o1).len() == o1.len());
    assert(abs_txouts(o2).len() == o2.len());
    assert(o1.len() == o2.len());
    if o1.len() > 0 {
        assert(abs_txouts(o1.drop_last()) =~= abs_txouts(o1).drop_last());
        assert(abs_txouts(o2.drop_last()) =~= abs_txouts(o2).drop_last());
        lemma_sum_out_abs(o1.drop_last(), o2.drop_last());
        assert(abs_txouts(o1)[o1.len() - 1] == abs_txout(o1.last()));
        assert(abs_txouts(o2)[o2.len() - 1] == abs_txout(o2.last()));
    }
}

proof fn lemma_sum_in_abs(s1: Seq<InputPair>, s2: Seq<InputPair>)
    requires
        abs_inputs(s1) == abs_inputs(s2),
        forall|k: int| 0 <= k < s1.len() ==> (#[trigger] s1[k]).resolvable(),
    ensures
        crate::psbt::sum_in(s1) == crate::psbt::sum_in(s2),
    decreases s1.len(),
{
    assert(abs_inputs(s1).len() == s1.len());
    assert(abs_inputs(s2).len() == s2.len());
    assert(s1.len() == s2.len());
    if s1.len() > 0 {
        assert(abs_inputs(s1.drop_last()) =~= abs_inputs(s1).drop_last());
        assert(abs_inputs(s2.drop_last()) =~= abs_inputs(s2).drop_last());
        lemma_sum_in_abs(s1.drop_last(), s2.drop_last());
        assert(abs_inputs(s1)[s1.len() - 1] == abs_input(s1.last()));
        assert(abs_inputs(s2)[s2.len() - 1] == abs_input(s2.last()));
        lemma_input_utxo_abs(s1.last(), s2.last());
    }
}

/// Two models with the same abstraction are well-formed together or not
/// at all: well-formedness reads only what the abstraction keeps.
pub proof fn lemma_psbt_wf_abs(p1: Psbt, p2: Psbt)
    requires
        abs_psbt(p1) == abs_psbt(p2),
    ensures
        p1.wf() == p2.wf(),
{
    assert(abs_inputs(p1.inputs@).len() == p1.inputs@.len());
    assert(abs_inputs(p2.inputs@).len() == p2.inputs@.len());
    assert(abs_txouts(p1.outputs@).len() == p1.outputs@.len());
    assert(abs_txouts(p2.outputs@).len() == p2.outputs@.len());
    assert forall|k: int|
        #![trigger p1.inputs@[k]]
        #![trigger p2.inputs@[k]]
        0 <= k < p1.inputs@.len() implies p1.inputs@[k].wf() == p2.inputs@[k].wf() by {
        assert(abs_inputs(p1.inputs@)[k] == abs_input(p1.inputs@[k]));
        assert(abs_inputs(p2.inputs@)[k] == abs_input(p2.inputs@[k]));
        lemma_input_wf_abs(p1.inputs@[k], p2.inputs@[k]);
    }
    assert forall|k: int|
        #![trigger p1.outputs@[k]]
        #![trigger p2.outputs@[k]]
        0 <= k < p1.outputs@.len() implies p1.outputs@[k].wf() == p2.outputs@[k].wf() by {
        assert(abs_txouts(p1.outputs@)[k] == abs_txout(p1.outputs@[k]));
        assert(abs_txouts(p2.outputs@)[k] == abs_txout(p2.outputs@[k]));
    }
    lemma_sum_out_abs(p1.outputs@, p2.outputs@);
    if forall|k: int| 0 <= k < p1.inputs@.len() ==> (#[trigger] p1.inputs@[k]).resolvable() {
        lemma_sum_in_abs(p1.inputs@, p2.inputs@);
    } else {
        let w = choose|k: int|
            0 <= k < p1.inputs@.len() && !(#[trigger] p1.inputs@[k]).resolvable();
        assert(abs_inputs(p1.inputs@)[w] == abs_input(p1.inputs@[w]));
        assert(abs_inputs(p2.inputs@)[w] == abs_input(p2.inputs@[w]));
        lemma_input_utxo_abs(p1.inputs@[w], p2.inputs@[w]);
        assert(!p1.inputs@[w].wf());
        assert(!p2.inputs@[w].wf());
        assert(!p1.wf());
        assert(!p2.wf());
    }
}

// ---- Bitcoin consensus transaction serialization ----

/// Bitcoin's compact-size length prefix.
pub open spec fn enc_varint(n: int) -> Seq<u8>
    recommends
        0 <= n < 0x1_0000_0000_0000_0000,
{
    if n < 0xfd {
        seq![n as u8]
    } else if n <= 0xffff {
        seq![0xfdu8, (n % 256) as u8, (n / 256 % 256) as u8]
    } else if n <= 0xffff_ffff {
        seq![
            0xfeu8,
            (n % 256) as u8,
            (n / 256 % 256) as u8,
            (n / 65536 % 256) as u8,
            (n / 16777216 % 256) as u8,
        ]
    } else {
        seq![
            0xffu8,
            (n % 256) as u8,
            (n / 256 % 256) as u8,
            (n / 65536 % 256) as u8,
            (n / 16777216 % 256) as u8,
            (n / 4294967296 % 256) as u8,
            (n / 1099511627776 % 256) as u8,
            (n / 281474976710656 % 256) as u8,
            (n / 72057594037927936 % 256) as u8,
        ]
    }
}

/// A four-byte little-endian field.
pub open spec fn enc_u32le(x: u32) -> Seq<u8> {
    seq![(x & 0xff) as u8, ((x >> 8) & 0xff) as u8, ((x >> 16) & 0xff) as u8, ((x >> 24)
        & 0xff) as u8]
}

/// A byte sequence in reverse order: transaction ids are displayed
/// byte-reversed relative to their serialized form.
pub open spec fn rev_bytes(s: Seq<u8>) -> Seq<u8> {
    Seq::new(s.len(), |i: int| s[s.len() - 1 - i])
}

/// Append a compact-size prefix.
pub fn put_varint(out: &mut Vec<u8>, n: u64)
    ensures
        final(out)@ == old(out)@ + enc_varint(n as int),
{
    if n < 0xfd {
        out.push(n as u8);
        proof {
            assert(out@ =~= old(out)@ + enc_varint(n as int));
        }
    } else if n <= 0xffff {
        out.push(0xfd);
        out.push((n % 256) as u8);
        out.push((n / 256 % 256) as u8);
        proof {
            assert(out@ =~= old(out)@ + enc_varint(n as int));
        }
    } else if n <= 0xffff_ffff {
        out.push(0xfe);
        out.push((n % 256) as u8);
        out.push((n / 256 % 256) as u8);
        out.push((n / 65536 % 256) as u8);
        out.push((n / 16777216 % 256) as u8);
        proof {
            assert(out@ =~= old(out)@ + enc_varint(n as int));
        }
    } else {
        out.push(0xff);
        out.push((n % 256) as u8);
        out.push((n / 256 % 256) as u8);
        out.push((n / 65536 % 256) as u8);
        out.push((n / 16777216 % 256) as u8);
        out.push((n / 4294967296 % 256) as u8);
        out.push((n / 1099511627776 % 256) as u8);
        out.push((n / 281474976710656 % 256) as u8);
        out.push((n / 72057594037927936 % 256) as u8);
        proof {
            assert(out@ =~= old(out)@ + enc_varint(n as int));
        }
    }
}

/// Append a four-byte little-endian field.
pub fn put_u32le(out: &mut Vec<u8>, x: u32)
    ensures
        final(out)@ == old(out)@ + enc_u32le(x),
{
    out.push((x & 0xff) as u8);
    out.push(((x >> 8) & 0xff) as u8);
    out.push(((x >> 16) & 0xff) as u8);
    out.push(((x >> 24) & 0xff) as u8);
    proof {
        assert(out@ =~= old(out)@ + enc_u32le(x));
    }
}

/// Append bytes in reverse order.
pub fn put_rev_bytes(out: &mut Vec<u8>, b: &Vec<u8>)
    ensures
        final(out)@ == old(out)@ + rev_bytes(b@),
{
    let mut i: usize = b.len();
    let ghost base = out@;
    while i > 0
        invariant
            0 <= i <= b@.len(),
            out@ == base + rev_bytes(b@).take((b@.len() - i) as int),
        decreases i,
    {
        i -= 1;
        out.push(b[i]);
        proof {
            assert(rev_bytes(b@)[(b@.len() - i - 1) as int] == b@[i as int]);
            assert(base + rev_bytes(b@).take((b@.len() - i) as int) =~= (base + rev_bytes(
                b@,
            ).take((b@.len() - i - 1) as int)).push(b@[i as int]));
        }
    }
    proof {
        assert(rev_bytes(b@).take(b@.len() as int) =~= rev_bytes(b@));
    }
}

/// Reverse bytes into a fresh vector.
pub fn rev_bytes_exec(b: &Vec<u8>) -> (r: Vec<u8>)
    ensures
        r@ == rev_bytes(b@),
{
    let mut r: Vec<u8> = Vec::new();
    put_rev_bytes(&mut r, b);
    r
}

/// One input's consensus form: the reversed previous txid, the output
/// index, the script sig with its length, and the sequence number.
pub open spec fn ser_tx_in(a: InputA) -> Seq<u8> {
    rev_bytes(a.txid) + enc_u32le(a.vout) + enc_varint(a.script_sig.len() as int)
        + a.script_sig + enc_u32le(a.sequence)
}

pub open spec fn ser_tx_ins(ins: Seq<InputA>) -> Seq<u8>
    decreases ins.len(),
{
    if ins.len() == 0 {
        Seq::empty()
    } else {
        ser_tx_in(ins.first()) + ser_tx_ins(ins.drop_first())
    }
}

/// One output's consensus form: the value and the script with its
/// length.
pub open spec fn ser_tx_out(t: TxOutA) -> Seq<u8> {
    enc_u64(t.value_sat) + enc_varint(t.script_pubkey.len() as int) + t.script_pubkey
}

pub open spec fn ser_tx_outs(ts: Seq<TxOutA>) -> Seq<u8>
    decreases ts.len(),
{
    if ts.len() == 0 {
        Seq::empty()
    } else {
        ser_tx_out(ts.first()) + ser_tx_outs(ts.drop_first())
    }
}

/// One witness stack's consensus form: the item count, then each item
/// with its length.
pub open spec fn ser_wit_items(w: Seq<Seq<u8>>) -> Seq<u8>
    decreases w.len(),
{
    if w.len() == 0 {
        Seq::empty()
    } else {
        enc_varint(w.first().len() as int) + w.first() + ser_wit_items(w.drop_first())
    }
}

/// A witness stack's consensus form: the item count, then the items.
pub open spec fn ser_stack(w: Seq<Seq<u8>>) -> Seq<u8> {
    enc_varint(w.len() as int) + ser_wit_items(w)
}

pub open spec fn ser_wit(a: InputA) -> Seq<u8> {
    ser_stack(a.witness)
}

pub open spec fn ser_wits(ins: Seq<InputA>) -> Seq<u8>
    decreases ins.len(),
{
    if ins.len() == 0 {
        Seq::empty()
    } else {
        ser_wit(ins.first()) + ser_wits(ins.drop_first())
    }
}

/// Does any input carry a witness?
pub open spec fn has_witness(ins: Seq<InputA>) -> bool {
    exists|i: int| 0 <= i < ins.len() && (#[trigger] ins[i]).witness.len() > 0
}

/// The transaction's Bitcoin consensus serialization without witness
/// data: the form whose double-SHA256 is the transaction id.
pub open spec fn ser_tx_legacy(p: PsbtA) -> Seq<u8> {
    enc_u32le(p.version) + enc_varint(p.inputs.len() as int) + ser_tx_ins(p.inputs)
        + enc_varint(p.outputs.len() as int) + ser_tx_outs(p.outputs) + enc_u32le(p.locktime)
}

/// The transaction's Bitcoin consensus wire serialization: the segwit
/// marker and witness section appear exactly when some input carries a
/// witness.
pub open spec fn ser_tx_wire(p: PsbtA) -> Seq<u8> {
    if has_witness(p.inputs) {
        enc_u32le(p.version) + seq![0x00u8, 0x01u8] + enc_varint(p.inputs.len() as int)
            + ser_tx_ins(p.inputs) + enc_varint(p.outputs.len() as int) + ser_tx_outs(p.outputs)
            + ser_wits(p.inputs) + enc_u32le(p.locktime)
    } else {
        ser_tx_legacy(p)
    }
}

proof fn lemma_ser_tx_ins_snoc(ins: Seq<InputA>, a: InputA)
    ensures
        ser_tx_ins(ins.push(a)) == ser_tx_ins(ins) + ser_tx_in(a),
    decreases ins.len(),
{
    if ins.len() == 0 {
        assert(ins.push(a).drop_first() =~= Seq::<InputA>::empty());
        assert(ins.push(a).first() == a);
        assert(ser_tx_ins(Seq::<InputA>::empty()) =~= Seq::<u8>::empty());
        assert(ser_tx_ins(ins.push(a)) =~= ser_tx_ins(ins) + ser_tx_in(a));
    } else {
        assert(ins.push(a).drop_first() =~= ins.drop_first().push(a));
        assert(ins.push(a).first() == ins.first());
        lemma_ser_tx_ins_snoc(ins.drop_first(), a);
        assert(ser_tx_ins(ins.push(a)) =~= ser_tx_ins(ins) + ser_tx_in(a));
    }
}

proof fn lemma_ser_tx_outs_snoc(ts: Seq<TxOutA>, t: TxOutA)
    ensures
        ser_tx_outs(ts.push(t)) == ser_tx_outs(ts) + ser_tx_out(t),
    decreases ts.len(),
{
    if ts.len() == 0 {
        assert(ts.push(t).drop_first() =~= Seq::<TxOutA>::empty());
        assert(ts.push(t).first() == t);
        assert(ser_tx_outs(Seq::<TxOutA>::empty()) =~= Seq::<u8>::empty());
        assert(ser_tx_outs(ts.push(t)) =~= ser_tx_outs(ts) + ser_tx_out(t));
    } else {
        assert(ts.push(t).drop_first() =~= ts.drop_first().push(t));
        assert(ts.push(t).first() == ts.first());
        lemma_ser_tx_outs_snoc(ts.drop_first(), t);
        assert(ser_tx_outs(ts.push(t)) =~= ser_tx_outs(ts) + ser_tx_out(t));
    }
}

proof fn lemma_ser_wit_items_snoc(w: Seq<Seq<u8>>, b: Seq<u8>)
    ensures
        ser_wit_items(w.push(b)) == ser_wit_items(w) + enc_varint(b.len() as int) + b,
    decreases w.len(),
{
    if w.len() == 0 {
        assert(w.push(b).drop_first() =~= Seq::<Seq<u8>>::empty());
        assert(w.push(b).first() == b);
        assert(ser_wit_items(Seq::<Seq<u8>>::empty()) =~= Seq::<u8>::empty());
        assert(ser_wit_items(w.push(b)) =~= ser_wit_items(w) + enc_varint(b.len() as int) + b);
    } else {
        assert(w.push(b).drop_first() =~= w.drop_first().push(b));
        assert(w.push(b).first() == w.first());
        lemma_ser_wit_items_snoc(w.drop_first(), b);
        assert(ser_wit_items(w.push(b)) =~= ser_wit_items(w) + enc_varint(b.len() as int) + b);
    }
}

proof fn lemma_ser_wits_snoc(ins: Seq<InputA>, a: InputA)
    ensures
        ser_wits(ins.push(a)) == ser_wits(ins) + ser_wit(a),
    decreases ins.len(),
{
    if ins.len() == 0 {
        assert(ins.push(a).drop_first() =~= Seq::<InputA>::empty());
        assert(ins.push(a).first() == a);
        assert(ser_wits(Seq::<InputA>::empty()) =~= Seq::<u8>::empty());
        assert(ser_wits(ins.push(a)) =~= ser_wits(ins) + ser_wit(a));
    } else {
        assert(ins.push(a).drop_first() =~= ins.drop_first().push(a));
        assert(ins.push(a).first() == ins.first());
        lemma_ser_wits_snoc(ins.drop_first(), a);
        assert(ser_wits(ins.push(a)) =~= ser_wits(ins) + ser_wit(a));
    }
}

/// Append the consensus forms of all inputs.
fn put_tx_ins(out: &mut Vec<u8>, ins: &Vec<InputPair>)
    ensures
        final(out)@ == old(out)@ + ser_tx_ins(abs_inputs(ins@)),
{
    let ghost base = out@;
    let mut i: usize = 0;
    proof {
        assert(abs_inputs(ins@.take(0)) =~= Seq::<InputA>::empty());
        assert(ser_tx_ins(Seq::<InputA>::empty()) =~= Seq::<u8>::empty());
        assert(out@ =~= base + ser_tx_ins(abs_inputs(ins@.take(0))));
    }
    while i < ins.len()
        invariant
            0 <= i <= ins@.len(),
            out@ == base + ser_tx_ins(abs_inputs(ins@.take(i as int))),
        decreases ins@.len() - i,
    {
        let a = &ins[i];
        put_rev_bytes(out, &a.txid);
        put_u32le(out, a.vout);
        put_varint(out, a.script_sig.len() as u64);
        crate::uri::push_all(out, &a.script_sig);
        put_u32le(out, a.sequence);
        proof {
            assert(abs_inputs(ins@.take(i + 1)) =~= abs_inputs(ins@.take(i as int)).push(
                abs_input(ins@[i as int]),
            ));
            lemma_ser_tx_ins_snoc(
                abs_inputs(ins@.take(i as int)),
                abs_input(ins@[i as int]),
            );
            assert(out@ =~= base + ser_tx_ins(abs_inputs(ins@.take(i + 1))));
        }
        i += 1;
    }
    proof {
        assert(ins@.take(ins@.len() as int) =~= ins@);
    }
}

/// Append the consensus forms of all outputs.
fn put_tx_outs(out: &mut Vec<u8>, ts: &Vec<TxOut>)
    ensures
        final(out)@ == old(out)@ + ser_tx_outs(abs_txouts(ts@)),
{
    let ghost base = out@;
    let mut i: usize = 0;
    proof {
        assert(abs_txouts(ts@.take(0)) =~= Seq::<TxOutA>::empty());
        assert(ser_tx_outs(Seq::<TxOutA>::empty()) =~= Seq::<u8>::empty());
        assert(out@ =~= base + ser_tx_outs(abs_txouts(ts@.take(0))));
    }
    while i < ts.len()
        invariant
            0 <= i <= ts@.len(),
            out@ == base + ser_tx_outs(abs_txouts(ts@.take(i as int))),
        decreases ts@.len() - i,
    {
        let t = &ts[i];
        put_u64(out, t.value_sat);
        put_varint(out, t.script_pubkey.len() as u64);
        crate::uri::push_all(out, &t.script_pubkey);
        proof {
            assert(abs_txouts(ts@.take(i + 1)) =~= abs_txouts(ts@.take(i as int)).push(
                abs_txout(ts@[i as int]),
            ));
            lemma_ser_tx_outs_snoc(
                abs_txouts(ts@.take(i as int)),
                abs_txout(ts@[i as int]),
            );
            assert(out@ =~= base + ser_tx_outs(abs_txouts(ts@.take(i + 1))));
        }
        i += 1;
    }
    proof {
        assert(ts@.take(ts@.len() as int) =~= ts@);
    }
}

/// Append one witness stack's consensus form.
fn put_stack(out: &mut Vec<u8>, w: &Vec<Vec<u8>>)
    ensures
        final(out)@ == old(out)@ + ser_stack(w.deep_view()),
{
    put_varint(out, w.len() as u64);
    let ghost base = out@;
    let mut i: usize = 0;
    proof {
        assert(w.deep_view().take(0) =~= Seq::<Seq<u8>>::empty());
        assert(ser_wit_items(Seq::<Seq<u8>>::empty()) =~= Seq::<u8>::empty());
        assert(out@ =~= base + ser_wit_items(w.deep_view().take(0)));
    }
    while i < w.len()
        invariant
            0 <= i <= w@.len(),
            w.deep_view().len() == w@.len(),
            out@ == base + ser_wit_items(w.deep_view().take(i as int)),
        decreases w@.len() - i,
    {
        let item = &w[i];
        put_varint(out, item.len() as u64);
        crate::uri::push_all(out, item);
        proof {
            assert(w@[i as int].deep_view() =~= w@[i as int]@);
            assert(w.deep_view()[i as int] == w@[i as int].deep_view());
            assert(w.deep_view().take(i + 1) =~= w.deep_view().take(i as int).push(
                w@[i as int]@,
            ));
            lemma_ser_wit_items_snoc(w.deep_view().take(i as int), w@[i as int]@);
            assert(out@ =~= base + ser_wit_items(w.deep_view().take(i + 1)));
        }
        i += 1;
    }
    proof {
        assert(w.deep_view().take(w.deep_view().len() as int) =~= w.deep_view());
        assert(out@ =~= old(out)@ + ser_stack(w.deep_view()));
    }
}

fn put_wit(out: &mut Vec<u8>, a: &InputPair)
    ensures
        final(out)@ == old(out)@ + ser_wit(abs_input(*a)),
{
    put_stack(out, &a.witness);
}

/// Serialize the transaction in its id-defining consensus form, without
/// witness data.
pub fn serialize_tx_legacy(p: &Psbt) -> (r: Vec<u8>)
    ensures
        r@ == ser_tx_legacy(abs_psbt(*p)),
{
    let mut out: Vec<u8> = Vec::new();
    put_u32le(&mut out, p.version);
    put_varint(&mut out, p.inputs.len() as u64);
    put_tx_ins(&mut out, &p.inputs);
    put_varint(&mut out, p.outputs.len() as u64);
    put_tx_outs(&mut out, &p.outputs);
    put_u32le(&mut out, p.locktime);
    proof {
        assert(out@ =~= ser_tx_legacy(abs_psbt(*p)));
    }
    out
}

/// Serialize the transaction in its consensus wire form, witness data
/// included when any input carries one.
pub fn serialize_tx_wire(p: &Psbt) -> (r: Vec<u8>)
    ensures
        r@ == ser_tx_wire(abs_psbt(*p)),
{
    let mut any: bool = false;
    let mut i: usize = 0;
    while i < p.inputs.len()
        invariant
            0 <= i <= p.inputs@.len(),
            any == exists|q: int|
                0 <= q < i && (#[trigger] abs_input(p.inputs@[q])).witness.len() > 0,
        decreases p.inputs@.len() - i,
    {
        if p.inputs[i].witness.len() > 0 {
            proof {
                assert(abs_input(p.inputs@[i as int]).witness.len() == p.inputs@[i
                    as int].witness@.len());
            }
            any = true;
        }
        i += 1;
    }
    proof {
        assert(any == has_witness(abs_psbt(*p).inputs)) by {
            if any {
                let q = choose|q: int|
                    0 <= q < p.inputs@.len() && (#[trigger] abs_input(
                        p.inputs@[q],
                    )).witness.len() > 0;
                assert(abs_psbt(*p).inputs[q] == abs_input(p.inputs@[q]));
            }
            if has_witness(abs_psbt(*p).inputs) {
                let q = choose|q: int|
                    0 <= q < abs_psbt(*p).inputs.len() && (#[trigger] abs_psbt(
                        *p,
                    ).inputs[q]).witness.len() > 0;
                assert(abs_psbt(*p).inputs[q] == abs_input(p.inputs@[q]));
            }
        }
    }
    if !any {
        return serialize_tx_legacy(p);
    }
    let mut out: Vec<u8> = Vec::new();
    put_u32le(&mut out, p.version);
    out.push(0x00);
    out.push(0x01);
    put_varint(&mut out, p.inputs.len() as u64);
    put_tx_ins(&mut out, &p.inputs);
    put_varint(&mut out, p.outputs.len() as u64);
    put_tx_outs(&mut out, &p.outputs);
    let ghost mid = out@;
    let mut w: usize = 0;
    proof {
        assert(abs_inputs(p.inputs@.take(0)) =~= Seq::<InputA>::empty());
        assert(ser_wits(Seq::<InputA>::empty()) =~= Seq::<u8>::empty());
        assert(out@ =~= mid + ser_wits(abs_inputs(p.inputs@.take(0))));
    }
    while w < p.inputs.len()
        invariant
            0 <= w <= p.inputs@.len(),
            out@ == mid + ser_wits(abs_inputs(p.inputs@.take(w as int))),
        decreases p.inputs@.len() - w,
    {
        put_wit(&mut out, &p.inputs[w]);
        proof {
            assert(abs_inputs(p.inputs@.take(w + 1)) =~= abs_inputs(p.inputs@.take(
                w as int,
            )).push(abs_input(p.inputs@[w as int])));
            lemma_ser_wits_snoc(
                abs_inputs(p.inputs@.take(w as int)),
                abs_input(p.inputs@[w as int]),
            );
            assert(out@ =~= mid + ser_wits(abs_inputs(p.inputs@.take(w + 1))));
        }
        w += 1;
    }
    proof {
        assert(p.inputs@.take(p.inputs@.len() as int) =~= p.inputs@);
    }
    put_u32le(&mut out, p.locktime);
    proof {
        assert(out@ =~= ser_tx_wire(abs_psbt(*p)));
    }
    out
}


// ---- BIP-174 serialization of the partially signed transaction ----

/// One key/value record of a BIP-174 map, for a key of one type byte
/// and no key data.
pub open spec fn kv174(t: u8, v: Seq<u8>) -> Seq<u8> {
    seq![0x01u8, t] + enc_varint(v.len() as int) + v
}

/// The scripts that finalize an input: the dedicated final fields when
/// present, else the transaction-level ones a signer filled in place.
pub open spec fn eff_sig(a: InputA) -> Seq<u8> {
    match a.final_script_sig {
        Option::Some(s) => s,
        Option::None => a.script_sig,
    }
}

pub open spec fn eff_wit(a: InputA) -> Seq<Seq<u8>> {
    match a.final_script_witness {
        Option::Some(w) => w,
        Option::None => a.witness,
    }
}

/// One input's BIP-174 map: the spent output, the signature hash type,
/// the redeem and witness scripts, and the final scripts, each under
/// its key type, then the separator.
pub open spec fn in174_head(a: InputA) -> Seq<u8> {
    (match a.witness_utxo {
        Option::Some(t) => kv174(0x01, ser_tx_out(t)),
        Option::None => Seq::empty(),
    }) + (match a.sighash_type {
        Option::Some(x) => kv174(0x03, enc_u32le(x)),
        Option::None => Seq::empty(),
    }) + (match a.redeem_script {
        Option::Some(s) => kv174(0x04, s),
        Option::None => Seq::empty(),
    }) + (match a.witness_script {
        Option::Some(s) => kv174(0x05, s),
        Option::None => Seq::empty(),
    })
}

pub open spec fn in174_tail(a: InputA) -> Seq<u8> {
    (if eff_sig(a).len() > 0 {
        kv174(0x07, eff_sig(a))
    } else {
        Seq::empty()
    }) + (if eff_wit(a).len() > 0 {
        kv174(0x08, ser_stack(eff_wit(a)))
    } else {
        Seq::empty()
    }) + seq![0x00u8]
}

pub open spec fn in174(a: InputA) -> Seq<u8> {
    in174_head(a) + in174_tail(a)
}

pub open spec fn ins174(ins: Seq<InputA>) -> Seq<u8>
    decreases ins.len(),
{
    if ins.len() == 0 {
        Seq::empty()
    } else {
        in174(ins.first()) + ins174(ins.drop_first())
    }
}

/// One input's consensus form with the script sig left empty, as the
/// unsigned transaction of a BIP-174 document requires.
pub open spec fn ser_tx_in_unsigned(a: InputA) -> Seq<u8> {
    rev_bytes(a.txid) + enc_u32le(a.vout) + enc_varint(0) + enc_u32le(a.sequence)
}

pub open spec fn ser_tx_ins_unsigned(ins: Seq<InputA>) -> Seq<u8>
    decreases ins.len(),
{
    if ins.len() == 0 {
        Seq::empty()
    } else {
        ser_tx_in_unsigned(ins.first()) + ser_tx_ins_unsigned(ins.drop_first())
    }
}

/// The unsigned transaction: consensus form, no witness data, empty
/// script sigs.
pub open spec fn ser_tx_unsigned(p: PsbtA) -> Seq<u8> {
    enc_u32le(p.version) + enc_varint(p.inputs.len() as int) + ser_tx_ins_unsigned(p.inputs)
        + enc_varint(p.outputs.len() as int) + ser_tx_outs(p.outputs) + enc_u32le(p.locktime)
}

/// The whole BIP-174 document: the magic, the global map holding the
/// unsigned transaction, one map per input, and one empty map per
/// output.
pub open spec fn ser_psbt174(p: PsbtA) -> Seq<u8> {
    seq![0x70u8, 0x73u8, 0x62u8, 0x74u8, 0xffu8] + kv174(0x00, ser_tx_unsigned(p)) + seq![0x00u8]
        + ins174(p.inputs) + Seq::new(p.outputs.len(), |i: int| 0x00u8)
}

proof fn lemma_ins174_snoc(ins: Seq<InputA>, a: InputA)
    ensures
        ins174(ins.push(a)) == ins174(ins) + in174(a),
    decreases ins.len(),
{
    if ins.len() == 0 {
        assert(ins.push(a).drop_first() =~= Seq::<InputA>::empty());
        assert(ins.push(a).first() == a);
        assert(ins174(Seq::<InputA>::empty()) =~= Seq::<u8>::empty());
        assert(ins174(ins.push(a)) =~= ins174(ins) + in174(a));
    } else {
        assert(ins.push(a).drop_first() =~= ins.drop_first().push(a));
        assert(ins.push(a).first() == ins.first());
        lemma_ins174_snoc(ins.drop_first(), a);
        assert(ins174(ins.push(a)) =~= ins174(ins) + in174(a));
    }
}

proof fn lemma_ser_tx_ins_unsigned_snoc(ins: Seq<InputA>, a: InputA)
    ensures
        ser_tx_ins_unsigned(ins.push(a)) == ser_tx_ins_unsigned(ins) + ser_tx_in_unsigned(a),
    decreases ins.len(),
{
    if ins.len() == 0 {
        assert(ins.push(a).drop_first() =~= Seq::<InputA>::empty());
        assert(ins.push(a).first() == a);
        assert(ser_tx_ins_unsigned(Seq::<InputA>::empty()) =~= Seq::<u8>::empty());
        assert(ser_tx_ins_unsigned(ins.push(a)) =~= ser_tx_ins_unsigned(ins)
            + ser_tx_in_unsigned(a));
    } else {
        assert(ins.push(a).drop_first() =~= ins.drop_first().push(a));
        assert(ins.push(a).first() == ins.first());
        lemma_ser_tx_ins_unsigned_snoc(ins.drop_first(), a);
        assert(ser_tx_ins_unsigned(ins.push(a)) =~= ser_tx_ins_unsigned(ins)
            + ser_tx_in_unsigned(a));
    }
}

/// Append one key/value record.
fn put_kv174(out: &mut Vec<u8>, t: u8, v: &Vec<u8>)
    ensures
        final(out)@ == old(out)@ + kv174(t, v@),
{
    out.push(0x01);
    out.push(t);
    put_varint(out, v.len() as u64);
    crate::uri::push_all(out, v);
    proof {
        assert(out@ =~= old(out)@ + kv174(t, v@));
    }
}

/// Serialize one spent output on its own.
fn tx_out_bytes(t: &TxOut) -> (r: Vec<u8>)
    ensures
        r@ == ser_tx_out(abs_txout(*t)),
{
    let mut v: Vec<u8> = Vec::new();
    put_u64(&mut v, t.value_sat);
    put_varint(&mut v, t.script_pubkey.len() as u64);
    crate::uri::push_all(&mut v, &t.script_pubkey);
    proof {
        assert(v@ =~= ser_tx_out(abs_txout(*t)));
    }
    v
}

/// Append one input's BIP-174 map.
#[verifier::rlimit(100)]
#[verifier::spinoff_prover]
fn put_in174_head(out: &mut Vec<u8>, a: &InputPair)
    ensures
        final(out)@ == old(out)@ + in174_head(abs_input(*a)),
{
    let ghost g = abs_input(*a);
    if let Some(t) = &a.witness_utxo {
        let v = tx_out_bytes(t);
        put_kv174(out, 0x01, &v);
    }
    if let Some(x) = &a.sighash_type {
        let mut v: Vec<u8> = Vec::new();
        put_u32le(&mut v, *x);
        put_kv174(out, 0x03, &v);
    }
    if let Some(s) = &a.redeem_script {
        put_kv174(out, 0x04, s);
    }
    if let Some(s) = &a.witness_script {
        put_kv174(out, 0x05, s);
    }
    proof {
        assert(out@ =~= old(out)@ + in174_head(g));
    }
}

#[verifier::rlimit(100)]
#[verifier::spinoff_prover]
fn put_in174_tail(out: &mut Vec<u8>, a: &InputPair)
    ensures
        final(out)@ == old(out)@ + in174_tail(abs_input(*a)),
{
    let ghost g = abs_input(*a);
    let sig: &Vec<u8> = match &a.final_script_sig {
        Some(s) => s,
        None => &a.script_sig,
    };
    proof {
        assert(sig@ == eff_sig(g));
    }
    if sig.len() > 0 {
        put_kv174(out, 0x07, sig);
    }
    let wit: &Vec<Vec<u8>> = match &a.final_script_witness {
        Some(w) => w,
        None => &a.witness,
    };
    proof {
        assert(wit.deep_view() == eff_wit(g));
    }
    if wit.len() > 0 {
        let mut v: Vec<u8> = Vec::new();
        put_stack(&mut v, wit);
        put_kv174(out, 0x08, &v);
    }
    out.push(0x00);
    proof {
        assert(out@ =~= old(out)@ + in174_tail(g));
    }
}

fn put_in174(out: &mut Vec<u8>, a: &InputPair)
    ensures
        final(out)@ == old(out)@ + in174(abs_input(*a)),
{
    put_in174_head(out, a);
    put_in174_tail(out, a);
    proof {
        assert(out@ =~= old(out)@ + in174(abs_input(*a)));
    }
}

/// Serialize the whole document in BIP-174 form.
pub fn serialize_psbt174(p: &Psbt) -> (r: Vec<u8>)
    ensures
        r@ == ser_psbt174(abs_psbt(*p)),
{
    let mut out: Vec<u8> = Vec::new();
    out.push(0x70);
    out.push(0x73);
    out.push(0x62);
    out.push(0x74);
    out.push(0xff);
    let mut tx: Vec<u8> = Vec::new();
    put_u32le(&mut tx, p.version);
    put_varint(&mut tx, p.inputs.len() as u64);
    let ghost base_tx = tx@;
    let mut i: usize = 0;
    proof {
        assert(abs_inputs(p.inputs@.take(0)) =~= Seq::<InputA>::empty());
        assert(ser_tx_ins_unsigned(Seq::<InputA>::empty()) =~= Seq::<u8>::empty());
        assert(tx@ =~= base_tx + ser_tx_ins_unsigned(abs_inputs(p.inputs@.take(0))));
    }
    while i < p.inputs.len()
        invariant
            0 <= i <= p.inputs@.len(),
            tx@ == base_tx + ser_tx_ins_unsigned(abs_inputs(p.inputs@.take(i as int))),
        decreases p.inputs@.len() - i,
    {
        let a = &p.inputs[i];
        put_rev_bytes(&mut tx, &a.txid);
        put_u32le(&mut tx, a.vout);
        put_varint(&mut tx, 0);
        put_u32le(&mut tx, a.sequence);
        proof {
            assert(abs_inputs(p.inputs@.take(i + 1)) =~= abs_inputs(p.inputs@.take(
                i as int,
            )).push(abs_input(p.inputs@[i as int])));
            lemma_ser_tx_ins_unsigned_snoc(
                abs_inputs(p.inputs@.take(i as int)),
                abs_input(p.inputs@[i as int]),
            );
            assert(tx@ =~= base_tx + ser_tx_ins_unsigned(abs_inputs(p.inputs@.take(i + 1))));
        }
        i += 1;
    }
    proof {
        assert(p.inputs@.take(p.inputs@.len() as int) =~= p.inputs@);
    }
    put_varint(&mut tx, p.outputs.len() as u64);
    put_tx_outs(&mut tx, &p.outputs);
    put_u32le(&mut tx, p.locktime);
    proof {
        assert(tx@ =~= ser_tx_unsigned(abs_psbt(*p)));
    }
    put_kv174(&mut out, 0x00, &tx);
    out.push(0x00);
    let ghost mid = out@;
    let mut k: usize = 0;
    proof {
        assert(abs_inputs(p.inputs@.take(0)) =~= Seq::<InputA>::empty());
        assert(ins174(Seq::<InputA>::empty()) =~= Seq::<u8>::empty());
        assert(out@ =~= mid + ins174(abs_inputs(p.inputs@.take(0))));
    }
    while k < p.inputs.len()
        invariant
            0 <= k <= p.inputs@.len(),
            out@ == mid + ins174(abs_inputs(p.inputs@.take(k as int))),
        decreases p.inputs@.len() - k,
    {
        put_in174(&mut out, &p.inputs[k]);
        proof {
            assert(abs_inputs(p.inputs@.take(k + 1)) =~= abs_inputs(p.inputs@.take(
                k as int,
            )).push(abs_input(p.inputs@[k as int])));
            lemma_ins174_snoc(
                abs_inputs(p.inputs@.take(k as int)),
                abs_input(p.inputs@[k as int]),
            );
            assert(out@ =~= mid + ins174(abs_inputs(p.inputs@.take(k + 1))));
        }
        k += 1;
    }
    proof {
        assert(p.inputs@.take(p.inputs@.len() as int) =~= p.inputs@);
    }
    let ghost mid2 = out@;
    let mut s: usize = 0;
    while s < p.outputs.len()
        invariant
            0 <= s <= p.outputs@.len(),
            out@ == mid2 + Seq::new(s as nat, |i: int| 0x00u8),
        decreases p.outputs@.len() - s,
    {
        out.push(0x00);
        proof {
            assert(mid2 + Seq::new((s + 1) as nat, |i: int| 0x00u8) =~= (mid2 + Seq::new(
                s as nat,
                |i: int| 0x00u8,
            )).push(0x00u8));
        }
        s += 1;
    }
    proof {
        assert(out@ =~= ser_psbt174(abs_psbt(*p)));
    }
    out
}

} // verus!