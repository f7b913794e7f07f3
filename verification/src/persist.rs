use vstd::prelude::*;

use crate::codec::{enc_u64, enc_bytes, enc_psbt, dec_u64s, dec_bytes_s, dec_psbt_s};
use crate::codec::{put_u64, put_bytes, get_u64, get_bytes, encode_psbt, decode_psbt};
use crate::codec::{lemma_u64_round_trip, lemma_bytes_round_trip_s, lemma_rt_psbt};
use crate::codec::{PsbtA, abs_psbt, wf_psbt_a};
use crate::error::Error;
use crate::receive::{Receiver, ProposalCore};
use crate::send::Sender;

verus! {

// ---- u64 list codec ----

pub open spec fn enc_u64_items(s: Seq<u64>) -> Seq<u8>
    decreases s.len(),
{
    if s.len() == 0 {
        Seq::empty()
    } else {
        enc_u64(s.first()) + enc_u64_items(s.drop_first())
    }
}

pub open spec fn enc_u64_list(s: Seq<u64>) -> Seq<u8> {
    enc_u64(s.len() as u64) + enc_u64_items(s)
}

pub open spec fn dec_u64_items_s(s: Seq<u8>, i: int, n: int, acc: Seq<u64>) -> Option<
    (Seq<u64>, int),
>
    decreases n,
{
    if n <= 0 {
        Option::Some((acc, i))
    } else {
        match dec_u64s(s, i) {
            Option::Some((x, j)) => dec_u64_items_s(s, j, n - 1, acc.push(x)),
            Option::None => Option::None,
        }
    }
}

pub open spec fn dec_u64_list_s(s: Seq<u8>, i: int) -> Option<(Seq<u64>, int)> {
    match dec_u64s(s, i) {
        Option::Some((n, j)) => if n <= crate::psbt::MAX_LIST_LEN as u64 {
            dec_u64_items_s(s, j, n as int, Seq::empty())
        } else {
            Option::None
        },
        Option::None => Option::None,
    }
}

proof fn lemma_chunk2(s: Seq<u8>, i: int, whole: Seq<u8>, off: int, part: Seq<u8>)
    requires
        0 <= i,
        i + whole.len() <= s.len(),
        s.subrange(i, i + whole.len() as int) == whole,
        0 <= off,
        off + part.len() <= whole.len(),
        part == whole.subrange(off, off + part.len() as int),
    ensures
        s.subrange(i + off, i + off + part.len() as int) == part,
{
    assert forall|j: int| 0 <= j < part.len() implies s[i + off + j] == part[j] by {
        assert(s.subrange(i, i + whole.len() as int)[off + j] == whole[off + j]);
        assert(whole.subrange(off, off + part.len() as int)[j] == whole[off + j]);
    }
    assert(s.subrange(i + off, i + off + part.len() as int) =~= part);
}

pub proof fn lemma_rt_u64_items(w: Seq<u64>, s: Seq<u8>, i: int, acc: Seq<u64>)
    requires
        0 <= i,
        i + enc_u64_items(w).len() <= s.len(),
        s.subrange(i, i + enc_u64_items(w).len() as int) == enc_u64_items(w),
    ensures
        dec_u64_items_s(s, i, w.len() as int, acc) == Option::Some(
            (acc + w, i + enc_u64_items(w).len() as int),
        ),
    decreases w.len(),
{
    if w.len() == 0 {
        assert(acc + w =~= acc);
    } else {
        let whole = enc_u64_items(w);
        let e0 = enc_u64(w.first());
        assert(e0 =~= whole.subrange(0, 8));
        lemma_chunk2(s, i, whole, 0, e0);
        lemma_u64_round_trip(w.first(), s, i);
        let rest = enc_u64_items(w.drop_first());
        assert(rest =~= whole.subrange(8, whole.len() as int));
        lemma_chunk2(s, i, whole, 8, rest);
        lemma_rt_u64_items(w.drop_first(), s, i + 8, acc.push(w.first()));
        assert(acc.push(w.first()) + w.drop_first() =~= acc + w);
    }
}

pub proof fn lemma_rt_u64_list(w: Seq<u64>, s: Seq<u8>, i: int)
    requires
        0 <= i,
        w.len() <= crate::psbt::MAX_LIST_LEN,
        i + enc_u64_list(w).len() <= s.len(),
        s.subrange(i, i + enc_u64_list(w).len() as int) == enc_u64_list(w),
    ensures
        dec_u64_list_s(s, i) == Option::Some((w, i + enc_u64_list(w).len() as int)),
{
    let whole = enc_u64_list(w);
    assert(enc_u64(w.len() as u64) =~= whole.subrange(0, 8));
    lemma_chunk2(s, i, whole, 0, enc_u64(w.len() as u64));
    lemma_u64_round_trip(w.len() as u64, s, i);
    let rest = enc_u64_items(w);
    assert(rest =~= whole.subrange(8, whole.len() as int));
    lemma_chunk2(s, i, whole, 8, rest);
    lemma_rt_u64_items(w, s, i + 8, Seq::empty());
    assert(Seq::<u64>::empty() + w =~= w);
}

proof fn lemma_enc_u64_items_snoc(w: Seq<u64>, x: u64)
    ensures
        enc_u64_items(w.push(x)) == enc_u64_items(w) + enc_u64(x),
    decreases w.len(),
{
    if w.len() == 0 {
        assert(w.push(x).drop_first() =~= Seq::<u64>::empty());
        assert(w.push(x).first() == x);
        assert(enc_u64_items(Seq::<u64>::empty()) =~= Seq::<u8>::empty());
        assert(enc_u64_items(w.push(x)) =~= enc_u64_items(w) + enc_u64(x));
    } else {
        assert(w.push(x).drop_first() =~= w.drop_first().push(x));
        assert(w.push(x).first() == w.first());
        lemma_enc_u64_items_snoc(w.drop_first(), x);
        assert(enc_u64_items(w.push(x)) =~= enc_u64_items(w) + enc_u64(x));
    }
}

/// Append a list of indices.
pub fn put_u64_list(out: &mut Vec<u8>, w: &Vec<u64>)
    ensures
        final(out)@ == old(out)@ + enc_u64_list(w@),
{
    put_u64(out, w.len() as u64);
    let ghost mid = out@;
    let mut i: usize = 0;
    while i < w.len()
        invariant
            0 <= i <= w@.len(),
            out@ == mid + enc_u64_items(w@.take(i as int)),
        decreases w@.len() - i,
    {
        put_u64(out, w[i]);
        proof {
            assert(w@.take(i + 1) =~= w@.take(i as int).push(w@[i as int]));
            lemma_enc_u64_items_snoc(w@.take(i as int), w@[i as int]);
        }
        i += 1;
    }
    proof {
        assert(w@.take(w@.len() as int) =~= w@);
        assert(out@ =~= old(out)@ + enc_u64_list(w@));
    }
}

/// Read a list of indices.
pub fn get_u64_list(s: &Vec<u8>, i: usize) -> (r: Option<(Vec<u64>, usize)>)
    requires
        i <= s@.len(),
    ensures
        match r {
            Option::Some((w, j)) => dec_u64_list_s(s@, i as int) == Option::Some(
                (w@, j as int),
            ) && j <= s@.len() && w@.len() <= crate::psbt::MAX_LIST_LEN,
            Option::None => dec_u64_list_s(s@, i as int) is None,
        },
{
    let (n, j) = match get_u64(s, i) {
        Option::Some(p) => p,
        Option::None => {
            return Option::None;
        },
    };
    if n > crate::psbt::MAX_LIST_LEN as u64 {
        return Option::None;
    }
    let mut w: Vec<u64> = Vec::new();
    let mut idx: usize = j;
    let mut remaining: u64 = n;
    proof {
        assert(w@ =~= Seq::<u64>::empty());
    }
    while remaining > 0
        invariant
            idx <= s@.len(),
            remaining <= n,
            w@.len() == n - remaining,
            dec_u64s(s@, i as int) == Option::Some((n, j as int)),
            n <= crate::psbt::MAX_LIST_LEN as u64,
            dec_u64_items_s(s@, j as int, n as int, Seq::empty()) == dec_u64_items_s(
                s@,
                idx as int,
                remaining as int,
                w@,
            ),
        decreases remaining,
    {
        let (x, j2) = match get_u64(s, idx) {
            Option::Some(p) => p,
            Option::None => {
                proof {
                    assert(dec_u64_items_s(s@, idx as int, remaining as int, w@) is None);
                }
                return Option::None;
            },
        };
        w.push(x);
        idx = j2;
        remaining = remaining - 1;
    }
    Option::Some((w, idx))
}

// ---- stage payload codec ----

/// The abstract form of a receiver-side stage payload.
pub struct CoreA {
    pub psbt: PsbtA,
    pub substitution_disabled: bool,
    pub receiver_vouts: Seq<u64>,
    pub change_vout: u64,
    pub receiver_inputs: Seq<u64>,
}

pub open spec fn abs_core(c: ProposalCore) -> CoreA {
    CoreA {
        psbt: abs_psbt(c.psbt),
        substitution_disabled: c.substitution_disabled,
        receiver_vouts: c.receiver_vouts@,
        change_vout: c.change_vout,
        receiver_inputs: c.receiver_inputs@,
    }
}

pub open spec fn wf_core_a(c: CoreA) -> bool {
    &&& wf_psbt_a(c.psbt)
    &&& c.receiver_vouts.len() <= crate::psbt::MAX_LIST_LEN
    &&& c.receiver_inputs.len() <= crate::psbt::MAX_LIST_LEN
}

pub open spec fn enc_core(c: CoreA) -> Seq<u8> {
    enc_psbt(c.psbt) + enc_u64(
        if c.substitution_disabled {
            1
        } else {
            0
        },
    ) + enc_u64_list(c.receiver_vouts) + enc_u64(c.change_vout) + enc_u64_list(c.receiver_inputs)
}

pub open spec fn dec_core_s(s: Seq<u8>, i: int) -> Option<(CoreA, int)> {
    match dec_psbt_s(s, i) {
        Option::Some((p, i1)) => dec_core_tail_s(s, i1, p),
        Option::None => Option::None,
    }
}

pub open spec fn dec_core_tail_s(s: Seq<u8>, i1: int, p: PsbtA) -> Option<(CoreA, int)> {
    match dec_u64s(s, i1) {
        Option::Some((flag, i2)) => if flag <= 1 {
            match dec_u64_list_s(s, i2) {
                Option::Some((rv, i3)) => match dec_u64s(s, i3) {
                    Option::Some((cv, i4)) => match dec_u64_list_s(s, i4) {
                        Option::Some((ri, i5)) => Option::Some(
                            (
                                CoreA {
                                    psbt: p,
                                    substitution_disabled: flag == 1,
                                    receiver_vouts: rv,
                                    change_vout: cv,
                                    receiver_inputs: ri,
                                },
                                i5,
                            ),
                        ),
                        Option::None => Option::None,
                    },
                    Option::None => Option::None,
                },
                Option::None => Option::None,
            }
        } else {
            Option::None
        },
        Option::None => Option::None,
    }
}

/// Serialize→deserialize of a stage payload reproduces it.
#[verifier::rlimit(100)]
#[verifier::spinoff_prover]
proof fn lemma_rt_core_tail(c: CoreA, s: Seq<u8>, i1: int)
    requires
        wf_core_a(c),
        0 <= i1,
        i1 + (enc_core(c).len() - enc_psbt(c.psbt).len()) <= s.len(),
        s.subrange(i1, i1 + (enc_core(c).len() - enc_psbt(c.psbt).len())) == enc_u64(
            if c.substitution_disabled {
                1
            } else {
                0
            },
        ) + enc_u64_list(c.receiver_vouts) + enc_u64(c.change_vout) + enc_u64_list(
            c.receiver_inputs,
        ),
    ensures
        dec_core_tail_s(s, i1, c.psbt) == Option::Some(
            (c, i1 + (enc_core(c).len() - enc_psbt(c.psbt).len())),
        ),
{
    let whole = enc_u64(
        if c.substitution_disabled {
            1
        } else {
            0
        },
    ) + enc_u64_list(c.receiver_vouts) + enc_u64(c.change_vout) + enc_u64_list(
        c.receiver_inputs,
    );
    let e2 = enc_u64(
        if c.substitution_disabled {
            1
        } else {
            0
        },
    );
    let e3 = enc_u64_list(c.receiver_vouts);
    let e4 = enc_u64(c.change_vout);
    let e5 = enc_u64_list(c.receiver_inputs);
    let p2 = e2.len() as int;
    let p3 = p2 + e3.len();
    let p4 = p3 + e4.len();
    let p5 = p4 + e5.len();
    assert(whole.len() == p5);
    assert(e2 =~= whole.subrange(0, p2));
    lemma_chunk2(s, i1, whole, 0, e2);
    lemma_u64_round_trip(
        if c.substitution_disabled {
            1
        } else {
            0
        },
        s,
        i1,
    );
    assert(e3 =~= whole.subrange(p2, p3));
    lemma_chunk2(s, i1, whole, p2, e3);
    lemma_rt_u64_list(c.receiver_vouts, s, i1 + p2);
    assert(e4 =~= whole.subrange(p3, p4));
    lemma_chunk2(s, i1, whole, p3, e4);
    lemma_u64_round_trip(c.change_vout, s, i1 + p3);
    assert(e5 =~= whole.subrange(p4, p5));
    lemma_chunk2(s, i1, whole, p4, e5);
    lemma_rt_u64_list(c.receiver_inputs, s, i1 + p4);
}

/// The stage-payload encoding splits as the transaction, then the rest.
#[verifier::rlimit(100)]
#[verifier::spinoff_prover]
proof fn lemma_core_split(c: CoreA)
    ensures
        enc_core(c).subrange(enc_psbt(c.psbt).len() as int, enc_core(c).len() as int)
            == enc_u64(
            if c.substitution_disabled {
                1
            } else {
                0
            },
        ) + enc_u64_list(c.receiver_vouts) + enc_u64(c.change_vout) + enc_u64_list(
            c.receiver_inputs,
        ),
{
    assert(enc_core(c).subrange(enc_psbt(c.psbt).len() as int, enc_core(c).len() as int)
        =~= enc_u64(
        if c.substitution_disabled {
            1
        } else {
            0
        },
    ) + enc_u64_list(c.receiver_vouts) + enc_u64(c.change_vout) + enc_u64_list(
        c.receiver_inputs,
    ));
}

/// Serialize→deserialize of a stage payload reproduces it.
#[verifier::rlimit(100)]
#[verifier::spinoff_prover]
pub proof fn lemma_rt_core(c: CoreA, s: Seq<u8>, i: int)
    requires
        0 <= i,
        wf_core_a(c),
        i + enc_core(c).len() <= s.len(),
        s.subrange(i, i + enc_core(c).len() as int) == enc_core(c),
    ensures
        dec_core_s(s, i) == Option::Some((c, i + enc_core(c).len() as int)),
{
    let whole = enc_core(c);
    let e1 = enc_psbt(c.psbt);
    let o1 = e1.len() as int;
    assert(e1 =~= whole.subrange(0, o1));
    lemma_chunk2(s, i, whole, 0, e1);
    lemma_rt_psbt(c.psbt, s, i);
    lemma_core_split(c);
    lemma_chunk2(
        s,
        i,
        whole,
        o1,
        whole.subrange(o1, whole.len() as int),
    );
    lemma_rt_core_tail(c, s, i + o1);
}

/// Serialize a stage payload.
pub fn encode_core(c: &ProposalCore) -> (r: Vec<u8>)
    ensures
        r@ == enc_core(abs_core(*c)),
{
    let mut out: Vec<u8> = encode_psbt(&c.psbt);
    put_u64(
        &mut out,
        if c.substitution_disabled {
            1
        } else {
            0
        },
    );
    put_u64_list(&mut out, &c.receiver_vouts);
    put_u64(&mut out, c.change_vout);
    put_u64_list(&mut out, &c.receiver_inputs);
    proof {
        assert(out@ =~= enc_core(abs_core(*c)));
    }
    out
}

/// Deserialize a stage payload.
pub fn decode_core(s: &Vec<u8>, i: usize) -> (r: Option<(ProposalCore, usize)>)
    ensures
        match r {
            Option::Some((c, j)) => dec_core_s(s@, i as int) == Option::Some(
                (abs_core(c), j as int),
            ) && j <= s@.len(),
            Option::None => dec_core_s(s@, i as int) is None,
        },
{
    let (psbt, i1) = match decode_psbt(s, i) {
        Option::Some(p) => p,
        Option::None => {
            return Option::None;
        },
    };
    let (flag, i2) = match get_u64(s, i1) {
        Option::Some(p) => p,
        Option::None => {
            return Option::None;
        },
    };
    if flag > 1 {
        return Option::None;
    }
    let (rv, i3) = match get_u64_list(s, i2) {
        Option::Some(p) => p,
        Option::None => {
            return Option::None;
        },
    };
    let (cv, i4) = match get_u64(s, i3) {
        Option::Some(p) => p,
        Option::None => {
            return Option::None;
        },
    };
    let (ri, i5) = match get_u64_list(s, i4) {
        Option::Some(p) => p,
        Option::None => {
            return Option::None;
        },
    };
    let c = ProposalCore {
        psbt,
        substitution_disabled: flag == 1,
        receiver_vouts: rv,
        change_vout: cv,
        receiver_inputs: ri,
    };
    Option::Some((c, i5))
}

/// The wire form of one suspended stage: its tag, then its payload.
pub open spec fn enc_stage(tag: u64, c: CoreA) -> Seq<u8> {
    enc_u64(tag) + enc_core(c)
}

pub open spec fn dec_stage_s(s: Seq<u8>) -> Option<(u64, CoreA)> {
    match dec_u64s(s, 0) {
        Option::Some((tag, j)) => match dec_core_s(s, j) {
            Option::Some((c, e)) => if e == s.len() {
                Option::Some((tag, c))
            } else {
                Option::None
            },
            Option::None => Option::None,
        },
        Option::None => Option::None,
    }
}

/// The round-trip law for suspended stages: serializing any stage
/// payload under any tag and deserializing it reproduces both exactly.
#[verifier::rlimit(100)]
#[verifier::spinoff_prover]
pub proof fn lemma_stage_round_trip(tag: u64, c: CoreA)
    requires
        wf_core_a(c),
    ensures
        dec_stage_s(enc_stage(tag, c)) == Option::Some((tag, c)),
{
    let s = enc_stage(tag, c);
    assert(enc_u64(tag) =~= s.subrange(0, 8));
    lemma_u64_round_trip(tag, s, 0);
    assert(s.subrange(0, s.len() as int) =~= s);
    assert(enc_core(c) =~= s.subrange(8, s.len() as int));
    lemma_chunk2(s, 0, s, 8, enc_core(c));
    lemma_rt_core(c, s, 8);
}

/// Serialize a stage: the given tag, then the payload.
pub fn encode_stage(tag: u64, c: &ProposalCore) -> (r: Vec<u8>)
    ensures
        r@ == enc_stage(tag, abs_core(*c)),
{
    let mut out: Vec<u8> = Vec::new();
    put_u64(&mut out, tag);
    let cb = encode_core(c);
    let ghost base = out@;
    let mut i: usize = 0;
    while i < cb.len()
        invariant
            0 <= i <= cb@.len(),
            out@ == base + cb@.take(i as int),
        decreases cb@.len() - i,
    {
        out.push(cb[i]);
        proof {
            assert(base + cb@.take(i + 1) =~= (base + cb@.take(i as int)).push(cb@[i as int]));
        }
        i += 1;
    }
    proof {
        assert(cb@.take(cb@.len() as int) =~= cb@);
        assert(out@ =~= enc_stage(tag, abs_core(*c)));
    }
    out
}

/// Deserialize a stage, expecting the given tag and nothing trailing.
pub fn decode_stage(expected_tag: u64, s: &Vec<u8>) -> (r: Result<ProposalCore, Error>)
    ensures
        match r {
            Result::Ok(c) => dec_stage_s(s@) == Option::Some((expected_tag, abs_core(c))),
            Result::Err(e) => e == Error::InvalidInput,
        },
        (match dec_stage_s(s@) {
            Option::Some((tag, c)) => tag != expected_tag ==> r is Err,
            Option::None => r is Err,
        }),
        (match dec_stage_s(s@) {
            Option::Some((tag, c)) => tag == expected_tag ==> r is Ok,
            Option::None => true,
        }),
{
    let (tag, j) = match get_u64(s, 0) {
        Option::Some(p) => p,
        Option::None => {
            return Result::Err(Error::InvalidInput);
        },
    };
    if tag != expected_tag {
        return Result::Err(Error::InvalidInput);
    }
    let (c, e) = match decode_core(s, j) {
        Option::Some(p) => p,
        Option::None => {
            return Result::Err(Error::InvalidInput);
        },
    };
    if e != s.len() {
        return Result::Err(Error::InvalidInput);
    }
    Result::Ok(c)
}

// ---- stage invariant checks ----

/// Check the pipeline invariant of the pre-classification stages.
pub fn check_core_early(c: &ProposalCore) -> (b: bool)
    ensures
        b == c.wf_early(),
{
    crate::psbt::check_psbt(&c.psbt) && c.receiver_vouts.len() == 0 && c.receiver_inputs.len()
        == 0 && c.change_vout == 0
}

/// Check the pipeline invariant of the classified-output stages.
pub fn check_core_classified(c: &ProposalCore) -> (b: bool)
    ensures
        b == c.wf_classified(),
{
    if !crate::psbt::check_psbt(&c.psbt) {
        return false;
    }
    if c.receiver_vouts.len() < 1 || c.receiver_vouts.len() > c.psbt.outputs.len() {
        return false;
    }
    if !check_vouts(&c.receiver_vouts, c.psbt.outputs.len()) {
        return false;
    }
    if !((c.change_vout as usize) < c.psbt.outputs.len() && c.change_vout
        <= crate::psbt::MAX_LIST_LEN as u64) {
        return false;
    }
    c.receiver_inputs.len() == 0
}

/// Check the pipeline invariant of the contributed-input stages.
pub fn check_core_contributed(c: &ProposalCore) -> (b: bool)
    ensures
        b == c.wf_contributed(),
{
    if !crate::psbt::check_psbt(&c.psbt) {
        return false;
    }
    if c.receiver_vouts.len() < 1 || c.receiver_vouts.len() > c.psbt.outputs.len() {
        return false;
    }
    if !check_vouts(&c.receiver_vouts, c.psbt.outputs.len()) {
        return false;
    }
    if !((c.change_vout as usize) < c.psbt.outputs.len() && c.change_vout
        <= crate::psbt::MAX_LIST_LEN as u64) {
        return false;
    }
    if c.receiver_inputs.len() != 1 {
        return false;
    }
    (c.receiver_inputs[0] as usize) < c.psbt.inputs.len() && c.receiver_inputs[0]
        <= crate::psbt::MAX_LIST_LEN as u64
}

/// Check that indices are strictly increasing and in range.
fn check_vouts(rv: &Vec<u64>, n_outputs: usize) -> (b: bool)
    ensures
        b == (crate::receive::strictly_inc(rv@) && forall|i: int|
            0 <= i < rv@.len() ==> (#[trigger] rv@[i] as int) < n_outputs as int),
{
    let mut i: usize = 0;
    while i < rv.len()
        invariant
            0 <= i <= rv@.len(),
            forall|a: int, b: int| 0 <= a < b < i ==> rv@[a] < rv@[b],
            forall|j: int| 0 <= j < i ==> (#[trigger] rv@[j] as int) < n_outputs as int,
        decreases rv@.len() - i,
    {
        if rv[i] >= n_outputs as u64 {
            return false;
        }
        if i > 0 && rv[i - 1] >= rv[i] {
            proof {
                assert(!crate::receive::strictly_inc(rv@)) by {
                    assert(rv@[i - 1] >= rv@[i as int]);
                }
            }
            return false;
        }
        proof {
            assert forall|a: int, b: int| 0 <= a < b < i + 1 implies rv@[a] < rv@[b] by {
                if b < i {
                } else if a == i - 1 {
                } else {
                    assert(rv@[a] < rv@[i - 1]);
                }
            }
        }
        i += 1;
    }
    true
}

/// Two stage payloads with the same abstraction satisfy the same stage
/// invariants: those invariants read only what the abstraction keeps.
pub proof fn lemma_core_wf_abs(c1: ProposalCore, c2: ProposalCore)
    requires
        abs_core(c1) == abs_core(c2),
    ensures
        c1.wf_early() == c2.wf_early(),
        c1.wf_classified() == c2.wf_classified(),
        c1.wf_contributed() == c2.wf_contributed(),
{
    crate::codec::lemma_psbt_wf_abs(c1.psbt, c2.psbt);
    assert(crate::codec::abs_psbt(c1.psbt).outputs.len() == c1.psbt.outputs@.len());
    assert(crate::codec::abs_psbt(c2.psbt).outputs.len() == c2.psbt.outputs@.len());
    assert(crate::codec::abs_psbt(c1.psbt).inputs.len() == c1.psbt.inputs@.len());
    assert(crate::codec::abs_psbt(c2.psbt).inputs.len() == c2.psbt.inputs@.len());
}

/// Every well-formed stage payload fits the decoder's budgets.
pub proof fn lemma_core_budget(c: ProposalCore)
    requires
        c.wf_early() || c.wf_classified() || c.wf_contributed(),
    ensures
        wf_core_a(abs_core(c)),
{
    crate::codec::lemma_wf_abs(c.psbt);
}

pub const TAG_UNREVIEWED: u64 = 1;

pub const TAG_OWNERSHIP_CHECKED: u64 = 2;

pub const TAG_REPLAY_CHECKED: u64 = 3;

pub const TAG_OUTPUTS_CLASSIFIED: u64 = 4;

pub const TAG_OUTPUTS_COMMITTED: u64 = 5;

pub const TAG_INPUTS_CONTRIBUTED: u64 = 6;

pub const TAG_PROPOSAL_COMMITTED: u64 = 7;

pub const TAG_FINALIZED: u64 = 8;

impl crate::receive::UnreviewedProposal {
    /// Suspend this stage: its tag, then the payload.
    pub fn serialize(&self) -> (r: Vec<u8>)
        ensures
            r@ == enc_stage(TAG_UNREVIEWED, abs_core(self.core)),
    {
        encode_stage(TAG_UNREVIEWED, &self.core)
    }

    /// Resume this stage, refusing a payload that does not satisfy its
    /// invariants.
    pub fn deserialize(s: &Vec<u8>) -> (r: Result<Self, Error>)
        ensures
            match r {
                Result::Ok(p) => p.wf() && dec_stage_s(s@) == Option::Some(
                    (TAG_UNREVIEWED, abs_core(p.core)),
                ),
                Result::Err(e) => e == Error::InvalidInput,
            },
            dec_stage_s(s@) is None ==> r is Err,
            forall|p: Self| p.wf() && s@ == #[trigger] enc_stage(TAG_UNREVIEWED, abs_core(p.core))
                ==> r is Ok,
    {
        let c = match decode_stage(TAG_UNREVIEWED, s) {
            Result::Ok(c) => c,
            Result::Err(e) => {
                proof {
                    assert forall|p: crate::receive::UnreviewedProposal|
                        p.wf() && s@ == enc_stage(TAG_UNREVIEWED, abs_core(p.core)) implies false by {
                        lemma_core_budget(p.core);
                        lemma_stage_round_trip(TAG_UNREVIEWED, abs_core(p.core));
                    }
                }
                return Result::Err(e);
            },
        };
        if !check_core_early(&c) {
            proof {
                assert forall|p: crate::receive::UnreviewedProposal|
                    p.wf() && s@ == enc_stage(TAG_UNREVIEWED, abs_core(p.core)) implies false by {
                    lemma_core_budget(p.core);
                    lemma_stage_round_trip(TAG_UNREVIEWED, abs_core(p.core));
                    assert(abs_core(c) == abs_core(p.core));
                    lemma_core_wf_abs(c, p.core);
                }
            }
            return Result::Err(Error::InvalidInput);
        }
        Result::Ok(crate::receive::UnreviewedProposal { core: c })
    }
}

impl crate::receive::OwnershipChecked {
    /// Suspend this stage: its tag, then the payload.
    pub fn serialize(&self) -> (r: Vec<u8>)
        ensures
            r@ == enc_stage(TAG_OWNERSHIP_CHECKED, abs_core(self.core)),
    {
        encode_stage(TAG_OWNERSHIP_CHECKED, &self.core)
    }

    /// Resume this stage, refusing a payload that does not satisfy its
    /// invariants.
    pub fn deserialize(s: &Vec<u8>) -> (r: Result<Self, Error>)
        ensures
            match r {
                Result::Ok(p) => p.wf() && dec_stage_s(s@) == Option::Some(
                    (TAG_OWNERSHIP_CHECKED, abs_core(p.core)),
                ),
                Result::Err(e) => e == Error::InvalidInput,
            },
            dec_stage_s(s@) is None ==> r is Err,
            forall|p: Self| p.wf() && s@ == #[trigger] enc_stage(TAG_OWNERSHIP_CHECKED, abs_core(p.core))
                ==> r is Ok,
    {
        let c = match decode_stage(TAG_OWNERSHIP_CHECKED, s) {
            Result::Ok(c) => c,
            Result::Err(e) => {
                proof {
                    assert forall|p: crate::receive::OwnershipChecked|
                        p.wf() && s@ == enc_stage(TAG_OWNERSHIP_CHECKED, abs_core(p.core)) implies false by {
                        lemma_core_budget(p.core);
                        lemma_stage_round_trip(TAG_OWNERSHIP_CHECKED, abs_core(p.core));
                    }
                }
                return Result::Err(e);
            },
        };
        if !check_core_early(&c) {
            proof {
                assert forall|p: crate::receive::OwnershipChecked|
                    p.wf() && s@ == enc_stage(TAG_OWNERSHIP_CHECKED, abs_core(p.core)) implies false by {
                    lemma_core_budget(p.core);
                    lemma_stage_round_trip(TAG_OWNERSHIP_CHECKED, abs_core(p.core));
                    assert(abs_core(c) == abs_core(p.core));
                    lemma_core_wf_abs(c, p.core);
                }
            }
            return Result::Err(Error::InvalidInput);
        }
        Result::Ok(crate::receive::OwnershipChecked { core: c })
    }
}

impl crate::receive::ReplayChecked {
    /// Suspend this stage: its tag, then the payload.
    pub fn serialize(&self) -> (r: Vec<u8>)
        ensures
            r@ == enc_stage(TAG_REPLAY_CHECKED, abs_core(self.core)),
    {
        encode_stage(TAG_REPLAY_CHECKED, &self.core)
    }

    /// Resume this stage, refusing a payload that does not satisfy its
    /// invariants.
    pub fn deserialize(s: &Vec<u8>) -> (r: Result<Self, Error>)
        ensures
            match r {
                Result::Ok(p) => p.wf() && dec_stage_s(s@) == Option::Some(
                    (TAG_REPLAY_CHECKED, abs_core(p.core)),
                ),
                Result::Err(e) => e == Error::InvalidInput,
            },
            dec_stage_s(s@) is None ==> r is Err,
            forall|p: Self| p.wf() && s@ == #[trigger] enc_stage(TAG_REPLAY_CHECKED, abs_core(p.core))
                ==> r is Ok,
    {
        let c = match decode_stage(TAG_REPLAY_CHECKED, s) {
            Result::Ok(c) => c,
            Result::Err(e) => {
                proof {
                    assert forall|p: crate::receive::ReplayChecked|
                        p.wf() && s@ == enc_stage(TAG_REPLAY_CHECKED, abs_core(p.core)) implies false by {
                        lemma_core_budget(p.core);
                        lemma_stage_round_trip(TAG_REPLAY_CHECKED, abs_core(p.core));
                    }
                }
                return Result::Err(e);
            },
        };
        if !check_core_early(&c) {
            proof {
                assert forall|p: crate::receive::ReplayChecked|
                    p.wf() && s@ == enc_stage(TAG_REPLAY_CHECKED, abs_core(p.core)) implies false by {
                    lemma_core_budget(p.core);
                    lemma_stage_round_trip(TAG_REPLAY_CHECKED, abs_core(p.core));
                    assert(abs_core(c) == abs_core(p.core));
                    lemma_core_wf_abs(c, p.core);
                }
            }
            return Result::Err(Error::InvalidInput);
        }
        Result::Ok(crate::receive::ReplayChecked { core: c })
    }
}

impl crate::receive::OutputsClassified {
    /// Suspend this stage: its tag, then the payload.
    pub fn serialize(&self) -> (r: Vec<u8>)
        ensures
            r@ == enc_stage(TAG_OUTPUTS_CLASSIFIED, abs_core(self.core)),
    {
        encode_stage(TAG_OUTPUTS_CLASSIFIED, &self.core)
    }

    /// Resume this stage, refusing a payload that does not satisfy its
    /// invariants.
    pub fn deserialize(s: &Vec<u8>) -> (r: Result<Self, Error>)
        ensures
            match r {
                Result::Ok(p) => p.wf() && dec_stage_s(s@) == Option::Some(
                    (TAG_OUTPUTS_CLASSIFIED, abs_core(p.core)),
                ),
                Result::Err(e) => e == Error::InvalidInput,
            },
            dec_stage_s(s@) is None ==> r is Err,
            forall|p: Self| p.wf() && s@ == #[trigger] enc_stage(TAG_OUTPUTS_CLASSIFIED, abs_core(p.core))
                ==> r is Ok,
    {
        let c = match decode_stage(TAG_OUTPUTS_CLASSIFIED, s) {
            Result::Ok(c) => c,
            Result::Err(e) => {
                proof {
                    assert forall|p: crate::receive::OutputsClassified|
                        p.wf() && s@ == enc_stage(TAG_OUTPUTS_CLASSIFIED, abs_core(p.core)) implies false by {
                        lemma_core_budget(p.core);
                        lemma_stage_round_trip(TAG_OUTPUTS_CLASSIFIED, abs_core(p.core));
                    }
                }
                return Result::Err(e);
            },
        };
        if !check_core_early(&c) {
            proof {
                assert forall|p: crate::receive::OutputsClassified|
                    p.wf() && s@ == enc_stage(TAG_OUTPUTS_CLASSIFIED, abs_core(p.core)) implies false by {
                    lemma_core_budget(p.core);
                    lemma_stage_round_trip(TAG_OUTPUTS_CLASSIFIED, abs_core(p.core));
                    assert(abs_core(c) == abs_core(p.core));
                    lemma_core_wf_abs(c, p.core);
                }
            }
            return Result::Err(Error::InvalidInput);
        }
        Result::Ok(crate::receive::OutputsClassified { core: c })
    }
}

impl crate::receive::OutputsCommitted {
    /// Suspend this stage: its tag, then the payload.
    pub fn serialize(&self) -> (r: Vec<u8>)
        ensures
            r@ == enc_stage(TAG_OUTPUTS_COMMITTED, abs_core(self.core)),
    {
        encode_stage(TAG_OUTPUTS_COMMITTED, &self.core)
    }

    /// Resume this stage, refusing a payload that does not satisfy its
    /// invariants.
    pub fn deserialize(s: &Vec<u8>) -> (r: Result<Self, Error>)
        ensures
            match r {
                Result::Ok(p) => p.wf() && dec_stage_s(s@) == Option::Some(
                    (TAG_OUTPUTS_COMMITTED, abs_core(p.core)),
                ),
                Result::Err(e) => e == Error::InvalidInput,
            },
            dec_stage_s(s@) is None ==> r is Err,
            forall|p: Self| p.wf() && s@ == #[trigger] enc_stage(TAG_OUTPUTS_COMMITTED, abs_core(p.core))
                ==> r is Ok,
    {
        let c = match decode_stage(TAG_OUTPUTS_COMMITTED, s) {
            Result::Ok(c) => c,
            Result::Err(e) => {
                proof {
                    assert forall|p: crate::receive::OutputsCommitted|
                        p.wf() && s@ == enc_stage(TAG_OUTPUTS_COMMITTED, abs_core(p.core)) implies false by {
                        lemma_core_budget(p.core);
                        lemma_stage_round_trip(TAG_OUTPUTS_COMMITTED, abs_core(p.core));
                    }
                }
                return Result::Err(e);
            },
        };
        if !check_core_classified(&c) {
            proof {
                assert forall|p: crate::receive::OutputsCommitted|
                    p.wf() && s@ == enc_stage(TAG_OUTPUTS_COMMITTED, abs_core(p.core)) implies false by {
                    lemma_core_budget(p.core);
                    lemma_stage_round_trip(TAG_OUTPUTS_COMMITTED, abs_core(p.core));
                    assert(abs_core(c) == abs_core(p.core));
                    lemma_core_wf_abs(c, p.core);
                }
            }
            return Result::Err(Error::InvalidInput);
        }
        Result::Ok(crate::receive::OutputsCommitted { core: c })
    }
}

impl crate::receive::InputsContributed {
    /// Suspend this stage: its tag, then the payload.
    pub fn serialize(&self) -> (r: Vec<u8>)
        ensures
            r@ == enc_stage(TAG_INPUTS_CONTRIBUTED, abs_core(self.core)),
    {
        encode_stage(TAG_INPUTS_CONTRIBUTED, &self.core)
    }

    /// Resume this stage, refusing a payload that does not satisfy its
    /// invariants.
    pub fn deserialize(s: &Vec<u8>) -> (r: Result<Self, Error>)
        ensures
            match r {
                Result::Ok(p) => p.wf() && dec_stage_s(s@) == Option::Some(
                    (TAG_INPUTS_CONTRIBUTED, abs_core(p.core)),
                ),
                Result::Err(e) => e == Error::InvalidInput,
            },
            dec_stage_s(s@) is None ==> r is Err,
            forall|p: Self| p.wf() && s@ == #[trigger] enc_stage(TAG_INPUTS_CONTRIBUTED, abs_core(p.core))
                ==> r is Ok,
    {
        let c = match decode_stage(TAG_INPUTS_CONTRIBUTED, s) {
            Result::Ok(c) => c,
            Result::Err(e) => {
                proof {
                    assert forall|p: crate::receive::InputsContributed|
                        p.wf() && s@ == enc_stage(TAG_INPUTS_CONTRIBUTED, abs_core(p.core)) implies false by {
                        lemma_core_budget(p.core);
                        lemma_stage_round_trip(TAG_INPUTS_CONTRIBUTED, abs_core(p.core));
                    }
                }
                return Result::Err(e);
            },
        };
        if !check_core_classified(&c) {
            proof {
                assert forall|p: crate::receive::InputsContributed|
                    p.wf() && s@ == enc_stage(TAG_INPUTS_CONTRIBUTED, abs_core(p.core)) implies false by {
                    lemma_core_budget(p.core);
                    lemma_stage_round_trip(TAG_INPUTS_CONTRIBUTED, abs_core(p.core));
                    assert(abs_core(c) == abs_core(p.core));
                    lemma_core_wf_abs(c, p.core);
                }
            }
            return Result::Err(Error::InvalidInput);
        }
        Result::Ok(crate::receive::InputsContributed { core: c })
    }
}

impl crate::receive::ProposalCommitted {
    /// Suspend this stage: its tag, then the payload.
    pub fn serialize(&self) -> (r: Vec<u8>)
        ensures
            r@ == enc_stage(TAG_PROPOSAL_COMMITTED, abs_core(self.core)),
    {
        encode_stage(TAG_PROPOSAL_COMMITTED, &self.core)
    }

    /// Resume this stage, refusing a payload that does not satisfy its
    /// invariants.
    pub fn deserialize(s: &Vec<u8>) -> (r: Result<Self, Error>)
        ensures
            match r {
                Result::Ok(p) => p.wf() && dec_stage_s(s@) == Option::Some(
                    (TAG_PROPOSAL_COMMITTED, abs_core(p.core)),
                ),
                Result::Err(e) => e == Error::InvalidInput,
            },
            dec_stage_s(s@) is None ==> r is Err,
            forall|p: Self| p.wf() && s@ == #[trigger] enc_stage(TAG_PROPOSAL_COMMITTED, abs_core(p.core))
                ==> r is Ok,
    {
        let c = match decode_stage(TAG_PROPOSAL_COMMITTED, s) {
            Result::Ok(c) => c,
            Result::Err(e) => {
                proof {
                    assert forall|p: crate::receive::ProposalCommitted|
                        p.wf() && s@ == enc_stage(TAG_PROPOSAL_COMMITTED, abs_core(p.core)) implies false by {
                        lemma_core_budget(p.core);
                        lemma_stage_round_trip(TAG_PROPOSAL_COMMITTED, abs_core(p.core));
                    }
                }
                return Result::Err(e);
            },
        };
        if !check_core_contributed(&c) {
            proof {
                assert forall|p: crate::receive::ProposalCommitted|
                    p.wf() && s@ == enc_stage(TAG_PROPOSAL_COMMITTED, abs_core(p.core)) implies false by {
                    lemma_core_budget(p.core);
                    lemma_stage_round_trip(TAG_PROPOSAL_COMMITTED, abs_core(p.core));
                    assert(abs_core(c) == abs_core(p.core));
                    lemma_core_wf_abs(c, p.core);
                }
            }
            return Result::Err(Error::InvalidInput);
        }
        Result::Ok(crate::receive::ProposalCommitted { core: c })
    }
}

impl crate::receive::FinalizedProposal {
    /// Suspend this stage: its tag, then the payload.
    pub fn serialize(&self) -> (r: Vec<u8>)
        ensures
            r@ == enc_stage(TAG_FINALIZED, abs_core(self.core)),
    {
        encode_stage(TAG_FINALIZED, &self.core)
    }

    /// Resume this stage, refusing a payload that does not satisfy its
    /// invariants.
    pub fn deserialize(s: &Vec<u8>) -> (r: Result<Self, Error>)
        ensures
            match r {
                Result::Ok(p) => p.wf() && dec_stage_s(s@) == Option::Some(
                    (TAG_FINALIZED, abs_core(p.core)),
                ),
                Result::Err(e) => e == Error::InvalidInput,
            },
            dec_stage_s(s@) is None ==> r is Err,
            forall|p: Self| p.wf() && s@ == #[trigger] enc_stage(TAG_FINALIZED, abs_core(p.core))
                ==> r is Ok,
    {
        let c = match decode_stage(TAG_FINALIZED, s) {
            Result::Ok(c) => c,
            Result::Err(e) => {
                proof {
                    assert forall|p: crate::receive::FinalizedProposal|
                        p.wf() && s@ == enc_stage(TAG_FINALIZED, abs_core(p.core)) implies false by {
                        lemma_core_budget(p.core);
                        lemma_stage_round_trip(TAG_FINALIZED, abs_core(p.core));
                    }
                }
                return Result::Err(e);
            },
        };
        if !check_core_contributed(&c) {
            proof {
                assert forall|p: crate::receive::FinalizedProposal|
                    p.wf() && s@ == enc_stage(TAG_FINALIZED, abs_core(p.core)) implies false by {
                    lemma_core_budget(p.core);
                    lemma_stage_round_trip(TAG_FINALIZED, abs_core(p.core));
                    assert(abs_core(c) == abs_core(p.core));
                    lemma_core_wf_abs(c, p.core);
                }
            }
            return Result::Err(Error::InvalidInput);
        }
        Result::Ok(crate::receive::FinalizedProposal { core: c })
    }
}

// ---- receiver and sender persistence ----

pub open spec fn enc_opt_u64(o: Option<u64>) -> Seq<u8> {
    match o {
        Option::Some(x) => enc_u64(1) + enc_u64(x),
        Option::None => enc_u64(0),
    }
}

pub open spec fn dec_opt_u64_s(s: Seq<u8>, i: int) -> Option<(Option<u64>, int)> {
    match dec_u64s(s, i) {
        Option::Some((tag, j)) => if tag == 0 {
            Option::Some((Option::None, j))
        } else if tag == 1 {
            match dec_u64s(s, j) {
                Option::Some((x, k)) => Option::Some((Option::Some(x), k)),
                Option::None => Option::None,
            }
        } else {
            Option::None
        },
        Option::None => Option::None,
    }
}

pub proof fn lemma_rt_opt_u64(o: Option<u64>, s: Seq<u8>, i: int)
    requires
        0 <= i,
        i + enc_opt_u64(o).len() <= s.len(),
        s.subrange(i, i + enc_opt_u64(o).len() as int) == enc_opt_u64(o),
    ensures
        dec_opt_u64_s(s, i) == Option::Some((o, i + enc_opt_u64(o).len() as int)),
{
    let whole = enc_opt_u64(o);
    match o {
        Option::None => {
            assert(enc_u64(0) =~= whole.subrange(0, 8));
            lemma_chunk2(s, i, whole, 0, enc_u64(0));
            lemma_u64_round_trip(0, s, i);
        },
        Option::Some(x) => {
            assert(enc_u64(1) =~= whole.subrange(0, 8));
            lemma_chunk2(s, i, whole, 0, enc_u64(1));
            lemma_u64_round_trip(1, s, i);
            assert(enc_u64(x) =~= whole.subrange(8, 16));
            lemma_chunk2(s, i, whole, 8, enc_u64(x));
            lemma_u64_round_trip(x, s, i + 8);
        },
    }
}

fn put_opt_u64(out: &mut Vec<u8>, o: &Option<u64>)
    ensures
        final(out)@ == old(out)@ + enc_opt_u64(*o),
{
    match o {
        Option::Some(x) => {
            put_u64(out, 1);
            put_u64(out, *x);
            proof {
                assert(out@ =~= old(out)@ + enc_opt_u64(*o));
            }
        },
        Option::None => {
            put_u64(out, 0);
            proof {
                assert(out@ =~= old(out)@ + enc_opt_u64(*o));
            }
        },
    }
}

fn get_opt_u64(s: &Vec<u8>, i: usize) -> (r: Option<(Option<u64>, usize)>)
    ensures
        match r {
            Option::Some((o, j)) => dec_opt_u64_s(s@, i as int) == Option::Some((o, j as int))
                && j <= s@.len(),
            Option::None => dec_opt_u64_s(s@, i as int) is None,
        },
{
    let (tag, j) = match get_u64(s, i) {
        Option::Some(p) => p,
        Option::None => {
            return Option::None;
        },
    };
    if tag == 0 {
        return Option::Some((Option::None, j));
    }
    if tag != 1 {
        return Option::None;
    }
    match get_u64(s, j) {
        Option::Some((x, k)) => Option::Some((Option::Some(x), k)),
        Option::None => Option::None,
    }
}

/// The abstract form of a suspended receiver.
pub struct ReceiverA {
    pub address: Seq<u8>,
    pub directory: Seq<u8>,
    pub ohttp_keys: Seq<u8>,
    pub ohttp_relay: Seq<u8>,
    pub expiry_seconds: Option<u64>,
    pub request_seq: u64,
}

pub open spec fn abs_receiver(r: Receiver) -> ReceiverA {
    ReceiverA {
        address: crate::text::ascii_rep(r.address@).unwrap_or(Seq::empty()),
        directory: crate::text::ascii_rep(r.directory@).unwrap_or(Seq::empty()),
        ohttp_keys: r.ohttp_keys@,
        ohttp_relay: crate::text::ascii_rep(r.ohttp_relay@).unwrap_or(Seq::empty()),
        expiry_seconds: r.expiry_seconds,
        request_seq: r.request_seq,
    }
}

pub open spec fn wf_receiver_a(a: ReceiverA) -> bool {
    &&& 1 <= a.address.len() <= crate::psbt::MAX_SCRIPT_LEN
    &&& a.directory.len() <= crate::psbt::MAX_SCRIPT_LEN
    &&& a.ohttp_keys.len() <= crate::psbt::MAX_SCRIPT_LEN
    &&& a.ohttp_relay.len() <= crate::psbt::MAX_SCRIPT_LEN
    &&& crate::transport::spec_keys_safe(a.ohttp_keys)
    &&& (forall|i: int| 0 <= i < a.address.len() ==> #[trigger] a.address[i] < 128)
    &&& (forall|i: int| 0 <= i < a.directory.len() ==> #[trigger] a.directory[i] < 128)
    &&& (forall|i: int| 0 <= i < a.ohttp_relay.len() ==> #[trigger] a.ohttp_relay[i] < 128)
}

pub open spec fn enc_receiver(a: ReceiverA) -> Seq<u8> {
    enc_bytes(a.address) + enc_bytes(a.directory) + enc_bytes(a.ohttp_keys) + enc_bytes(
        a.ohttp_relay,
    ) + enc_opt_u64(a.expiry_seconds) + enc_u64(a.request_seq)
}

pub open spec fn dec_receiver_s(s: Seq<u8>) -> Option<ReceiverA> {
    match dec_bytes_s(s, 0, crate::psbt::MAX_SCRIPT_LEN as int) {
        Option::Some((address, i1)) => if address.len() >= 1 && (forall|k: int|
            0 <= k < address.len() ==> #[trigger] address[k] < 128) {
            match dec_bytes_s(s, i1, crate::psbt::MAX_SCRIPT_LEN as int) {
                Option::Some((directory, i2)) => if forall|k: int|
                    0 <= k < directory.len() ==> #[trigger] directory[k] < 128 {
                    match dec_bytes_s(s, i2, crate::psbt::MAX_SCRIPT_LEN as int) {
                        Option::Some((keys, i3)) => if crate::transport::spec_keys_safe(keys) {
                            match dec_bytes_s(s, i3, crate::psbt::MAX_SCRIPT_LEN as int) {
                                Option::Some((relay, i4)) => if forall|k: int|
                                    0 <= k < relay.len() ==> #[trigger] relay[k] < 128 {
                                    match dec_opt_u64_s(s, i4) {
                                        Option::Some((expiry, i5)) => match dec_u64s(s, i5) {
                                            Option::Some((seq, i6)) => if i6 == s.len() {
                                                Option::Some(
                                                    ReceiverA {
                                                        address,
                                                        directory,
                                                        ohttp_keys: keys,
                                                        ohttp_relay: relay,
                                                        expiry_seconds: expiry,
                                                        request_seq: seq,
                                                    },
                                                )
                                            } else {
                                                Option::None
                                            },
                                            Option::None => Option::None,
                                        },
                                        Option::None => Option::None,
                                    }
                                } else {
                                    Option::None
                                },
                                Option::None => Option::None,
                            }
                        } else {
                            Option::None
                        },
                        Option::None => Option::None,
                    }
                } else {
                    Option::None
                },
                Option::None => Option::None,
            }
        } else {
            Option::None
        },
        Option::None => Option::None,
    }
}

/// Serialize→deserialize of a suspended receiver reproduces it: the
/// round-trip law for receiver state.
#[verifier::rlimit(100)]
#[verifier::spinoff_prover]
pub proof fn lemma_receiver_round_trip(a: ReceiverA)
    requires
        wf_receiver_a(a),
    ensures
        dec_receiver_s(enc_receiver(a)) == Option::Some(a),
{
    let s = enc_receiver(a);
    let e1 = enc_bytes(a.address);
    let e2 = enc_bytes(a.directory);
    let e3 = enc_bytes(a.ohttp_keys);
    let e4 = enc_bytes(a.ohttp_relay);
    let e5 = enc_opt_u64(a.expiry_seconds);
    let e6 = enc_u64(a.request_seq);
    let o1 = e1.len() as int;
    let o2 = o1 + e2.len();
    let o3 = o2 + e3.len();
    let o4 = o3 + e4.len();
    let o5 = o4 + e5.len();
    let o6 = o5 + e6.len();
    assert(s.len() == o6);
    assert(s.subrange(0, s.len() as int) =~= s);
    assert(e1 =~= s.subrange(0, o1));
    lemma_chunk2(s, 0, s, 0, e1);
    lemma_bytes_round_trip_s(a.address, s, 0, crate::psbt::MAX_SCRIPT_LEN as int);
    assert(e2 =~= s.subrange(o1, o2));
    lemma_chunk2(s, 0, s, o1, e2);
    lemma_bytes_round_trip_s(a.directory, s, o1, crate::psbt::MAX_SCRIPT_LEN as int);
    assert(e3 =~= s.subrange(o2, o3));
    lemma_chunk2(s, 0, s, o2, e3);
    lemma_bytes_round_trip_s(a.ohttp_keys, s, o2, crate::psbt::MAX_SCRIPT_LEN as int);
    assert(e4 =~= s.subrange(o3, o4));
    lemma_chunk2(s, 0, s, o3, e4);
    lemma_bytes_round_trip_s(a.ohttp_relay, s, o3, crate::psbt::MAX_SCRIPT_LEN as int);
    assert(e5 =~= s.subrange(o4, o5));
    lemma_chunk2(s, 0, s, o4, e5);
    lemma_rt_opt_u64(a.expiry_seconds, s, o4);
    assert(e6 =~= s.subrange(o5, o6));
    lemma_chunk2(s, 0, s, o5, e6);
    lemma_u64_round_trip(a.request_seq, s, o5);
}

/// Every well-formed receiver fits the decoder's budgets.
pub proof fn lemma_receiver_budget(rec: Receiver)
    requires
        rec.wf(),
    ensures
        wf_receiver_a(abs_receiver(rec)),
{
    lemma_ascii_bytes_low(rec.address@);
    lemma_ascii_bytes_low(rec.directory@);
    lemma_ascii_bytes_low(rec.ohttp_relay@);
}

/// The byte form of an ASCII char sequence stays below 128.
proof fn lemma_ascii_bytes_low(cs: Seq<char>)
    requires
        crate::text::ascii_rep(cs) is Some,
    ensures
        (match crate::text::ascii_rep(cs) {
            Option::Some(bs) => bs.len() == cs.len() && forall|i: int|
                0 <= i < bs.len() ==> #[trigger] bs[i] < 128,
            Option::None => false,
        }),
{
    let bs = crate::text::ascii_rep(cs)->Some_0;
    assert forall|i: int| 0 <= i < bs.len() implies #[trigger] bs[i] < 128 by {
        assert(bs[i] == cs[i] as u8);
        assert('\0' <= cs[i] <= '\u{7f}');
    }
}

/// Check each byte is ASCII.
fn check_ascii(v: &Vec<u8>) -> (b: bool)
    ensures
        b == (forall|i: int| 0 <= i < v@.len() ==> #[trigger] v@[i] < 128),
{
    let mut i: usize = 0;
    while i < v.len()
        invariant
            0 <= i <= v@.len(),
            forall|j: int| 0 <= j < i ==> #[trigger] v@[j] < 128,
        decreases v@.len() - i,
    {
        if v[i] >= 128 {
            return false;
        }
        i += 1;
    }
    true
}

impl Receiver {
    /// Suspend this receiver to bytes.
    pub fn serialize(&self) -> (r: Vec<u8>)
        requires
            self.wf(),
        ensures
            r@ == enc_receiver(abs_receiver(*self)),
    {
        let mut out: Vec<u8> = Vec::new();
        let ab = crate::uri::string_ascii_bytes(&self.address);
        put_bytes(&mut out, &ab);
        let db = crate::uri::string_ascii_bytes(&self.directory);
        put_bytes(&mut out, &db);
        put_bytes(&mut out, &self.ohttp_keys);
        let rb = crate::uri::string_ascii_bytes(&self.ohttp_relay);
        put_bytes(&mut out, &rb);
        put_opt_u64(&mut out, &self.expiry_seconds);
        put_u64(&mut out, self.request_seq);
        proof {
            assert(out@ =~= enc_receiver(abs_receiver(*self)));
        }
        out
    }

    /// Resume a receiver from bytes, refusing anything that does not
    /// satisfy its invariants.
    pub fn deserialize(s: &Vec<u8>) -> (r: Result<Receiver, Error>)
        ensures
            match r {
                Result::Ok(rec) => rec.wf() && dec_receiver_s(s@) == Option::Some(
                    abs_receiver(rec),
                ),
                Result::Err(e) => e == Error::InvalidInput,
            },
            dec_receiver_s(s@) is None ==> r is Err,
            dec_receiver_s(s@) is Some ==> r is Ok,
    {
        let (address, i1) = match get_bytes(s, 0, crate::psbt::MAX_SCRIPT_LEN) {
            Option::Some(p) => p,
            Option::None => {
                return Result::Err(Error::InvalidInput);
            },
        };
        if address.len() < 1 || !check_ascii(&address) {
            return Result::Err(Error::InvalidInput);
        }
        let (directory, i2) = match get_bytes(s, i1, crate::psbt::MAX_SCRIPT_LEN) {
            Option::Some(p) => p,
            Option::None => {
                return Result::Err(Error::InvalidInput);
            },
        };
        if !check_ascii(&directory) {
            return Result::Err(Error::InvalidInput);
        }
        let (keys, i3) = match get_bytes(s, i2, crate::psbt::MAX_SCRIPT_LEN) {
            Option::Some(p) => p,
            Option::None => {
                return Result::Err(Error::InvalidInput);
            },
        };
        if !crate::transport::check_keys_safe(&keys) {
            return Result::Err(Error::InvalidInput);
        }
        let (relay, i4) = match get_bytes(s, i3, crate::psbt::MAX_SCRIPT_LEN) {
            Option::Some(p) => p,
            Option::None => {
                return Result::Err(Error::InvalidInput);
            },
        };
        if !check_ascii(&relay) {
            return Result::Err(Error::InvalidInput);
        }
        let (expiry, i5) = match get_opt_u64(s, i4) {
            Option::Some(p) => p,
            Option::None => {
                return Result::Err(Error::InvalidInput);
            },
        };
        let (seq, i6) = match get_u64(s, i5) {
            Option::Some(p) => p,
            Option::None => {
                return Result::Err(Error::InvalidInput);
            },
        };
        if i6 != s.len() {
            return Result::Err(Error::InvalidInput);
        }
        let rec = Receiver {
            address: crate::text::ascii_string(&address),
            directory: crate::text::ascii_string(&directory),
            ohttp_keys: keys,
            ohttp_relay: crate::text::ascii_string(&relay),
            expiry_seconds: expiry,
            request_seq: seq,
        };
        proof {
            lemma_ascii_round2(address@);
            lemma_ascii_round2(directory@);
            lemma_ascii_round2(relay@);
        }
        Result::Ok(rec)
    }
}

/// ASCII bytes and the chars they denote determine each other.
proof fn lemma_ascii_round2(bs: Seq<u8>)
    requires
        forall|i: int| 0 <= i < bs.len() ==> bs[i] < 128,
    ensures
        crate::text::ascii_rep(crate::text::chars_of_ascii(bs)) == Option::Some(bs),
{
    let cs = crate::text::chars_of_ascii(bs);
    assert forall|i: int| 0 <= i < cs.len() implies '\0' <= #[trigger] cs[i] <= '\u{7f}' by {
        assert(cs[i] == bs[i] as char);
    }
    assert(vstd::utf8::is_ascii_chars(cs));
    assert(crate::text::ascii_rep(cs) matches Option::Some(v) && v =~= bs);
}

/// The abstract form of a suspended sender.
pub struct SenderA {
    pub psbt: PsbtA,
    pub payee_script: Seq<u8>,
    pub endpoint: Seq<u8>,
    pub output_substitution_disabled: bool,
    pub fee_contribution: Option<(u64, u64)>,
    pub min_fee_rate: u64,
}

pub open spec fn abs_sender(x: Sender) -> SenderA {
    SenderA {
        psbt: abs_psbt(x.psbt),
        payee_script: x.payee_script@,
        endpoint: crate::text::ascii_rep(x.endpoint@).unwrap_or(Seq::empty()),
        output_substitution_disabled: x.output_substitution_disabled,
        fee_contribution: x.fee_contribution,
        min_fee_rate: x.min_fee_rate,
    }
}

pub open spec fn wf_sender_a(a: SenderA) -> bool {
    &&& wf_psbt_a(a.psbt)
    &&& a.payee_script.len() <= crate::psbt::MAX_SCRIPT_LEN
    &&& a.endpoint.len() <= crate::psbt::MAX_SCRIPT_LEN
    &&& (forall|i: int| 0 <= i < a.endpoint.len() ==> #[trigger] a.endpoint[i] < 128)
}

pub open spec fn enc_contribution(o: Option<(u64, u64)>) -> Seq<u8> {
    match o {
        Option::Some((a, v)) => enc_u64(1) + enc_u64(a) + enc_u64(v),
        Option::None => enc_u64(0),
    }
}

pub open spec fn dec_contribution_s(s: Seq<u8>, i: int) -> Option<(Option<(u64, u64)>, int)> {
    match dec_u64s(s, i) {
        Option::Some((tag, j)) => if tag == 0 {
            Option::Some((Option::None, j))
        } else if tag == 1 {
            match dec_u64s(s, j) {
                Option::Some((a, k)) => match dec_u64s(s, k) {
                    Option::Some((v, m)) => Option::Some((Option::Some((a, v)), m)),
                    Option::None => Option::None,
                },
                Option::None => Option::None,
            }
        } else {
            Option::None
        },
        Option::None => Option::None,
    }
}

proof fn lemma_rt_contribution(o: Option<(u64, u64)>, s: Seq<u8>, i: int)
    requires
        0 <= i,
        i + enc_contribution(o).len() <= s.len(),
        s.subrange(i, i + enc_contribution(o).len() as int) == enc_contribution(o),
    ensures
        dec_contribution_s(s, i) == Option::Some((o, i + enc_contribution(o).len() as int)),
{
    let whole = enc_contribution(o);
    match o {
        Option::None => {
            assert(enc_u64(0) =~= whole.subrange(0, 8));
            lemma_chunk2(s, i, whole, 0, enc_u64(0));
            lemma_u64_round_trip(0, s, i);
        },
        Option::Some((a, v)) => {
            assert(enc_u64(1) =~= whole.subrange(0, 8));
            lemma_chunk2(s, i, whole, 0, enc_u64(1));
            lemma_u64_round_trip(1, s, i);
            assert(enc_u64(a) =~= whole.subrange(8, 16));
            lemma_chunk2(s, i, whole, 8, enc_u64(a));
            lemma_u64_round_trip(a, s, i + 8);
            assert(enc_u64(v) =~= whole.subrange(16, 24));
            lemma_chunk2(s, i, whole, 16, enc_u64(v));
            lemma_u64_round_trip(v, s, i + 16);
        },
    }
}

pub open spec fn enc_sender(a: SenderA) -> Seq<u8> {
    enc_psbt(a.psbt) + enc_bytes(a.payee_script) + enc_bytes(a.endpoint) + enc_u64(
        if a.output_substitution_disabled {
            1
        } else {
            0
        },
    ) + enc_contribution(a.fee_contribution) + enc_u64(a.min_fee_rate)
}

pub open spec fn dec_sender_s(s: Seq<u8>) -> Option<SenderA> {
    match dec_psbt_s(s, 0) {
        Option::Some((p, i1)) => dec_sender_tail_s(s, i1, p),
        Option::None => Option::None,
    }
}

pub open spec fn dec_sender_tail_s(s: Seq<u8>, i1: int, p: PsbtA) -> Option<SenderA> {
    match dec_bytes_s(s, i1, crate::psbt::MAX_SCRIPT_LEN as int) {
            Option::Some((payee, i2)) => match dec_bytes_s(
                s,
                i2,
                crate::psbt::MAX_SCRIPT_LEN as int,
            ) {
                Option::Some((endpoint, i3)) => if forall|k: int|
                    0 <= k < endpoint.len() ==> #[trigger] endpoint[k] < 128 {
                    match dec_u64s(s, i3) {
                        Option::Some((flag, i4)) => if flag <= 1 {
                            match dec_contribution_s(s, i4) {
                                Option::Some((fc, i5)) => match dec_u64s(s, i5) {
                                    Option::Some((rate, i6)) => if i6 == s.len() {
                                        Option::Some(
                                            SenderA {
                                                psbt: p,
                                                payee_script: payee,
                                                endpoint,
                                                output_substitution_disabled: flag == 1,
                                                fee_contribution: fc,
                                                min_fee_rate: rate,
                                            },
                                        )
                                    } else {
                                        Option::None
                                    },
                                    Option::None => Option::None,
                                },
                                Option::None => Option::None,
                            }
                        } else {
                            Option::None
                        },
                        Option::None => Option::None,
                    }
                } else {
                    Option::None
                },
                Option::None => Option::None,
            },
            Option::None => Option::None,
    }
}

/// The sender fields after the transaction decode back exactly.
#[verifier::rlimit(100)]
#[verifier::spinoff_prover]
proof fn lemma_rt_sender_tail(a: SenderA, s: Seq<u8>, o1: int)
    requires
        wf_sender_a(a),
        0 <= o1,
        o1 + (enc_sender(a).len() - enc_psbt(a.psbt).len()) <= s.len(),
        s.len() == o1 + (enc_sender(a).len() - enc_psbt(a.psbt).len()),
        s.subrange(o1, s.len() as int) == enc_bytes(a.payee_script) + enc_bytes(a.endpoint)
            + enc_u64(
            if a.output_substitution_disabled {
                1
            } else {
                0
            },
        ) + enc_contribution(a.fee_contribution) + enc_u64(a.min_fee_rate),
    ensures
        dec_sender_tail_s(s, o1, a.psbt) == Option::Some(a),
{
    let whole = enc_bytes(a.payee_script) + enc_bytes(a.endpoint) + enc_u64(
        if a.output_substitution_disabled {
            1
        } else {
            0
        },
    ) + enc_contribution(a.fee_contribution) + enc_u64(a.min_fee_rate);
    let e2 = enc_bytes(a.payee_script);
    let e3 = enc_bytes(a.endpoint);
    let e4 = enc_u64(
        if a.output_substitution_disabled {
            1
        } else {
            0
        },
    );
    let e5 = enc_contribution(a.fee_contribution);
    let e6 = enc_u64(a.min_fee_rate);
    let p2 = e2.len() as int;
    let p3 = p2 + e3.len();
    let p4 = p3 + e4.len();
    let p5 = p4 + e5.len();
    let p6 = p5 + e6.len();
    assert(whole.len() == p6);
    assert(e2 =~= whole.subrange(0, p2));
    lemma_chunk2(s, o1, whole, 0, e2);
    lemma_bytes_round_trip_s(a.payee_script, s, o1, crate::psbt::MAX_SCRIPT_LEN as int);
    assert(e3 =~= whole.subrange(p2, p3));
    lemma_chunk2(s, o1, whole, p2, e3);
    lemma_bytes_round_trip_s(a.endpoint, s, o1 + p2, crate::psbt::MAX_SCRIPT_LEN as int);
    assert(e4 =~= whole.subrange(p3, p4));
    lemma_chunk2(s, o1, whole, p3, e4);
    lemma_u64_round_trip(
        if a.output_substitution_disabled {
            1
        } else {
            0
        },
        s,
        o1 + p3,
    );
    assert(e5 =~= whole.subrange(p4, p5));
    lemma_chunk2(s, o1, whole, p4, e5);
    lemma_rt_contribution(a.fee_contribution, s, o1 + p4);
    assert(e6 =~= whole.subrange(p5, p6));
    lemma_chunk2(s, o1, whole, p5, e6);
    lemma_u64_round_trip(a.min_fee_rate, s, o1 + p5);
}

/// The sender encoding splits as the transaction, then the rest.
#[verifier::rlimit(100)]
#[verifier::spinoff_prover]
proof fn lemma_sender_split(a: SenderA)
    ensures
        enc_sender(a).subrange(
            enc_psbt(a.psbt).len() as int,
            enc_sender(a).len() as int,
        ) == enc_bytes(a.payee_script) + enc_bytes(a.endpoint) + enc_u64(
            if a.output_substitution_disabled {
                1
            } else {
                0
            },
        ) + enc_contribution(a.fee_contribution) + enc_u64(a.min_fee_rate),
{
    assert(enc_sender(a).subrange(enc_psbt(a.psbt).len() as int, enc_sender(a).len() as int)
        =~= enc_bytes(a.payee_script) + enc_bytes(a.endpoint) + enc_u64(
        if a.output_substitution_disabled {
            1
        } else {
            0
        },
    ) + enc_contribution(a.fee_contribution) + enc_u64(a.min_fee_rate));
}

/// Serialize→deserialize of a suspended sender reproduces it: the
/// round-trip law for sender state.
#[verifier::rlimit(100)]
#[verifier::spinoff_prover]
pub proof fn lemma_sender_round_trip(a: SenderA)
    requires
        wf_sender_a(a),
    ensures
        dec_sender_s(enc_sender(a)) == Option::Some(a),
{
    let s = enc_sender(a);
    let e1 = enc_psbt(a.psbt);
    let o1 = e1.len() as int;
    assert(s.subrange(0, s.len() as int) =~= s);
    assert(e1 =~= s.subrange(0, o1));
    lemma_chunk2(s, 0, s, 0, e1);
    lemma_rt_psbt(a.psbt, s, 0);
    lemma_sender_split(a);
    lemma_rt_sender_tail(a, s, o1);
}

/// Every well-formed sender fits the decoder's budgets.
pub proof fn lemma_sender_budget(x: Sender)
    requires
        x.wf(),
    ensures
        wf_sender_a(abs_sender(x)),
{
    crate::codec::lemma_wf_abs(x.psbt);
    lemma_ascii_bytes_low(x.endpoint@);
}

impl Sender {
    /// Suspend this sender to bytes.
    pub fn serialize(&self) -> (r: Vec<u8>)
        requires
            self.wf(),
        ensures
            r@ == enc_sender(abs_sender(*self)),
    {
        let mut out: Vec<u8> = encode_psbt(&self.psbt);
        put_bytes(&mut out, &self.payee_script);
        let eb = crate::uri::string_ascii_bytes(&self.endpoint);
        put_bytes(&mut out, &eb);
        put_u64(
            &mut out,
            if self.output_substitution_disabled {
                1
            } else {
                0
            },
        );
        match &self.fee_contribution {
            Option::Some((a, v)) => {
                put_u64(&mut out, 1);
                put_u64(&mut out, *a);
                put_u64(&mut out, *v);
            },
            Option::None => {
                put_u64(&mut out, 0);
            },
        }
        proof {
            assert(out@ =~= enc_psbt(abs_sender(*self).psbt) + enc_bytes(
                abs_sender(*self).payee_script,
            ) + enc_bytes(abs_sender(*self).endpoint) + enc_u64(
                if self.output_substitution_disabled {
                    1
                } else {
                    0
                },
            ) + enc_contribution(self.fee_contribution));
        }
        put_u64(&mut out, self.min_fee_rate);
        proof {
            assert(out@ =~= enc_sender(abs_sender(*self)));
        }
        out
    }

    /// Resume a sender from bytes, refusing anything that does not
    /// satisfy its invariants.
    #[verifier::rlimit(100)]
    #[verifier::spinoff_prover]
    pub fn deserialize(s: &Vec<u8>) -> (r: Result<Sender, Error>)
        ensures
            match r {
                Result::Ok(x) => x.wf() && dec_sender_s(s@) == Option::Some(abs_sender(x)),
                Result::Err(e) => e == Error::InvalidInput,
            },
            dec_sender_s(s@) is None ==> r is Err,
            forall|x: Sender| x.wf() && s@ == #[trigger] enc_sender(abs_sender(x)) ==> r is Ok,
    {
        proof {
            assert forall|x: Sender|
                x.wf() && s@ == enc_sender(abs_sender(x)) implies dec_sender_s(s@)
                == Option::Some(abs_sender(x)) by {
                lemma_sender_budget(x);
                lemma_sender_round_trip(abs_sender(x));
            }
        }
        let (psbt, i1) = match decode_psbt(s, 0) {
            Option::Some(p) => p,
            Option::None => {
                return Result::Err(Error::InvalidInput);
            },
        };
        let (payee, i2) = match get_bytes(s, i1, crate::psbt::MAX_SCRIPT_LEN) {
            Option::Some(p) => p,
            Option::None => {
                return Result::Err(Error::InvalidInput);
            },
        };
        let (endpoint, i3) = match get_bytes(s, i2, crate::psbt::MAX_SCRIPT_LEN) {
            Option::Some(p) => p,
            Option::None => {
                return Result::Err(Error::InvalidInput);
            },
        };
        if !check_ascii(&endpoint) {
            return Result::Err(Error::InvalidInput);
        }
        let (flag, i4) = match get_u64(s, i3) {
            Option::Some(p) => p,
            Option::None => {
                return Result::Err(Error::InvalidInput);
            },
        };
        if flag > 1 {
            return Result::Err(Error::InvalidInput);
        }
        let (tag, i5a) = match get_u64(s, i4) {
            Option::Some(p) => p,
            Option::None => {
                return Result::Err(Error::InvalidInput);
            },
        };
        let (fc, i5): (Option<(u64, u64)>, usize) = if tag == 0 {
            (Option::None, i5a)
        } else if tag == 1 {
            let (a, k) = match get_u64(s, i5a) {
                Option::Some(p) => p,
                Option::None => {
                    return Result::Err(Error::InvalidInput);
                },
            };
            let (v, m) = match get_u64(s, k) {
                Option::Some(p) => p,
                Option::None => {
                    return Result::Err(Error::InvalidInput);
                },
            };
            (Option::Some((a, v)), m)
        } else {
            return Result::Err(Error::InvalidInput);
        };
        let (rate, i6) = match get_u64(s, i5) {
            Option::Some(p) => p,
            Option::None => {
                return Result::Err(Error::InvalidInput);
            },
        };
        if i6 != s.len() {
            return Result::Err(Error::InvalidInput);
        }
        if !crate::psbt::check_psbt(&psbt) {
            proof {
                assert forall|x: Sender|
                    x.wf() && s@ == enc_sender(abs_sender(x)) implies false by {
                    assert(abs_psbt(psbt) == abs_sender(x).psbt);
                    crate::codec::lemma_psbt_wf_abs(psbt, x.psbt);
                }
            }
            return Result::Err(Error::InvalidInput);
        }
        match &fc {
            Option::Some((a, v)) => {
                if !((*v as usize) < psbt.outputs.len() && *v <= crate::psbt::MAX_LIST_LEN
                    as u64) {
                    proof {
                        assert forall|x: Sender|
                            x.wf() && s@ == enc_sender(abs_sender(x)) implies false by {
                            assert(abs_psbt(psbt) == abs_sender(x).psbt);
                            assert(abs_psbt(psbt).outputs.len() == psbt.outputs@.len());
                            assert(abs_psbt(x.psbt).outputs.len() == x.psbt.outputs@.len());
                            assert(fc == abs_sender(x).fee_contribution);
                        }
                    }
                    return Result::Err(Error::InvalidInput);
                }
            },
            Option::None => {},
        }
        let x = Sender {
            psbt,
            payee_script: payee,
            endpoint: crate::text::ascii_string(&endpoint),
            output_substitution_disabled: flag == 1,
            fee_contribution: fc,
            min_fee_rate: rate,
        };
        proof {
            lemma_ascii_round2(endpoint@);
        }
        Result::Ok(x)
    }
}

} // verus!