use vstd::prelude::*;

use crate::error::Error;
use crate::text::{ascii_rep, chars_of_ascii, is_digit_b, dec_val_b, spec_dec_bytes};
use crate::text::{ascii_string, dec_bytes, dec_parse, sub_bytes};

verus! {

/// The normalized serialization `url::Url::parse` gives these chars, when
/// they parse; a function of the input alone.
pub uninterp spec fn url_canon_of(s: Seq<char>) -> Option<Seq<char>>;

/// Relies on `url::Url::parse` and `Url::to_string` (via its `Display`):
/// parsing is deterministic on the input, and a parsed URL serializes to
/// its normalized form.
#[verifier::external_body]
pub(crate) fn parse_url(s: &String) -> (r: Option<String>)
    ensures
        match r {
            Option::Some(u) => url_canon_of(s@) == Option::Some(u@),
            Option::None => url_canon_of(s@) is None,
        },
{
    match url::Url::parse(s.as_str()) {
        Ok(u) => Some(u.to_string()),
        Err(_) => None,
    }
}

/// The output script of the Bitcoin address these chars denote, when they
/// parse as an address; a function of the input alone.
pub uninterp spec fn addr_script_of(s: Seq<char>) -> Option<Seq<u8>>;

/// Relies on the `bitcoin` crate's `Address` parsing (re-exported by
/// payjoin): the script pubkey is a function of the address string alone.
#[verifier::external_body]
pub(crate) fn address_script(s: &String) -> (r: Option<Vec<u8>>)
    ensures
        match r {
            Option::Some(v) => addr_script_of(s@) == Option::Some(v@),
            Option::None => addr_script_of(s@) is None,
        },
{
    match s.as_str().parse::<payjoin::bitcoin::Address<payjoin::bitcoin::address::NetworkUnchecked>>() {
        Ok(a) => Some(a.assume_checked().script_pubkey().to_bytes()),
        Err(_) => None,
    }
}

/// Is this byte in the unreserved URI set (letters, digits, `-._~`)?
pub open spec fn is_unreserved(b: u8) -> bool {
    (0x41 <= b <= 0x5a) || (0x61 <= b <= 0x7a) || (0x30 <= b <= 0x39) || b == 0x2d || b == 0x2e
        || b == 0x5f || b == 0x7e
}

/// Percent-encoding of a byte sequence: unreserved bytes stand as
/// themselves, all others as `%XX`.
pub open spec fn pct_bytes(s: Seq<u8>) -> Seq<u8>
    decreases s.len(),
{
    if s.len() == 0 {
        Seq::empty()
    } else {
        pct_bytes(s.drop_last()) + (if is_unreserved(s.last()) {
            seq![s.last()]
        } else {
            seq![
                0x25u8,
                crate::text::hex_digit((s.last() / 16) as u8),
                crate::text::hex_digit((s.last() % 16) as u8),
            ]
        })
    }
}

/// Percent-encode bytes.
pub fn pct_encode(s: &Vec<u8>) -> (r: Vec<u8>)
    ensures
        r@ == pct_bytes(s@),
{
    let mut r: Vec<u8> = Vec::new();
    let mut i: usize = 0;
    assert(s@.take(0) =~= Seq::<u8>::empty());
    while i < s.len()
        invariant
            0 <= i <= s@.len(),
            r@ == pct_bytes(s@.take(i as int)),
        decreases s@.len() - i,
    {
        let b = s[i];
        let ghost prev = r@;
        if (0x41 <= b && b <= 0x5a) || (0x61 <= b && b <= 0x7a) || (0x30 <= b && b <= 0x39) || b
            == 0x2d || b == 0x2e || b == 0x5f || b == 0x7e {
            r.push(b);
        } else {
            r.push(0x25);
            let hi = b / 16;
            let lo = b % 16;
            r.push(
                if hi < 10 {
                    0x30 + hi
                } else {
                    0x57 + hi
                },
            );
            r.push(
                if lo < 10 {
                    0x30 + lo
                } else {
                    0x57 + lo
                },
            );
        }
        proof {
            assert(s@.take(i + 1).drop_last() =~= s@.take(i as int));
            assert(s@.take(i + 1).last() == s@[i as int]);
            assert(r@ =~= pct_bytes(s@.take(i + 1)));
        }
        i += 1;
    }
    proof {
        assert(s@.take(s@.len() as int) =~= s@);
    }
    r
}

/// Percent-decoding, one step at a time: a `%XX` pair yields its byte,
/// anything else stands for itself; a dangling or malformed escape
/// fails.
pub open spec fn pct_dec_acc(s: Seq<u8>, i: int, acc: Seq<u8>) -> Option<Seq<u8>>
    decreases s.len() - i,
{
    if i < 0 || i > s.len() {
        Option::None
    } else if i == s.len() {
        Option::Some(acc)
    } else if s[i] == 0x25 {
        if i + 3 <= s.len() && crate::text::is_hex_b(s[i + 1]) && crate::text::is_hex_b(
            s[i + 2],
        ) {
            pct_dec_acc(
                s,
                i + 3,
                acc.push(
                    (crate::text::hex_val_b(s[i + 1]) * 16 + crate::text::hex_val_b(
                        s[i + 2],
                    )) as u8,
                ),
            )
        } else {
            Option::None
        }
    } else {
        pct_dec_acc(s, i + 1, acc.push(s[i]))
    }
}

pub open spec fn spec_pct_decode(s: Seq<u8>) -> Option<Seq<u8>> {
    pct_dec_acc(s, 0, Seq::empty())
}

/// Percent-decode bytes.
pub fn pct_decode(s: &Vec<u8>) -> (r: Option<Vec<u8>>)
    ensures
        match r {
            Option::Some(v) => spec_pct_decode(s@) == Option::Some(v@),
            Option::None => spec_pct_decode(s@) is None,
        },
{
    let mut out: Vec<u8> = Vec::new();
    let mut i: usize = 0;
    proof {
        assert(out@ =~= Seq::<u8>::empty());
    }
    while i < s.len()
        invariant
            0 <= i <= s@.len(),
            pct_dec_acc(s@, 0, Seq::empty()) == pct_dec_acc(s@, i as int, out@),
        decreases s@.len() - i,
    {
        let b = s[i];
        if b == 0x25 {
            if s.len() - i < 3 {
                return Option::None;
            }
            let h = s[i + 1];
            let l = s[i + 2];
            let hv: u8 = if 0x30 <= h && h <= 0x39 {
                h - 0x30
            } else if 0x61 <= h && h <= 0x66 {
                h - 0x57
            } else if 0x41 <= h && h <= 0x46 {
                h - 0x37
            } else {
                return Option::None;
            };
            let lv: u8 = if 0x30 <= l && l <= 0x39 {
                l - 0x30
            } else if 0x61 <= l && l <= 0x66 {
                l - 0x57
            } else if 0x41 <= l && l <= 0x46 {
                l - 0x37
            } else {
                return Option::None;
            };
            out.push(hv * 16 + lv);
            i += 3;
        } else {
            out.push(b);
            i += 1;
        }
    }
    Option::Some(out)
}

/// The fractional part of a satoshi amount, as eight decimal digits.
pub open spec fn frac_digits(frac: u64) -> Seq<u8>
    recommends
        frac < 100_000_000,
{
    Seq::new(
        8,
        |i: int| (0x30 + (frac as int / crate::text::pow10((7 - i) as nat)) % 10) as u8,
    )
}

/// The exact BTC decimal form of a satoshi amount: whole BTC, a dot, and
/// eight fractional digits.  Integer arithmetic only.
pub open spec fn btc_amount_bytes(sat: u64) -> Seq<u8> {
    spec_dec_bytes((sat / 100_000_000) as int) + seq![0x2eu8] + frac_digits(sat % 100_000_000)
}

/// Write a satoshi amount in BTC decimal form.
pub fn format_btc_amount(sat: u64) -> (r: Vec<u8>)
    ensures
        r@ == btc_amount_bytes(sat),
{
    let mut r = dec_bytes(sat / 100_000_000);
    r.push(0x2e);
    let frac = sat % 100_000_000;
    let mut divisor: u64 = 10_000_000;
    proof {
        assert(crate::text::pow10(7) == 10_000_000) by {
            reveal_with_fuel(crate::text::pow10, 9);
        }
    }
    let ghost base = r@;
    let mut i: usize = 0;
    while i < 8
        invariant
            0 <= i <= 8,
            frac < 100_000_000,
            divisor as int == crate::text::pow10((7 - i) as nat) || i == 8,
            r@ == base + frac_digits(frac).take(i as int),
        decreases 8 - i,
    {
        proof {
            crate::text::lemma_pow10_mono((7 - i) as nat, (7 - i) as nat);
        }
        let d = ((frac / divisor) % 10) as u8;
        r.push(0x30 + d);
        proof {
            assert(base + frac_digits(frac).take(i + 1) =~= (base + frac_digits(frac).take(
                i as int,
            )).push(frac_digits(frac)[i as int]));
            assert(frac_digits(frac)[i as int] == (0x30 + (frac as int / crate::text::pow10(
                (7 - i) as nat,
            )) % 10) as u8);
        }
        if i < 7 {
            proof {
                assert(crate::text::pow10((7 - i) as nat) == 10 * crate::text::pow10(
                    (7 - (i + 1)) as nat,
                ));
            }
            divisor = divisor / 10;
        }
        i += 1;
    }
    proof {
        assert(frac_digits(frac).take(8) =~= frac_digits(frac));
        assert(r@ =~= btc_amount_bytes(sat));
    }
    r
}

/// The satoshi value a BTC decimal token denotes: an integer part of at
/// most ten digits, optionally a dot and at most eight fractional digits.
pub open spec fn spec_parse_btc(s: Seq<u8>) -> Option<u64> {
    let dot = find_b(s, 0x2e, 0);
    if dot == s.len() {
        match spec_parse_int_part(s) {
            Option::Some(whole) => amount_from(whole, 0),
            Option::None => Option::None,
        }
    } else {
        match spec_parse_int_part(s.take(dot)) {
            Option::Some(whole) => match spec_parse_frac_part(
                s.subrange(dot + 1, s.len() as int),
            ) {
                Option::Some(frac) => amount_from(whole, frac),
                Option::None => Option::None,
            },
            Option::None => Option::None,
        }
    }
}

pub open spec fn amount_from(whole: int, frac: int) -> Option<u64> {
    if whole * 100_000_000 + frac <= crate::psbt::MAX_MONEY_SAT {
        Option::Some((whole * 100_000_000 + frac) as u64)
    } else {
        Option::None
    }
}

/// An integer part: one to ten digits.
pub open spec fn spec_parse_int_part(s: Seq<u8>) -> Option<int> {
    if 1 <= s.len() <= 10 && (forall|i: int| 0 <= i < s.len() ==> is_digit_b(#[trigger] s[i])) {
        Option::Some(dec_val_b(s))
    } else {
        Option::None
    }
}

/// A fractional part: one to eight digits, scaled to satoshis.
pub open spec fn spec_parse_frac_part(s: Seq<u8>) -> Option<int> {
    if 1 <= s.len() <= 8 && (forall|i: int| 0 <= i < s.len() ==> is_digit_b(#[trigger] s[i])) {
        Option::Some(dec_val_b(s) * crate::text::pow10((8 - s.len()) as nat))
    } else {
        Option::None
    }
}

/// First index of `b` in `s` at or after `from`, or the length.
pub open spec fn find_b(s: Seq<u8>, b: u8, from: int) -> int
    decreases s.len() - from,
{
    if from < 0 || from >= s.len() {
        s.len() as int
    } else if s[from] == b {
        from
    } else {
        find_b(s, b, from + 1)
    }
}

/// `find_b` stays between its start and the length.
pub proof fn lemma_find_b_bounds(s: Seq<u8>, b: u8, from: int)
    requires
        0 <= from <= s.len(),
    ensures
        from <= find_b(s, b, from) <= s.len(),
    decreases s.len() - from,
{
    if from < s.len() && s[from] != b {
        lemma_find_b_bounds(s, b, from + 1);
    }
}

/// Find `b` in `s` starting at `from`.
pub fn find_byte(s: &Vec<u8>, b: u8, from: usize) -> (r: usize)
    requires
        from <= s@.len(),
    ensures
        r == find_b(s@, b, from as int),
        from <= r <= s@.len(),
        r < s@.len() ==> s@[r as int] == b,
        forall|j: int| from <= j < r ==> s@[j] != b,
{
    let mut i: usize = from;
    while i < s.len()
        invariant
            from <= i <= s@.len(),
            find_b(s@, b, from as int) == find_b(s@, b, i as int),
            forall|j: int| from <= j < i ==> s@[j] != b,
        decreases s@.len() - i,
    {
        if s[i] == b {
            return i;
        }
        i += 1;
    }
    s.len()
}

/// Parse a BTC decimal token into satoshis, exactly.
pub fn parse_btc_amount(s: &Vec<u8>) -> (r: Option<u64>)
    ensures
        r == spec_parse_btc(s@),
{
    let dot = find_byte(s, 0x2e, 0);
    let int_part = sub_bytes(s, 0, dot);
    let whole: u64 = match parse_int_part(&int_part) {
        Option::Some(w) => w,
        Option::None => {
            return Option::None;
        },
    };
    let frac: u64 = if dot == s.len() {
        0
    } else {
        let frac_part = sub_bytes(s, dot + 1, s.len());
        match parse_frac_part(&frac_part) {
            Option::Some(f) => f,
            Option::None => {
                return Option::None;
            },
        }
    };
    proof {
        if dot == s@.len() {
            assert(s@.take(dot as int) =~= s@);
        }
        assert(whole < 10_000_000_000);
        assert(frac < 100_000_000);
    }
    let total: u64 = whole * 100_000_000 + frac;
    if total > crate::psbt::MAX_MONEY_SAT {
        return Option::None;
    }
    Option::Some(total)
}

/// Parse an integer part of at most ten digits.
fn parse_int_part(s: &Vec<u8>) -> (r: Option<u64>)
    ensures
        match r {
            Option::Some(v) => spec_parse_int_part(s@) == Option::Some(v as int) && v
                < 10_000_000_000,
            Option::None => spec_parse_int_part(s@) is None,
        },
{
    if s.len() < 1 || s.len() > 10 {
        return Option::None;
    }
    match dec_parse(s) {
        Option::Some(v) => {
            proof {
                crate::text::lemma_dec_val_bound(s@);
                assert(crate::text::pow10(10) == 10_000_000_000) by {
                    reveal_with_fuel(crate::text::pow10, 12);
                }
                crate::text::lemma_pow10_mono(s@.len() as nat, 10);
            }
            Option::Some(v)
        },
        Option::None => Option::None,
    }
}

/// Parse a fractional part of at most eight digits, scaled to satoshis.
fn parse_frac_part(s: &Vec<u8>) -> (r: Option<u64>)
    ensures
        match r {
            Option::Some(v) => spec_parse_frac_part(s@) == Option::Some(v as int) && v
                < 100_000_000,
            Option::None => spec_parse_frac_part(s@) is None,
        },
{
    if s.len() < 1 || s.len() > 8 {
        return Option::None;
    }
    let v = match dec_parse(s) {
        Option::Some(v) => v,
        Option::None => {
            return Option::None;
        },
    };
    proof {
        crate::text::lemma_dec_val_bound(s@);
    }
    let mut scale: u64 = 1;
    let mut k: usize = s.len();
    while k < 8
        invariant
            1 <= s@.len() <= 8,
            s@.len() <= k <= 8,
            scale as int == crate::text::pow10((k - s@.len()) as nat),
            scale <= 10_000_000,
        decreases 8 - k,
    {
        proof {
            assert(crate::text::pow10((k + 1 - s@.len()) as nat) == 10 * crate::text::pow10(
                (k - s@.len()) as nat,
            ));
            crate::text::lemma_pow10_mono((k + 1 - s@.len()) as nat, 7);
            assert(crate::text::pow10(7) == 10_000_000) by {
                reveal_with_fuel(crate::text::pow10, 9);
            }
        }
        scale = scale * 10;
        k += 1;
    }
    proof {
        crate::text::lemma_dec_val_bound(s@);
        assert(crate::text::pow10(8) == 100_000_000) by {
            reveal_with_fuel(crate::text::pow10, 10);
        }
        crate::text::lemma_pow10_mono(s@.len() as nat, 8);
        crate::text::lemma_pow10_mono((8 - s@.len()) as nat, 8);
        assert(dec_val_b(s@) * (scale as int) < crate::text::pow10(s@.len() as nat)
            * crate::text::pow10((8 - s@.len()) as nat)) by (nonlinear_arith)
            requires
                0 <= dec_val_b(s@) < crate::text::pow10(s@.len() as nat),
                scale as int == crate::text::pow10((8 - s@.len()) as nat),
                crate::text::pow10((8 - s@.len()) as nat) >= 1,
        ;
        lemma_pow10_add(s@.len() as nat, (8 - s@.len()) as nat);
    }
    Option::Some(v * scale)
}

// ---- payment URI building ----

pub open spec fn lit_scheme() -> Seq<u8> {
    seq![0x62u8, 0x69u8, 0x74u8, 0x63u8, 0x6fu8, 0x69u8, 0x6eu8, 0x3au8]
}

pub open spec fn lit_amount_eq() -> Seq<u8> {
    seq![0x61u8, 0x6du8, 0x6fu8, 0x75u8, 0x6eu8, 0x74u8, 0x3du8]
}

pub open spec fn lit_label_eq() -> Seq<u8> {
    seq![0x6cu8, 0x61u8, 0x62u8, 0x65u8, 0x6cu8, 0x3du8]
}

pub open spec fn lit_message_eq() -> Seq<u8> {
    seq![0x6du8, 0x65u8, 0x73u8, 0x73u8, 0x61u8, 0x67u8, 0x65u8, 0x3du8]
}

pub open spec fn lit_pj_eq() -> Seq<u8> {
    seq![0x70u8, 0x6au8, 0x3du8]
}

pub open spec fn lit_pjos_0() -> Seq<u8> {
    seq![0x26u8, 0x70u8, 0x6au8, 0x6fu8, 0x73u8, 0x3du8, 0x30u8]
}

/// Builds the payment request line the receiver hands out: the address,
/// the optional exact amount, label and message, the negotiation
/// endpoint, and the substitution flag.
#[derive(Debug)]
pub struct PayjoinUriBuilder {
    pub address: String,
    pub endpoint: String,
    pub amount_sat: Option<u64>,
    pub label: Option<String>,
    pub message: Option<String>,
    pub pjos_disabled: bool,
}

pub open spec fn opt_str_bytes(o: Option<String>) -> Option<Seq<u8>> {
    match o {
        Option::Some(s) => ascii_rep(s@),
        Option::None => Option::None,
    }
}

pub open spec fn q_amount(o: Option<u64>) -> Seq<u8> {
    match o {
        Option::Some(v) => lit_amount_eq() + btc_amount_bytes(v) + seq![0x26u8],
        Option::None => Seq::empty(),
    }
}

pub open spec fn q_text(label: Seq<u8>, o: Option<Seq<u8>>) -> Seq<u8> {
    match o {
        Option::Some(t) => label + pct_bytes(t) + seq![0x26u8],
        Option::None => Seq::empty(),
    }
}

impl PayjoinUriBuilder {
    pub open spec fn wf(self) -> bool {
        &&& ascii_rep(self.address@) is Some
        &&& self.address@.len() >= 1
        &&& ascii_rep(self.endpoint@) is Some
        &&& (match self.label {
            Option::Some(l) => ascii_rep(l@) is Some,
            Option::None => true,
        })
        &&& (match self.message {
            Option::Some(m) => ascii_rep(m@) is Some,
            Option::None => true,
        })
    }

    /// Start a builder from a receiving address and a negotiation
    /// endpoint URL; both must parse.
    pub fn new(address: String, endpoint: String) -> (r: Result<Self, Error>)
        ensures
            match r {
                Result::Ok(b) => {
                    &&& b.wf()
                    &&& addr_script_of(address@) is Some
                    &&& b.address@ == address@
                    &&& url_canon_of(endpoint@) == Option::Some(b.endpoint@)
                    &&& b.amount_sat is None
                    &&& b.label is None
                    &&& b.message is None
                    &&& !b.pjos_disabled
                },
                Result::Err(e) => e == Error::InvalidInput,
            },
            ({
                &&& crate::text::ascii_rep(address@) is Some
                &&& address@.len() >= 1
                &&& addr_script_of(address@) is Some
                &&& (match url_canon_of(endpoint@) {
                    Option::Some(u) => crate::text::ascii_rep(u) is Some,
                    Option::None => false,
                })
            }) ==> r is Ok,
    {
        if address.as_str().is_ascii() == false {
            return Result::Err(Error::InvalidInput);
        }
        if address.as_str().unicode_len() == 0 {
            return Result::Err(Error::InvalidInput);
        }
        if address_script(&address).is_none() {
            return Result::Err(Error::InvalidInput);
        }
        let endpoint = match parse_url(&endpoint) {
            Option::Some(u) => u,
            Option::None => {
                return Result::Err(Error::InvalidInput);
            },
        };
        if endpoint.as_str().is_ascii() == false {
            return Result::Err(Error::InvalidInput);
        }
        Result::Ok(
            PayjoinUriBuilder {
                address,
                endpoint,
                amount_sat: Option::None,
                label: Option::None,
                message: Option::None,
                pjos_disabled: false,
            },
        )
    }

    /// Request an exact amount, in integer satoshis.
    pub fn amount(self, amount_sat: u64) -> (r: Result<Self, Error>)
        requires
            self.wf(),
        ensures
            match r {
                Result::Ok(b) => amount_sat <= crate::psbt::MAX_MONEY_SAT && b == (PayjoinUriBuilder {
                    amount_sat: Option::Some(amount_sat),
                    ..self
                }) && b.wf(),
                Result::Err(e) => e == Error::InvalidInput && amount_sat
                    > crate::psbt::MAX_MONEY_SAT,
            },
    {
        if amount_sat > crate::psbt::MAX_MONEY_SAT {
            return Result::Err(Error::InvalidInput);
        }
        Result::Ok(PayjoinUriBuilder { amount_sat: Option::Some(amount_sat), ..self })
    }

    /// Attach a label; it must be ASCII text.
    pub fn label(self, label: String) -> (r: Result<Self, Error>)
        requires
            self.wf(),
        ensures
            match r {
                Result::Ok(b) => crate::text::ascii_rep(label@) is Some && b == (PayjoinUriBuilder {
                    label: Option::Some(label),
                    ..self
                }) && b.wf(),
                Result::Err(e) => e == Error::InvalidInput && crate::text::ascii_rep(label@)
                    is None,
            },
    {
        if label.as_str().is_ascii() == false {
            return Result::Err(Error::InvalidInput);
        }
        Result::Ok(PayjoinUriBuilder { label: Option::Some(label), ..self })
    }

    /// Attach a message; it must be ASCII text.
    pub fn message(self, message: String) -> (r: Result<Self, Error>)
        requires
            self.wf(),
        ensures
            match r {
                Result::Ok(b) => crate::text::ascii_rep(message@) is Some && b
                    == (PayjoinUriBuilder {
                    message: Option::Some(message),
                    ..self
                }) && b.wf(),
                Result::Err(e) => e == Error::InvalidInput && crate::text::ascii_rep(message@)
                    is None,
            },
    {
        if message.as_str().is_ascii() == false {
            return Result::Err(Error::InvalidInput);
        }
        Result::Ok(PayjoinUriBuilder { message: Option::Some(message), ..self })
    }

    /// Forbid the receiver from substituting its output.
    pub fn disable_output_substitution(self) -> (b: Self)
        requires
            self.wf(),
        ensures
            b == (PayjoinUriBuilder { pjos_disabled: true, ..self }),
            b.wf(),
    {
        PayjoinUriBuilder { pjos_disabled: true, ..self }
    }

    /// The full URI this builder denotes, as bytes.
    pub open spec fn spec_build(self) -> Seq<u8> {
        lit_scheme() + ascii_rep(self.address@).unwrap_or(Seq::empty()) + seq![0x3fu8] + q_amount(
            self.amount_sat,
        ) + q_text(lit_label_eq(), opt_str_bytes(self.label)) + q_text(
            lit_message_eq(),
            opt_str_bytes(self.message),
        ) + lit_pj_eq() + pct_bytes(ascii_rep(self.endpoint@).unwrap_or(Seq::empty())) + (if self.pjos_disabled {
            lit_pjos_0()
        } else {
            Seq::empty()
        })
    }

    /// Serialize the URI.
    pub fn build(&self) -> (r: String)
        requires
            self.wf(),
        ensures
            r@ == chars_of_ascii(self.spec_build()),
    {
        let mut out: Vec<u8> = Vec::new();
        push_scheme_addr(&mut out, &self.address);
        push_amount_param(&mut out, &self.amount_sat);
        push_text_param_label(&mut out, &self.label);
        push_text_param_message(&mut out, &self.message);
        push_pj_tail(&mut out, &self.endpoint, self.pjos_disabled);
        proof {
            assert(out@ =~= self.spec_build());
            lemma_build_parts_ascii(*self);
        }
        ascii_string(&out)
    }
}

/// Append `bitcoin:`, the address, and the query separator.
fn push_scheme_addr(out: &mut Vec<u8>, address: &String)
    requires
        ascii_rep(address@) is Some,
    ensures
        final(out)@ == old(out)@ + lit_scheme() + ascii_rep(address@).unwrap_or(Seq::empty())
            + seq![0x3fu8],
{
    out.push(0x62);
    out.push(0x69);
    out.push(0x74);
    out.push(0x63);
    out.push(0x6f);
    out.push(0x69);
    out.push(0x6e);
    out.push(0x3a);
    proof {
        assert(out@ =~= old(out)@ + lit_scheme());
    }
    push_string_bytes(out, address);
    out.push(0x3f);
    proof {
        assert(out@ =~= old(out)@ + lit_scheme() + ascii_rep(address@).unwrap_or(Seq::empty())
            + seq![0x3fu8]);
    }
}

/// Append the amount parameter, when present.
fn push_amount_param(out: &mut Vec<u8>, o: &Option<u64>)
    ensures
        final(out)@ == old(out)@ + q_amount(*o),
{
    match o {
        Option::Some(v) => {
            out.push(0x61);
            out.push(0x6d);
            out.push(0x6f);
            out.push(0x75);
            out.push(0x6e);
            out.push(0x74);
            out.push(0x3d);
            let ab = format_btc_amount(*v);
            push_all(out, &ab);
            out.push(0x26);
            proof {
                assert(out@ =~= old(out)@ + q_amount(*o));
            }
        },
        Option::None => {
            proof {
                assert(out@ =~= old(out)@ + q_amount(*o));
            }
        },
    }
}

/// Append the label parameter, when present.
fn push_text_param_label(out: &mut Vec<u8>, o: &Option<String>)
    requires
        (match o {
            Option::Some(l) => ascii_rep(l@) is Some,
            Option::None => true,
        }),
    ensures
        final(out)@ == old(out)@ + q_text(lit_label_eq(), opt_str_bytes(*o)),
{
    match o {
        Option::Some(l) => {
            out.push(0x6c);
            out.push(0x61);
            out.push(0x62);
            out.push(0x65);
            out.push(0x6c);
            out.push(0x3d);
            let lb = string_ascii_bytes(l);
            let pe = pct_encode(&lb);
            push_all(out, &pe);
            out.push(0x26);
            proof {
                assert(out@ =~= old(out)@ + q_text(lit_label_eq(), opt_str_bytes(*o)));
            }
        },
        Option::None => {
            proof {
                assert(out@ =~= old(out)@ + q_text(lit_label_eq(), opt_str_bytes(*o)));
            }
        },
    }
}

/// Append the message parameter, when present.
fn push_text_param_message(out: &mut Vec<u8>, o: &Option<String>)
    requires
        (match o {
            Option::Some(m) => ascii_rep(m@) is Some,
            Option::None => true,
        }),
    ensures
        final(out)@ == old(out)@ + q_text(lit_message_eq(), opt_str_bytes(*o)),
{
    match o {
        Option::Some(m) => {
            out.push(0x6d);
            out.push(0x65);
            out.push(0x73);
            out.push(0x73);
            out.push(0x61);
            out.push(0x67);
            out.push(0x65);
            out.push(0x3d);
            let mb = string_ascii_bytes(m);
            let pe = pct_encode(&mb);
            push_all(out, &pe);
            out.push(0x26);
            proof {
                assert(out@ =~= old(out)@ + q_text(lit_message_eq(), opt_str_bytes(*o)));
            }
        },
        Option::None => {
            proof {
                assert(out@ =~= old(out)@ + q_text(lit_message_eq(), opt_str_bytes(*o)));
            }
        },
    }
}

/// Append the negotiation endpoint and the substitution flag.
fn push_pj_tail(out: &mut Vec<u8>, endpoint: &String, pjos_disabled: bool)
    requires
        ascii_rep(endpoint@) is Some,
    ensures
        final(out)@ == old(out)@ + lit_pj_eq() + pct_bytes(
            ascii_rep(endpoint@).unwrap_or(Seq::empty()),
        ) + (if pjos_disabled {
            lit_pjos_0()
        } else {
            Seq::empty()
        }),
{
    out.push(0x70);
    out.push(0x6a);
    out.push(0x3d);
    proof {
        assert(out@ =~= old(out)@ + lit_pj_eq());
    }
    let eb = string_ascii_bytes(endpoint);
    let pe = pct_encode(&eb);
    push_all(out, &pe);
    if pjos_disabled {
        out.push(0x26);
        out.push(0x70);
        out.push(0x6a);
        out.push(0x6f);
        out.push(0x73);
        out.push(0x3d);
        out.push(0x30);
    }
    proof {
        assert(out@ =~= old(out)@ + lit_pj_eq() + pct_bytes(
            ascii_rep(endpoint@).unwrap_or(Seq::empty()),
        ) + (if pjos_disabled {
            lit_pjos_0()
        } else {
            Seq::empty()
        }));
    }
}

/// Every byte a built URI holds is ASCII./// Every byte a built URI holds is ASCII.
#[verifier::rlimit(60)]
#[verifier::spinoff_prover]
proof fn lemma_build_parts_ascii(b: PayjoinUriBuilder)
    requires
        b.wf(),
    ensures
        forall|i: int| 0 <= i < b.spec_build().len() ==> #[trigger] b.spec_build()[i] < 128,
{
    lemma_pct_ascii(
        match opt_str_bytes(b.label) {
            Option::Some(l) => l,
            Option::None => Seq::empty(),
        },
    );
    lemma_pct_ascii(
        match opt_str_bytes(b.message) {
            Option::Some(m) => m,
            Option::None => Seq::empty(),
        },
    );
    lemma_btc_amount_ascii(
        match b.amount_sat {
            Option::Some(v) => v,
            Option::None => 0,
        },
    );
    lemma_pct_ascii(ascii_rep(b.endpoint@).unwrap_or(Seq::empty()));
    assert forall|i: int|
        0 <= i < b.spec_build().len() implies #[trigger] b.spec_build()[i] < 128 by {}
}

/// Append every byte of `b`./// Append every byte of `b`.
pub fn push_all(out: &mut Vec<u8>, b: &Vec<u8>)
    ensures
        final(out)@ == old(out)@ + b@,
{
    let mut i: usize = 0;
    let ghost base = out@;
    while i < b.len()
        invariant
            0 <= i <= b@.len(),
            out@ == base + b@.take(i as int),
        decreases b@.len() - i,
    {
        out.push(b[i]);
        proof {
            assert(base + b@.take(i + 1) =~= (base + b@.take(i as int)).push(b@[i as int]));
        }
        i += 1;
    }
    proof {
        assert(b@.take(b@.len() as int) =~= b@);
    }
}

/// The bytes of an ASCII string.
pub fn string_ascii_bytes(s: &String) -> (r: Vec<u8>)
    requires
        ascii_rep(s@) is Some,
    ensures
        ascii_rep(s@) == Option::Some(r@),
{
    let st = s.as_str();
    proof {
        vstd::string::is_ascii_spec_bytes(st);
    }
    let bytes = st.as_bytes();
    let mut bv: Vec<u8> = Vec::new();
    let mut i: usize = 0;
    while i < bytes.len()
        invariant
            0 <= i <= bytes@.len(),
            bv@ == bytes@.take(i as int),
        decreases bytes@.len() - i,
    {
        bv.push(bytes[i]);
        proof {
            assert(bytes@.take(i + 1) =~= bytes@.take(i as int).push(bytes@[i as int]));
        }
        i += 1;
    }
    proof {
        assert(bytes@.take(bytes@.len() as int) =~= bytes@);
        assert(ascii_rep(s@) == Option::Some(bv@));
    }
    bv
}

/// Append the bytes of an ASCII string.
pub fn push_string_bytes(out: &mut Vec<u8>, s: &String)
    requires
        ascii_rep(s@) is Some,
    ensures
        final(out)@ == old(out)@ + ascii_rep(s@).unwrap_or(Seq::empty()),
{
    let b = string_ascii_bytes(s);
    push_all(out, &b);
}

proof fn lemma_pct_ascii(s: Seq<u8>)
    ensures
        forall|i: int| 0 <= i < pct_bytes(s).len() ==> #[trigger] pct_bytes(s)[i] < 128,
    decreases s.len(),
{
    if s.len() > 0 {
        lemma_pct_ascii(s.drop_last());
        let p = pct_bytes(s);
        let q = pct_bytes(s.drop_last());
        assert forall|i: int| 0 <= i < p.len() implies #[trigger] p[i] < 128 by {
            if i < q.len() {
                assert(p[i] == q[i]);
            }
        }
    }
}

proof fn lemma_btc_amount_ascii(v: u64)
    ensures
        forall|i: int|
            0 <= i < btc_amount_bytes(v).len() ==> #[trigger] btc_amount_bytes(v)[i] < 128,
{
    crate::text::lemma_dec_bytes_ascii((v / 100_000_000) as int);
    let w = spec_dec_bytes((v / 100_000_000) as int);
    let f = frac_digits(v % 100_000_000);
    assert forall|i: int|
        0 <= i < btc_amount_bytes(v).len() implies #[trigger] btc_amount_bytes(v)[i] < 128 by {
        if i < w.len() {
            assert(btc_amount_bytes(v)[i] == w[i]);
        } else if i == w.len() {
        } else {
            assert(btc_amount_bytes(v)[i] == f[i - w.len() - 1]);
            let k = i - w.len() - 1;
            assert(f[k] == (0x30 + (((v % 100_000_000) as int) / crate::text::pow10(
                (7 - k) as nat,
            )) % 10) as u8);
        }
    }
}

// ---- payment URI parsing ----

/// The fields the parser extracts from the query string.
pub struct UriFieldsA {
    pub amount: Option<u64>,
    pub pj: Option<Seq<u8>>,
    pub pjos_disabled: bool,
}

pub open spec fn lit_amount_key() -> Seq<u8> {
    seq![0x61u8, 0x6du8, 0x6fu8, 0x75u8, 0x6eu8, 0x74u8]
}

pub open spec fn lit_pj_key() -> Seq<u8> {
    seq![0x70u8, 0x6au8]
}

pub open spec fn lit_pjos_key() -> Seq<u8> {
    seq![0x70u8, 0x6au8, 0x6fu8, 0x73u8]
}

/// Fold one `key=value` pair into the fields; an unparseable amount
/// fails, unknown keys are ignored.
pub open spec fn apply_param(kv: Seq<u8>, acc: UriFieldsA) -> Option<UriFieldsA> {
    let eq = find_b(kv, 0x3d, 0);
    if eq == kv.len() {
        Option::Some(acc)
    } else {
        let key = kv.take(eq);
        let value = kv.subrange(eq + 1, kv.len() as int);
        if key == lit_amount_key() {
            match spec_parse_btc(value) {
                Option::Some(v) => Option::Some(UriFieldsA { amount: Option::Some(v), ..acc }),
                Option::None => Option::None,
            }
        } else if key == lit_pj_key() {
            match spec_pct_decode(value) {
                Option::Some(v) => if forall|i: int| 0 <= i < v.len() ==> #[trigger] v[i] < 128 {
                    Option::Some(UriFieldsA { pj: Option::Some(v), ..acc })
                } else {
                    Option::None
                },
                Option::None => Option::None,
            }
        } else if key == lit_pjos_key() {
            Option::Some(UriFieldsA { pjos_disabled: value == seq![0x30u8], ..acc })
        } else {
            Option::Some(acc)
        }
    }
}

/// Fold every `&`-separated parameter from `i` on.
pub open spec fn parse_params(s: Seq<u8>, i: int, acc: UriFieldsA) -> Option<UriFieldsA>
    decreases s.len() - i,
        via parse_params_dec
{
    if i < 0 || i > s.len() {
        Option::None
    } else if i == s.len() {
        Option::Some(acc)
    } else {
        let amp = find_b(s, 0x26, i);
        match apply_param(s.subrange(i, amp), acc) {
            Option::Some(acc2) => if amp == s.len() {
                Option::Some(acc2)
            } else {
                parse_params(s, amp + 1, acc2)
            },
            Option::None => Option::None,
        }
    }
}

#[via_fn]
proof fn parse_params_dec(s: Seq<u8>, i: int, acc: UriFieldsA) {
    if 0 <= i < s.len() {
        lemma_find_b_bounds(s, 0x26, i);
    }
}

/// What a full payment URI denotes: the address bytes and the query
/// fields.
pub open spec fn spec_parse_uri(s: Seq<u8>) -> Option<(Seq<u8>, UriFieldsA)> {
    if s.len() >= 8 && s.take(8) == lit_scheme() {
        let rest = s.skip(8);
        let q = find_b(rest, 0x3f, 0);
        let addr = rest.take(q);
        if addr.len() == 0 {
            Option::None
        } else if q == rest.len() {
            Option::Some(
                (addr, UriFieldsA { amount: Option::None, pj: Option::None, pjos_disabled: false }),
            )
        } else {
            match parse_params(
                rest,
                q + 1,
                UriFieldsA { amount: Option::None, pj: Option::None, pjos_disabled: false },
            ) {
                Option::Some(f) => Option::Some((addr, f)),
                Option::None => Option::None,
            }
        }
    } else {
        Option::None
    }
}

/// Apply one `key=value` pair; mirrors `apply_param`.
fn apply_param_exec(kv: &Vec<u8>, amount: &mut Option<u64>, pj: &mut Option<Vec<u8>>, pjos: &mut
    bool) -> (ok: bool)
    ensures
        (match apply_param(
            kv@,
            UriFieldsA {
                amount: *old(amount),
                pj: opt_bytes_abs(*old(pj)),
                pjos_disabled: *old(pjos),
            },
        ) {
            Option::Some(f) => ok && f.amount == *final(amount) && f.pj == opt_bytes_abs(
                *final(pj),
            ) && f.pjos_disabled == *final(pjos),
            Option::None => !ok,
        }),
{
    let eq = find_byte(kv, 0x3d, 0);
    if eq == kv.len() {
        return true;
    }
    let key = sub_bytes(kv, 0, eq);
    let value = sub_bytes(kv, eq + 1, kv.len());
    if key.len() == 6 && key[0] == 0x61 && key[1] == 0x6d && key[2] == 0x6f && key[3] == 0x75
        && key[4] == 0x6e && key[5] == 0x74 {
        proof {
            assert(key@ =~= lit_amount_key());
        }
        match parse_btc_amount(&value) {
            Option::Some(v) => {
                *amount = Option::Some(v);
                true
            },
            Option::None => false,
        }
    } else if key.len() == 2 && key[0] == 0x70 && key[1] == 0x6a {
        proof {
            assert(key@ =~= lit_pj_key());
        }
        let decoded = match pct_decode(&value) {
            Option::Some(v) => v,
            Option::None => {
                proof {
                    assert(spec_pct_decode(kv@.subrange(eq + 1, kv@.len() as int)) is None);
                }
                return false;
            },
        };
        let mut ai: usize = 0;
        while ai < decoded.len()
            invariant
                0 <= ai <= decoded@.len(),
                spec_pct_decode(kv@.subrange(eq as int + 1, kv@.len() as int))
                    == Option::Some(decoded@),
                kv@.take(eq as int) == lit_pj_key(),
                eq as int == find_b(kv@, 0x3d, 0),
                eq < kv@.len(),
                forall|q: int| 0 <= q < ai ==> #[trigger] decoded@[q] < 128,
            decreases decoded@.len() - ai,
        {
            if decoded[ai] >= 128 {
                proof {
                    assert(!(forall|q: int|
                        0 <= q < decoded@.len() ==> #[trigger] decoded@[q] < 128));
                }
                return false;
            }
            ai += 1;
        }
        *pj = Option::Some(decoded);
        true
    } else if key.len() == 4 && key[0] == 0x70 && key[1] == 0x6a && key[2] == 0x6f && key[3]
        == 0x73 {
        proof {
            assert(key@ =~= lit_pjos_key());
        }
        let is_zero = value.len() == 1 && value[0] == 0x30;
        proof {
            if is_zero {
                assert(value@ =~= seq![0x30u8]);
            } else {
                assert(value@ != seq![0x30u8]);
            }
        }
        *pjos = is_zero;
        true
    } else {
        proof {
            assert(key@ != lit_amount_key());
            assert(key@ != lit_pj_key());
            assert(key@ != lit_pjos_key());
        }
        true
    }
}

pub open spec fn opt_bytes_abs(o: Option<Vec<u8>>) -> Option<Seq<u8>> {
    match o {
        Option::Some(v) => Option::Some(v@),
        Option::None => Option::None,
    }
}

/// A parsed payment line, before network checking.
#[derive(Debug)]
pub struct BtcUri {
    pub address: String,
    pub amount_sat: Option<u64>,
    pub pj: Option<String>,
    pub pjos_disabled: bool,
}

impl BtcUri {
    pub open spec fn wf(self) -> bool {
        &&& ascii_rep(self.address@) is Some
        &&& (match self.pj {
            Option::Some(p) => ascii_rep(p@) is Some,
            Option::None => true,
        })
    }

    /// How a parsed value relates to the input's parse.
    pub open spec fn from_fields(self, addr: Seq<u8>, f: UriFieldsA) -> bool {
        &&& ascii_rep(self.address@) == Option::Some(addr)
        &&& self.amount_sat == f.amount
        &&& (match (self.pj, f.pj) {
            (Option::Some(p), Option::Some(b)) => ascii_rep(p@) == Option::Some(b),
            (Option::None, Option::None) => true,
            _ => false,
        })
        &&& self.pjos_disabled == f.pjos_disabled
    }

    /// Parse a payment line.
    pub fn try_from(bip21: String) -> (r: Result<BtcUri, Error>)
        ensures
            match r {
                Result::Ok(u) => {
                    &&& u.wf()
                    &&& (match ascii_rep(bip21@) {
                        Option::Some(bs) => match spec_parse_uri(bs) {
                            Option::Some((addr, f)) => u.from_fields(addr, f),
                            Option::None => false,
                        },
                        Option::None => false,
                    })
                },
                Result::Err(e) => {
                    &&& e == Error::InvalidInput
                    &&& (match ascii_rep(bip21@) {
                        Option::Some(bs) => spec_parse_uri(bs) is None,
                        Option::None => true,
                    })
                },
            },
    {
        if bip21.as_str().is_ascii() == false {
            proof {
                assert(ascii_rep(bip21@) is None);
            }
            return Result::Err(Error::InvalidInput);
        }
        let s = string_ascii_bytes(&bip21);
        proof {
            lemma_ascii_rep_bytes(bip21@);
        }
        if s.len() < 8 || !(s[0] == 0x62 && s[1] == 0x69 && s[2] == 0x74 && s[3] == 0x63 && s[4]
            == 0x6f && s[5] == 0x69 && s[6] == 0x6e && s[7] == 0x3a) {
            proof {
                if s@.len() >= 8 {
                    assert(s@.take(8) != lit_scheme()) by {
                        assert(!(s@[0] == 0x62 && s@[1] == 0x69 && s@[2] == 0x74 && s@[3] == 0x63
                            && s@[4] == 0x6f && s@[5] == 0x69 && s@[6] == 0x6e && s@[7] == 0x3a));
                        if s@.take(8) == lit_scheme() {
                            assert(s@.take(8)[0] == 0x62u8 && s@.take(8)[1] == 0x69u8 && s@.take(
                                8,
                            )[2] == 0x74u8 && s@.take(8)[3] == 0x63u8 && s@.take(8)[4] == 0x6fu8
                                && s@.take(8)[5] == 0x69u8 && s@.take(8)[6] == 0x6eu8 && s@.take(
                                8,
                            )[7] == 0x3au8);
                        }
                    }
                }
            }
            return Result::Err(Error::InvalidInput);
        }
        proof {
            assert(s@.take(8) =~= lit_scheme());
        }
        let rest = sub_bytes(&s, 8, s.len());
        proof {
            assert(rest@ =~= s@.skip(8));
            assert(forall|k: int| 0 <= k < rest@.len() ==> #[trigger] rest@[k] < 128);
        }
        let q = find_byte(&rest, 0x3f, 0);
        if q == 0 {
            return Result::Err(Error::InvalidInput);
        }
        let addr = sub_bytes(&rest, 0, q);
        proof {
            assert(addr@ =~= rest@.take(q as int));
            assert(forall|k: int| 0 <= k < addr@.len() ==> #[trigger] addr@[k] < 128);
        }
        let ghost init = UriFieldsA { amount: Option::None, pj: Option::None, pjos_disabled: false };
        let mut amount: Option<u64> = Option::None;
        let mut pj: Option<Vec<u8>> = Option::None;
        let mut pjos: bool = false;
        if q < rest.len() {
            let mut i: usize = q + 1;
            loop
                invariant
                    ascii_rep(bip21@) == Option::Some(s@),
                    s@.len() >= 8,
                    s@.take(8) == lit_scheme(),
                    rest@ == s@.skip(8),
                    q as int == find_b(rest@, 0x3f, 0),
                    0 < q < rest@.len(),
                    addr@ == rest@.take(q as int),
                    forall|k: int| 0 <= k < addr@.len() ==> #[trigger] addr@[k] < 128,
                    init == (UriFieldsA {
                        amount: Option::None,
                        pj: Option::None,
                        pjos_disabled: false,
                    }),
                    q + 1 <= i <= rest@.len(),
                    forall|k: int| 0 <= k < rest@.len() ==> #[trigger] rest@[k] < 128,
                    (match opt_bytes_abs(pj) {
                        Option::Some(b) => forall|k: int| 0 <= k < b.len() ==> #[trigger] b[k]
                            < 128,
                        Option::None => true,
                    }),
                    parse_params(rest@, q + 1, init) == parse_params(
                        rest@,
                        i as int,
                        UriFieldsA { amount: amount, pj: opt_bytes_abs(pj), pjos_disabled: pjos },
                    ),
                ensures
                    (match opt_bytes_abs(pj) {
                        Option::Some(b) => forall|k: int| 0 <= k < b.len() ==> #[trigger] b[k]
                            < 128,
                        Option::None => true,
                    }),
                    parse_params(rest@, q + 1, init) == Option::Some(
                        UriFieldsA { amount: amount, pj: opt_bytes_abs(pj), pjos_disabled: pjos },
                    ),
                decreases rest@.len() - i,
            {
                let ghost acc_before = UriFieldsA {
                    amount: amount,
                    pj: opt_bytes_abs(pj),
                    pjos_disabled: pjos,
                };
                let amp = find_byte(&rest, 0x26, i);
                let kv = sub_bytes(&rest, i, amp);
                proof {
                    assert(forall|k: int| 0 <= k < kv@.len() ==> #[trigger] kv@[k] < 128);
                }
                let ok = apply_param_exec(&kv, &mut amount, &mut pj, &mut pjos);
                if !ok {
                    proof {
                        assert(apply_param(kv@, acc_before) is None);
                        assert(parse_params(rest@, i as int, acc_before) is None);
                        assert(parse_params(rest@, q + 1, init) is None);
                        assert(spec_parse_uri(s@) is None);
                    }
                    return Result::Err(Error::InvalidInput);
                }
                proof {
                    assert(apply_param(kv@, acc_before) == Option::Some(
                        UriFieldsA {
                            amount: amount,
                            pj: opt_bytes_abs(pj),
                            pjos_disabled: pjos,
                        },
                    ));
                    let f = apply_param(kv@, acc_before)->Some_0;
                    let eq = find_b(kv@, 0x3d, 0);
                    lemma_find_b_bounds(kv@, 0x3d, 0);
                    assert(f.pj == acc_before.pj || (match f.pj {
                        Option::Some(b) => forall|k: int|
                            0 <= k < b.len() ==> #[trigger] b[k] < 128,
                        Option::None => false,
                    }));
                    assert(opt_bytes_abs(pj) == f.pj);
                    match opt_bytes_abs(pj) {
                        Option::Some(b) => {
                            if acc_before.pj == f.pj {
                            } else {
                                assert(forall|k: int|
                                    0 <= k < b.len() ==> #[trigger] b[k] < 128);
                            }
                        },
                        Option::None => {},
                    }
                }
                if amp == rest.len() {
                    proof {
                        assert(parse_params(rest@, q + 1, init) == Option::Some(
                            UriFieldsA {
                                amount: amount,
                                pj: opt_bytes_abs(pj),
                                pjos_disabled: pjos,
                            },
                        ));
                    }
                    break ;
                }
                i = amp + 1;
            }
        }
        proof {
            assert(match opt_bytes_abs(pj) {
                Option::Some(b) => forall|k: int| 0 <= k < b.len() ==> #[trigger] b[k] < 128,
                Option::None => true,
            });
        }
        let address = ascii_string(&addr);
        let pj_str: Option<String> = match &pj {
            Option::Some(v) => {
                proof {
                    assert(opt_bytes_abs(pj) == Option::Some(v@));
                    assert forall|k: int| 0 <= k < v@.len() implies #[trigger] v@[k] < 128 by {
                        let b = opt_bytes_abs(pj)->Some_0;
                        assert(b[k] < 128);
                    }
                }
                Option::Some(ascii_string(v))
            },
            Option::None => Option::None,
        };
        let u = BtcUri { address, amount_sat: amount, pj: pj_str, pjos_disabled: pjos };
        proof {
            let ghost fields = UriFieldsA {
                amount: amount,
                pj: opt_bytes_abs(pj),
                pjos_disabled: pjos,
            };
            assert(spec_parse_uri(s@) == Option::Some((addr@, fields)));
            lemma_ascii_round(addr@);
            match &pj {
                Option::Some(v) => {
                    assert(opt_bytes_abs(pj) == Option::Some(v@));
                    assert forall|k: int| 0 <= k < v@.len() implies #[trigger] v@[k] < 128 by {
                        let b = opt_bytes_abs(pj)->Some_0;
                        assert(b[k] < 128);
                    }
                    lemma_ascii_round(v@);
                },
                _ => {},
            }
        }
        Result::Ok(u)
    }

    /// Adopt the address's network as checked.
    pub fn assume_checked(self) -> (r: CheckedBtcUri)
        requires
            self.wf(),
        ensures
            r.inner == self,
            r.inner.wf(),
    {
        CheckedBtcUri { inner: self }
    }
}

/// A parsed payment line whose address network the caller vouches for.
#[derive(Debug)]
pub struct CheckedBtcUri {
    pub inner: BtcUri,
}

impl CheckedBtcUri {
    /// Require Payjoin support: the line must carry a negotiation
    /// endpoint.
    pub fn check_pj_supported(self) -> (r: Result<PayjoinUri, Error>)
        requires
            self.inner.wf(),
        ensures
            match r {
                Result::Ok(u) => {
                    &&& self.inner.pj matches Option::Some(p) && u.endpoint@ == p@
                    &&& u.address@ == self.inner.address@
                    &&& u.amount_sat == self.inner.amount_sat
                    &&& u.pjos_disabled == self.inner.pjos_disabled
                    &&& u.wf()
                },
                Result::Err(e) => e == Error::InvalidInput && self.inner.pj is None,
            },
    {
        match self.inner.pj {
            Option::Some(p) => Result::Ok(
                PayjoinUri {
                    address: self.inner.address,
                    endpoint: p,
                    amount_sat: self.inner.amount_sat,
                    pjos_disabled: self.inner.pjos_disabled,
                },
            ),
            Option::None => Result::Err(Error::InvalidInput),
        }
    }
}

/// A payment line that declares Payjoin support.
#[derive(Debug)]
pub struct PayjoinUri {
    pub address: String,
    pub endpoint: String,
    pub amount_sat: Option<u64>,
    pub pjos_disabled: bool,
}

impl PayjoinUri {
    pub open spec fn wf(self) -> bool {
        &&& ascii_rep(self.address@) is Some
        &&& ascii_rep(self.endpoint@) is Some
    }

    /// The negotiation endpoint.
    pub fn endpoint(&self) -> (r: PayjoinUrl)
        ensures
            r.inner@ == self.endpoint@,
    {
        PayjoinUrl { inner: self.endpoint.clone() }
    }

    /// The requested amount, in satoshis.
    pub fn amount(&self) -> (r: Option<u64>)
        ensures
            r == self.amount_sat,
    {
        self.amount_sat
    }

    /// The receiving address.
    pub fn address(&self) -> (r: Option<String>)
        ensures
            match r {
                Option::Some(a) => a@ == self.address@,
                Option::None => false,
            },
    {
        Option::Some(self.address.clone())
    }

    /// The expiry timestamp carried in the endpoint's fragment, as an
    /// `EX1`-prefixed decimal.
    pub fn exp(&self) -> (r: Option<u64>)
        requires
            self.wf(),
        ensures
            r == spec_exp(ascii_rep(self.endpoint@).unwrap_or(Seq::empty())),
    {
        let eb = string_ascii_bytes(&self.endpoint);
        let frag_at = find_byte(&eb, 0x23, 0);
        if frag_at == eb.len() {
            return Option::None;
        }
        let frag = sub_bytes(&eb, frag_at + 1, eb.len());
        let param = match get_param(&frag) {
            Option::Some(p) => p,
            Option::None => {
                return Option::None;
            },
        };
        match decode_exp_payload(&param) {
            Option::Some(t) => Option::Some(t as u64),
            Option::None => Option::None,
        }
    }
}

/// Decode an expiry payload from its first seven characters.
pub fn decode_exp_payload(d: &Vec<u8>) -> (r: Option<u32>)
    ensures
        r == spec_exp_decode(d@),
{
    if d.len() < 7 {
        return Option::None;
    }
    let mut vals: Vec<u8> = Vec::new();
    let mut i: usize = 0;
    while i < d.len()
        invariant
            d@.len() >= 7,
            0 <= i <= d@.len(),
            vals@.len() == (if i <= 7 { i as int } else { 7 }),
            forall|k: int|
                0 <= k < vals@.len() ==> vals@[k] == b32_val(#[trigger] d@[k]) && vals@[k] < 32,
            forall|k: int| 0 <= k < i ==> b32_val(#[trigger] d@[k]) < 32,
        decreases d@.len() - i,
    {
        let v = b32_val_exec(d[i]);
        if v >= 32 {
            return Option::None;
        }
        if i < 7 {
            vals.push(v);
        }
        i += 1;
    }
    let v0 = vals[0];
    let v1 = vals[1];
    let v2 = vals[2];
    let v3 = vals[3];
    let v4 = vals[4];
    let v5 = vals[5];
    let v6 = vals[6];
    let b0: u8 = v0 << 3 | v1 >> 2;
    let b1: u8 = (v1 & 3) << 6 | v2 << 1 | v3 >> 4;
    let b2: u8 = (v3 & 15) << 4 | v4 >> 1;
    let b3: u8 = (v4 & 1) << 7 | v5 << 2 | v6 >> 3;
    proof {
        assert(v0 << 3 < 256 && (v1 & 3) << 6 < 256 && v2 << 1 < 256 && (v3 & 15) << 4 < 256
            && (v4 & 1) << 7 < 256 && v5 << 2 < 256) by (bit_vector)
            requires
                v0 < 32 && v1 < 32 && v2 < 32 && v3 < 32 && v4 < 32 && v5 < 32,
        ;
    }
    Option::Some((b0 as u32) | (b1 as u32) << 8 | (b2 as u32) << 16 | (b3 as u32) << 24)
}

/// The value of one bech32 data character.
pub fn b32_val_exec(c: u8) -> (v: u8)
    ensures
        v == b32_val(c),
{
    let b: u8 = if 0x41 <= c && c <= 0x5a {
        c + 0x20
    } else {
        c
    };
    if b == 0x71 {
        0
    } else if b == 0x70 {
        1
    } else if b == 0x7a {
        2
    } else if b == 0x72 {
        3
    } else if b == 0x79 {
        4
    } else if b == 0x39 {
        5
    } else if b == 0x78 {
        6
    } else if b == 0x38 {
        7
    } else if b == 0x67 {
        8
    } else if b == 0x66 {
        9
    } else if b == 0x32 {
        10
    } else if b == 0x74 {
        11
    } else if b == 0x76 {
        12
    } else if b == 0x64 {
        13
    } else if b == 0x77 {
        14
    } else if b == 0x30 {
        15
    } else if b == 0x73 {
        16
    } else if b == 0x33 {
        17
    } else if b == 0x6a {
        18
    } else if b == 0x6e {
        19
    } else if b == 0x35 {
        20
    } else if b == 0x34 {
        21
    } else if b == 0x6b {
        22
    } else if b == 0x68 {
        23
    } else if b == 0x63 {
        24
    } else if b == 0x65 {
        25
    } else if b == 0x36 {
        26
    } else if b == 0x6d {
        27
    } else if b == 0x75 {
        28
    } else if b == 0x61 {
        29
    } else if b == 0x37 {
        30
    } else if b == 0x6c {
        31
    } else {
        32
    }
}

/// Encode a number as the seven-character expiry payload.
pub fn encode_exp_payload(t: u32) -> (r: Vec<u8>)
    ensures
        r@ == spec_exp_chars(t),
{
    let b0: u8 = (t & 0xff) as u8;
    let b1: u8 = ((t >> 8) & 0xff) as u8;
    let b2: u8 = ((t >> 16) & 0xff) as u8;
    let b3: u8 = ((t >> 24) & 0xff) as u8;
    let mut r: Vec<u8> = Vec::new();
    r.push(b32_char_exec(b0 >> 3));
    r.push(b32_char_exec((b0 & 7) << 2 | b1 >> 6));
    r.push(b32_char_exec((b1 >> 1) & 31));
    r.push(b32_char_exec((b1 & 1) << 4 | b2 >> 4));
    r.push(b32_char_exec((b2 & 15) << 1 | b3 >> 7));
    r.push(b32_char_exec((b3 >> 2) & 31));
    r.push(b32_char_exec((b3 & 3) << 3));
    proof {
        assert(r@ =~= spec_exp_chars(t));
    }
    r
}

/// The lower-case bech32 data character for a five-bit value.
pub fn b32_char_exec(v: u8) -> (c: u8)
    ensures
        c == b32_char(v),
{
    if v == 0 {
        0x71
    } else if v == 1 {
        0x70
    } else if v == 2 {
        0x7a
    } else if v == 3 {
        0x72
    } else if v == 4 {
        0x79
    } else if v == 5 {
        0x39
    } else if v == 6 {
        0x78
    } else if v == 7 {
        0x38
    } else if v == 8 {
        0x67
    } else if v == 9 {
        0x66
    } else if v == 10 {
        0x32
    } else if v == 11 {
        0x74
    } else if v == 12 {
        0x76
    } else if v == 13 {
        0x64
    } else if v == 14 {
        0x77
    } else if v == 15 {
        0x30
    } else if v == 16 {
        0x73
    } else if v == 17 {
        0x33
    } else if v == 18 {
        0x6a
    } else if v == 19 {
        0x6e
    } else if v == 20 {
        0x35
    } else if v == 21 {
        0x34
    } else if v == 22 {
        0x6b
    } else if v == 23 {
        0x68
    } else if v == 24 {
        0x63
    } else if v == 25 {
        0x65
    } else if v == 26 {
        0x36
    } else if v == 27 {
        0x6d
    } else if v == 28 {
        0x75
    } else if v == 29 {
        0x61
    } else if v == 30 {
        0x37
    } else {
        0x6c
    }
}

/// The value of one bech32 data character (either case), or 32 when the
/// byte is not in the character set.
pub open spec fn b32_val(c: u8) -> u8 {
    let b = if 0x41 <= c <= 0x5a {
        (c + 0x20) as u8
    } else {
        c
    };
    if b == 0x71 {
        0
    } else if b == 0x70 {
        1
    } else if b == 0x7a {
        2
    } else if b == 0x72 {
        3
    } else if b == 0x79 {
        4
    } else if b == 0x39 {
        5
    } else if b == 0x78 {
        6
    } else if b == 0x38 {
        7
    } else if b == 0x67 {
        8
    } else if b == 0x66 {
        9
    } else if b == 0x32 {
        10
    } else if b == 0x74 {
        11
    } else if b == 0x76 {
        12
    } else if b == 0x64 {
        13
    } else if b == 0x77 {
        14
    } else if b == 0x30 {
        15
    } else if b == 0x73 {
        16
    } else if b == 0x33 {
        17
    } else if b == 0x6a {
        18
    } else if b == 0x6e {
        19
    } else if b == 0x35 {
        20
    } else if b == 0x34 {
        21
    } else if b == 0x6b {
        22
    } else if b == 0x68 {
        23
    } else if b == 0x63 {
        24
    } else if b == 0x65 {
        25
    } else if b == 0x36 {
        26
    } else if b == 0x6d {
        27
    } else if b == 0x75 {
        28
    } else if b == 0x61 {
        29
    } else if b == 0x37 {
        30
    } else if b == 0x6c {
        31
    } else {
        32
    }
}

/// The lower-case bech32 data character for a five-bit value.
pub open spec fn b32_char(v: u8) -> u8
    recommends
        v < 32,
{
    if v == 0 {
        0x71
    } else if v == 1 {
        0x70
    } else if v == 2 {
        0x7a
    } else if v == 3 {
        0x72
    } else if v == 4 {
        0x79
    } else if v == 5 {
        0x39
    } else if v == 6 {
        0x78
    } else if v == 7 {
        0x38
    } else if v == 8 {
        0x67
    } else if v == 9 {
        0x66
    } else if v == 10 {
        0x32
    } else if v == 11 {
        0x74
    } else if v == 12 {
        0x76
    } else if v == 13 {
        0x64
    } else if v == 14 {
        0x77
    } else if v == 15 {
        0x30
    } else if v == 16 {
        0x73
    } else if v == 17 {
        0x33
    } else if v == 18 {
        0x6a
    } else if v == 19 {
        0x6e
    } else if v == 20 {
        0x35
    } else if v == 21 {
        0x34
    } else if v == 22 {
        0x6b
    } else if v == 23 {
        0x68
    } else if v == 24 {
        0x63
    } else if v == 25 {
        0x65
    } else if v == 26 {
        0x36
    } else if v == 27 {
        0x6d
    } else if v == 28 {
        0x75
    } else if v == 29 {
        0x61
    } else if v == 30 {
        0x37
    } else {
        0x6c
    }
}

/// An expiry payload: bech32 data characters whose first seven carry
/// four bytes (plus three ignored padding bits) holding a little-endian
/// number.  Every character must be from the data charset, but bytes
/// past the first four are ignored.
pub open spec fn spec_exp_decode(d: Seq<u8>) -> Option<u32> {
    if d.len() >= 7 && (forall|i: int| 0 <= i < d.len() ==> b32_val(#[trigger] d[i]) < 32) {
        let v0 = b32_val(d[0]);
        let v1 = b32_val(d[1]);
        let v2 = b32_val(d[2]);
        let v3 = b32_val(d[3]);
        let v4 = b32_val(d[4]);
        let v5 = b32_val(d[5]);
        let v6 = b32_val(d[6]);
        let b0 = (v0 << 3 | v1 >> 2) as u8;
        let b1 = ((v1 & 3) << 6 | v2 << 1 | v3 >> 4) as u8;
        let b2 = ((v3 & 15) << 4 | v4 >> 1) as u8;
        let b3 = ((v4 & 1) << 7 | v5 << 2 | v6 >> 3) as u8;
        Option::Some(
            (b0 as u32) | (b1 as u32) << 8 | (b2 as u32) << 16 | (b3 as u32) << 24,
        )
    } else {
        Option::None
    }
}

/// The seven data characters that carry a number as an expiry payload.
pub open spec fn spec_exp_chars(t: u32) -> Seq<u8> {
    let b0 = (t & 0xff) as u8;
    let b1 = ((t >> 8) & 0xff) as u8;
    let b2 = ((t >> 16) & 0xff) as u8;
    let b3 = ((t >> 24) & 0xff) as u8;
    seq![
        b32_char((b0 >> 3) as u8),
        b32_char(((b0 & 7) << 2 | b1 >> 6) as u8),
        b32_char(((b1 >> 1) & 31) as u8),
        b32_char(((b1 & 1) << 4 | b2 >> 4) as u8),
        b32_char(((b2 & 15) << 1 | b3 >> 7) as u8),
        b32_char(((b3 >> 2) & 31) as u8),
        b32_char(((b3 & 3) << 3) as u8),
    ]
}

/// Writing an expiry and reading it back gives the number back: the
/// round-trip law for the payment line's expiry payload.
pub proof fn lemma_exp_round_trip(t: u32)
    ensures
        spec_exp_decode(spec_exp_chars(t)) == Option::Some(t),
{
    assert(forall|v: u8| v < 32 ==> b32_val(#[trigger] b32_char(v)) == v);
    let b0 = (t & 0xff) as u8;
    let b1 = ((t >> 8) & 0xff) as u8;
    let b2 = ((t >> 16) & 0xff) as u8;
    let b3 = ((t >> 24) & 0xff) as u8;
    let v0 = (b0 >> 3) as u8;
    let v1 = ((b0 & 7) << 2 | b1 >> 6) as u8;
    let v2 = ((b1 >> 1) & 31) as u8;
    let v3 = ((b1 & 1) << 4 | b2 >> 4) as u8;
    let v4 = ((b2 & 15) << 1 | b3 >> 7) as u8;
    let v5 = ((b3 >> 2) & 31) as u8;
    let v6 = ((b3 & 3) << 3) as u8;
    assert(v0 < 32 && v1 < 32 && v2 < 32 && v3 < 32 && v4 < 32 && v5 < 32 && v6 < 32)
        by (bit_vector)
        requires
            v0 == (b0 >> 3) as u8 && v1 == ((b0 & 7) << 2 | b1 >> 6) as u8 && v2 == ((b1 >> 1)
                & 31) as u8 && v3 == ((b1 & 1) << 4 | b2 >> 4) as u8 && v4 == ((b2 & 15) << 1
                | b3 >> 7) as u8 && v5 == ((b3 >> 2) & 31) as u8 && v6 == ((b3 & 3) << 3) as u8,
    ;
    assert((((v0 << 3 | v1 >> 2) as u8) as u32) | ((((v1 & 3) << 6 | v2 << 1 | v3 >> 4) as u8)
        as u32) << 8 | ((((v3 & 15) << 4 | v4 >> 1) as u8) as u32) << 16 | ((((v4 & 1) << 7 | v5
        << 2 | v6 >> 3) as u8) as u32) << 24 == t) by (bit_vector)
        requires
            b0 == (t & 0xff) as u8 && b1 == ((t >> 8) & 0xff) as u8 && b2 == ((t >> 16)
                & 0xff) as u8 && b3 == ((t >> 24) & 0xff) as u8 && v0 == (b0 >> 3) as u8 && v1
                == ((b0 & 7) << 2 | b1 >> 6) as u8 && v2 == ((b1 >> 1) & 31) as u8 && v3 == ((b1
                & 1) << 4 | b2 >> 4) as u8 && v4 == ((b2 & 15) << 1 | b3 >> 7) as u8 && v5 == ((
            b3 >> 2) & 31) as u8 && v6 == ((b3 & 3) << 3) as u8,
    ;
}

/// The expiry an endpoint denotes: the first `EX1`-prefixed fragment
/// parameter's bech32 payload, decoded as a little-endian number.
pub open spec fn spec_exp(endpoint: Seq<u8>) -> Option<u64> {
    let frag_at = find_b(endpoint, 0x23, 0);
    if frag_at == endpoint.len() {
        Option::None
    } else {
        let frag = endpoint.subrange(frag_at + 1, endpoint.len() as int);
        match spec_get_param(frag, 0) {
            Option::Some(p) => match spec_exp_decode(p) {
                Option::Some(t) => Option::Some(t as u64),
                Option::None => Option::None,
            },
            Option::None => Option::None,
        }
    }
}

pub open spec fn lit_ex1() -> Seq<u8> {
    seq![0x45u8, 0x58u8, 0x31u8]
}

/// The payload of the first `+`-separated fragment parameter that starts
/// with `EX1`.
pub open spec fn spec_get_param(frag: Seq<u8>, i: int) -> Option<Seq<u8>>
    decreases frag.len() - i,
        via spec_get_param_dec
{
    if i < 0 || i > frag.len() {
        Option::None
    } else if i == frag.len() {
        Option::None
    } else {
        let plus = find_b(frag, 0x2b, i);
        let param = frag.subrange(i, plus);
        if param.len() >= 3 && param.take(3) == lit_ex1() {
            Option::Some(param.subrange(3, param.len() as int))
        } else if plus == frag.len() {
            Option::None
        } else {
            spec_get_param(frag, plus + 1)
        }
    }
}

#[via_fn]
proof fn spec_get_param_dec(frag: Seq<u8>, i: int) {
    if 0 <= i < frag.len() {
        lemma_find_b_bounds(frag, 0x2b, i);
    }
}

/// Find the first `EX1`-prefixed parameter in a `+`-separated fragment.
pub fn get_param(frag: &Vec<u8>) -> (r: Option<Vec<u8>>)
    ensures
        match r {
            Option::Some(p) => spec_get_param(frag@, 0) == Option::Some(p@),
            Option::None => spec_get_param(frag@, 0) is None,
        },
{
    let mut i: usize = 0;
    if frag.len() == 0 {
        return Option::None;
    }
    loop
        invariant
            0 <= i <= frag@.len(),
            spec_get_param(frag@, 0) == spec_get_param(frag@, i as int),
        decreases frag@.len() - i,
    {
        if i == frag.len() {
            return Option::None;
        }
        let plus = find_byte(frag, 0x2b, i);
        let param = sub_bytes(frag, i, plus);
        if param.len() >= 3 && param[0] == 0x45 && param[1] == 0x58 && param[2] == 0x31 {
            proof {
                assert(param@.take(3) =~= lit_ex1());
            }
            return Option::Some(sub_bytes(&param, 3, param.len()));
        }
        proof {
            if param@.len() >= 3 {
                assert(param@.take(3) != lit_ex1());
            }
        }
        if plus == frag.len() {
            return Option::None;
        }
        i = plus + 1;
    }
}

/// A URL carried by the negotiation line.
#[derive(Debug)]
pub struct PayjoinUrl {
    pub inner: String,
}

impl PayjoinUrl {
    /// The URL's text.
    pub fn to_string(&self) -> (r: String)
        ensures
            r@ == self.inner@,
    {
        self.inner.clone()
    }
}

/// The bytes of an ASCII char sequence are below 128.
proof fn lemma_ascii_rep_bytes(s: Seq<char>)
    requires
        ascii_rep(s) is Some,
    ensures
        (match ascii_rep(s) {
            Option::Some(bs) => forall|i: int| 0 <= i < bs.len() ==> #[trigger] bs[i] < 128,
            Option::None => false,
        }),
{
    let bs = ascii_rep(s)->Some_0;
    assert forall|i: int| 0 <= i < bs.len() implies #[trigger] bs[i] < 128 by {
        assert(bs[i] == s[i] as u8);
        assert('\0' <= s[i] <= '\u{7f}');
    }
}

/// ASCII bytes and the chars they denote determine each other.
proof fn lemma_ascii_round(bs: Seq<u8>)
    requires
        forall|i: int| 0 <= i < bs.len() ==> bs[i] < 128,
    ensures
        ascii_rep(chars_of_ascii(bs)) == Option::Some(bs),
{
    let cs = chars_of_ascii(bs);
    assert forall|i: int| 0 <= i < cs.len() implies '\0' <= #[trigger] cs[i] <= '\u{7f}' by {
        assert(cs[i] == bs[i] as char);
    }
    assert(vstd::utf8::is_ascii_chars(cs));
    assert(ascii_rep(cs) matches Option::Some(v) && v =~= bs);
}

proof fn lemma_pow10_add(a: nat, b: nat)
    ensures
        crate::text::pow10(a) * crate::text::pow10(b) == crate::text::pow10((a + b) as nat),
    decreases a,
{
    if a == 0 {
        assert(crate::text::pow10(0) == 1);
    } else {
        lemma_pow10_add((a - 1) as nat, b);
        assert(crate::text::pow10(a) == 10 * crate::text::pow10((a - 1) as nat));
        assert(crate::text::pow10(a) * crate::text::pow10(b) == 10 * (crate::text::pow10(
            (a - 1) as nat,
        ) * crate::text::pow10(b))) by (nonlinear_arith)
            requires
                crate::text::pow10(a) == 10 * crate::text::pow10((a - 1) as nat),
        ;
    }
}


// ---- building and parsing agree ----

/// `find_b` from a later start is the scan of the suffix.
proof fn lemma_find_b_shift(s: Seq<u8>, b: u8, i: int)
    requires
        0 <= i <= s.len(),
    ensures
        find_b(s, b, i) == i + find_b(s.skip(i), b, 0),
    decreases s.len() - i,
{
    if i == s.len() {
        assert(s.skip(i).len() == 0);
    } else if s[i] == b {
        assert(s.skip(i)[0] == b);
    } else {
        lemma_find_b_shift(s, b, i + 1);
        assert(s.skip(i)[0] != b);
        lemma_find_b_shift(s.skip(i), b, 1);
        assert(s.skip(i).skip(1) =~= s.skip(i + 1));
    }
}

/// A byte absent from a sequence is never found.
proof fn lemma_find_b_absent(s: Seq<u8>, b: u8, i: int)
    requires
        0 <= i <= s.len(),
        forall|j: int| i <= j < s.len() ==> s[j] != b,
    ensures
        find_b(s, b, i) == s.len(),
    decreases s.len() - i,
{
    if i < s.len() {
        lemma_find_b_absent(s, b, i + 1);
    }
}

/// Scanning a concatenation passes over a prefix free of the byte.
proof fn lemma_find_b_concat(p: Seq<u8>, t: Seq<u8>, b: u8)
    requires
        forall|j: int| 0 <= j < p.len() ==> p[j] != b,
    ensures
        find_b(p + t, b, 0) == p.len() + find_b(t, b, 0),
    decreases p.len(),
{
    if p.len() == 0 {
        assert(p + t =~= t);
    } else {
        let s = p + t;
        assert(s[0] == p[0]);
        lemma_find_b_shift(s, b, 1);
        assert(s.skip(1) =~= p.skip(1) + t);
        lemma_find_b_concat(p.skip(1), t, b);
    }
}

/// Folding parameters from a later start is folding the suffix.
proof fn lemma_parse_params_shift(s: Seq<u8>, i: int, acc: UriFieldsA)
    requires
        0 <= i <= s.len(),
    ensures
        parse_params(s, i, acc) == parse_params(s.skip(i), 0, acc),
    decreases s.len() - i,
{
    let t = s.skip(i);
    if i == s.len() {
        assert(t.len() == 0);
    } else {
        let amp = find_b(s, 0x26, i);
        lemma_find_b_bounds(s, 0x26, i);
        lemma_find_b_shift(s, 0x26, i);
        let ampt = find_b(t, 0x26, 0);
        lemma_find_b_bounds(t, 0x26, 0);
        assert(amp == i + ampt);
        assert(s.subrange(i, amp) =~= t.subrange(0, ampt));
        match apply_param(s.subrange(i, amp), acc) {
            Option::Some(acc2) => {
                if amp == s.len() {
                } else {
                    lemma_parse_params_shift(s, amp + 1, acc2);
                    lemma_parse_params_shift(t, ampt + 1, acc2);
                    assert(t.skip(ampt + 1) =~= s.skip(amp + 1));
                }
            },
            Option::None => {},
        }
    }
}

/// One parameter free of separators, then a separator: folding steps
/// over it.
proof fn lemma_parse_params_step(p: Seq<u8>, rest: Seq<u8>, acc: UriFieldsA, acc2: UriFieldsA)
    requires
        forall|j: int| 0 <= j < p.len() ==> p[j] != 0x26,
        apply_param(p, acc) == Option::Some(acc2),
    ensures
        parse_params(p + seq![0x26u8] + rest, 0, acc) == parse_params(rest, 0, acc2),
{
    let s = p + seq![0x26u8] + rest;
    assert(s =~= p + (seq![0x26u8] + rest));
    lemma_find_b_concat(p, seq![0x26u8] + rest, 0x26);
    assert((seq![0x26u8] + rest)[0] == 0x26);
    let amp = find_b(s, 0x26, 0);
    assert(amp == p.len());
    assert(s.subrange(0, amp) =~= p);
    assert(amp < s.len());
    lemma_parse_params_shift(s, amp + 1, acc2);
    assert(s.skip(amp + 1) =~= rest);
}

/// A final parameter free of separators ends the fold.
proof fn lemma_parse_params_last(p: Seq<u8>, acc: UriFieldsA, acc2: UriFieldsA)
    requires
        forall|j: int| 0 <= j < p.len() ==> p[j] != 0x26,
        apply_param(p, acc) == Option::Some(acc2),
    ensures
        parse_params(p, 0, acc) == Option::Some(acc2),
{
    if p.len() == 0 {
        assert(find_b(p, 0x3d, 0) == 0);
    } else {
        lemma_find_b_absent(p, 0x26, 0);
        assert(p.subrange(0, p.len() as int) =~= p);
    }
}

/// A `key=value` parameter splits at the first `=` when the key has
/// none.
proof fn lemma_param_split(k: Seq<u8>, v: Seq<u8>)
    requires
        forall|j: int| 0 <= j < k.len() ==> k[j] != 0x3d,
    ensures
        find_b(k + seq![0x3du8] + v, 0x3d, 0) == k.len(),
        (k + seq![0x3du8] + v).take(k.len() as int) == k,
        (k + seq![0x3du8] + v).subrange(k.len() + 1 as int, (k + seq![0x3du8] + v).len() as int) == v,
        (k + seq![0x3du8] + v).len() == k.len() + 1 + v.len(),
{
    let kv = k + seq![0x3du8] + v;
    assert(kv =~= k + (seq![0x3du8] + v));
    lemma_find_b_concat(k, seq![0x3du8] + v, 0x3d);
    assert((seq![0x3du8] + v)[0] == 0x3d);
    assert(kv.take(k.len() as int) =~= k);
    assert(kv.subrange(k.len() + 1 as int, kv.len() as int) =~= v);
}

/// Percent-encoded output holds only unreserved bytes and `%`.
proof fn lemma_pct_bytes_class(s: Seq<u8>)
    ensures
        forall|j: int|
            0 <= j < pct_bytes(s).len() ==> is_unreserved(#[trigger] pct_bytes(s)[j])
                || pct_bytes(s)[j] == 0x25,
    decreases s.len(),
{
    if s.len() > 0 {
        lemma_pct_bytes_class(s.drop_last());
        let r = pct_bytes(s);
        let q = pct_bytes(s.drop_last());
        assert forall|j: int| 0 <= j < r.len() implies is_unreserved(#[trigger] r[j]) || r[j]
            == 0x25 by {
            if j < q.len() {
                assert(r[j] == q[j]);
            } else {
                let c = s.last();
                if !is_unreserved(c) {
                    let hi = (c / 16) as u8;
                    let lo = (c % 16) as u8;
                    assert(hi < 16 && lo < 16);
                    assert(r[j] == 0x25 || r[j] == crate::text::hex_digit(hi) || r[j]
                        == crate::text::hex_digit(lo));
                }
            }
        }
    }
}

/// Percent-encoding distributes over concatenation.
proof fn lemma_pct_bytes_concat(a: Seq<u8>, b: Seq<u8>)
    ensures
        pct_bytes(a + b) == pct_bytes(a) + pct_bytes(b),
    decreases b.len(),
{
    if b.len() == 0 {
        assert(a + b =~= a);
        assert(pct_bytes(a) + pct_bytes(b) =~= pct_bytes(a));
    } else {
        assert((a + b).drop_last() =~= a + b.drop_last());
        assert((a + b).last() == b.last());
        lemma_pct_bytes_concat(a, b.drop_last());
        assert(pct_bytes(a + b) =~= pct_bytes(a) + pct_bytes(b));
    }
}

/// Decoding a percent-encoded suffix appends the encoded bytes.
proof fn lemma_pct_dec_generic(full: Seq<u8>, i: int, acc: Seq<u8>, s: Seq<u8>)
    requires
        0 <= i <= full.len(),
        full.skip(i) == pct_bytes(s),
    ensures
        pct_dec_acc(full, i, acc) == Option::Some(acc + s),
    decreases s.len(),
{
    if s.len() == 0 {
        assert(i == full.len());
        assert(acc + s =~= acc);
    } else {
        let c = s[0];
        let single = s.take(1);
        assert(single.len() == 1);
        assert(single.drop_last() =~= Seq::<u8>::empty());
        assert(single.last() == c);
        assert(pct_bytes(Seq::<u8>::empty()) =~= Seq::<u8>::empty());
        assert(pct_bytes(single) == pct_bytes(single.drop_last()) + (if is_unreserved(c) {
            seq![c]
        } else {
            seq![
                0x25u8,
                crate::text::hex_digit((c / 16) as u8),
                crate::text::hex_digit((c % 16) as u8),
            ]
        }));
        assert(single + s.skip(1) =~= s);
        lemma_pct_bytes_concat(single, s.skip(1));
        assert(pct_bytes(s) == pct_bytes(single) + pct_bytes(s.skip(1)));
        if is_unreserved(c) {
            assert(pct_bytes(single) =~= seq![c]);
            assert(full[i] == full.skip(i)[0]);
            assert(full.skip(i)[0] == c);
            assert(c != 0x25);
            assert(full.skip(i + 1) =~= full.skip(i).skip(1));
            assert(full.skip(i).skip(1) =~= pct_bytes(s.skip(1)));
            lemma_pct_dec_generic(full, i + 1, acc.push(c), s.skip(1));
            assert(acc.push(c) + s.skip(1) =~= acc + s);
        } else {
            let hi = (c / 16) as u8;
            let lo = (c % 16) as u8;
            assert(hi < 16 && lo < 16);
            assert(pct_bytes(single) =~= seq![
                0x25u8,
                crate::text::hex_digit(hi),
                crate::text::hex_digit(lo),
            ]);
            assert(full.skip(i).len() >= 3);
            assert(full[i] == full.skip(i)[0] && full[i + 1] == full.skip(i)[1] && full[i + 2]
                == full.skip(i)[2]);
            assert(full[i] == 0x25);
            assert(full[i + 1] == crate::text::hex_digit(hi));
            assert(full[i + 2] == crate::text::hex_digit(lo));
            assert(crate::text::is_hex_b(crate::text::hex_digit(hi)));
            assert(crate::text::is_hex_b(crate::text::hex_digit(lo)));
            assert(crate::text::hex_val_b(crate::text::hex_digit(hi)) == hi);
            assert(crate::text::hex_val_b(crate::text::hex_digit(lo)) == lo);
            assert(hi * 16 + lo == c) by (bit_vector)
                requires
                    hi == (c / 16) as u8 && lo == (c % 16) as u8,
            ;
            assert(full.skip(i + 3) =~= full.skip(i).skip(3));
            assert(full.skip(i).skip(3) =~= pct_bytes(s.skip(1)));
            lemma_pct_dec_generic(full, i + 3, acc.push(c), s.skip(1));
            assert(acc.push(c) + s.skip(1) =~= acc + s);
        }
    }
}

/// Percent-decoding undoes percent-encoding.
pub proof fn lemma_pct_round_trip(s: Seq<u8>)
    ensures
        spec_pct_decode(pct_bytes(s)) == Option::Some(s),
{
    let full = pct_bytes(s);
    assert(full.skip(0) =~= full);
    lemma_pct_dec_generic(full, 0, Seq::empty(), s);
    assert(Seq::<u8>::empty() + s =~= s);
}

/// The first `k` fractional digits carry the number shifted down.
proof fn lemma_frac_take(f: u64, k: int)
    requires
        f < 100_000_000,
        0 <= k <= 8,
    ensures
        crate::text::dec_val_b(frac_digits(f).take(k)) == f as int / crate::text::pow10(
            (8 - k) as nat,
        ),
    decreases k,
{
    let fd = frac_digits(f);
    if k == 0 {
        assert(fd.take(0) =~= Seq::<u8>::empty());
        assert(crate::text::pow10(8) == 100_000_000) by {
            reveal_with_fuel(crate::text::pow10, 9);
        }
        assert(f as int / 100_000_000 == 0);
    } else {
        lemma_frac_take(f, k - 1);
        assert(fd.take(k).drop_last() =~= fd.take(k - 1));
        assert(fd.take(k).last() == fd[k - 1]);
        let p = crate::text::pow10((8 - k) as nat);
        crate::text::lemma_pow10_mono((8 - k) as nat, (8 - k) as nat);
        assert(crate::text::pow10((9 - k) as nat) == 10 * p);
        let x = f as int / p;
        vstd::arithmetic::div_mod::lemma_div_denominator(f as int, p, 10);
        assert(f as int / (p * 10) == x / 10);
        assert(p * 10 == 10 * p) by (nonlinear_arith);
        vstd::arithmetic::div_mod::lemma_fundamental_div_mod(x, 10);
        assert(fd[k - 1] == (0x30 + (f as int / crate::text::pow10((7 - (k - 1)) as nat))
            % 10) as u8);
        assert((7 - (k - 1)) as nat == (8 - k) as nat);
        assert(0 <= x % 10 < 10);
        assert(crate::text::dec_val_b(fd.take(k)) == crate::text::dec_val_b(fd.take(k - 1)) * 10
            + (fd[k - 1] - 0x30));
        assert(crate::text::dec_val_b(fd.take(k)) == (x / 10) * 10 + x % 10);
    }
}

/// Eight fractional digits carry the fraction exactly.
proof fn lemma_frac_val(f: u64)
    requires
        f < 100_000_000,
    ensures
        crate::text::dec_val_b(frac_digits(f)) == f,
        forall|i: int| 0 <= i < 8 ==> crate::text::is_digit_b(#[trigger] frac_digits(f)[i]),
{
    lemma_frac_take(f, 8);
    let fd = frac_digits(f);
    assert(fd.take(8) =~= fd);
    assert(crate::text::pow10(0) == 1);
    assert forall|i: int| 0 <= i < 8 implies crate::text::is_digit_b(#[trigger] fd[i]) by {
        crate::text::lemma_pow10_mono((7 - i) as nat, (7 - i) as nat);
        assert(0 <= (f as int / crate::text::pow10((7 - i) as nat)) % 10 < 10);
    }
}

/// Reading the BTC decimal form of an amount back gives the amount.
pub proof fn lemma_btc_amount_round_trip(v: u64)
    requires
        v <= crate::psbt::MAX_MONEY_SAT,
    ensures
        spec_parse_btc(btc_amount_bytes(v)) == Option::Some(v),
{
    let whole = (v / 100_000_000) as int;
    let frac = (v % 100_000_000) as int;
    let w = crate::text::spec_dec_bytes(whole);
    let fd = frac_digits(v % 100_000_000);
    let s = btc_amount_bytes(v);
    crate::text::lemma_dec_bytes_digits(whole);
    assert(forall|j: int| 0 <= j < w.len() ==> w[j] != 0x26 && w[j] != 0x2e);
    assert(s =~= w + (seq![0x2eu8] + fd));
    lemma_find_b_concat(w, seq![0x2eu8] + fd, 0x2e);
    assert((seq![0x2eu8] + fd)[0] == 0x2e);
    let dot = find_b(s, 0x2e, 0);
    assert(dot == w.len());
    assert(s.len() == w.len() + 9);
    assert(s.take(dot) =~= w);
    assert(s.subrange(dot + 1, s.len() as int) =~= fd);
    assert(crate::text::pow10(10) == 10_000_000_000) by {
        reveal_with_fuel(crate::text::pow10, 11);
    }
    crate::text::lemma_dec_bytes_len(whole, 10);
    crate::text::lemma_dec_bytes_val(whole);
    assert(spec_parse_int_part(w) == Option::Some(whole));
    lemma_frac_val(v % 100_000_000);
    assert(crate::text::pow10(0) == 1);
    assert(fd.len() == 8);
    assert(crate::text::dec_val_b(fd) == frac);
    assert(spec_parse_frac_part(fd) == Option::Some(
        crate::text::dec_val_b(fd) * crate::text::pow10((8 - fd.len()) as nat),
    ));
    assert(spec_parse_frac_part(fd) == Option::Some(frac));
    vstd::arithmetic::div_mod::lemma_fundamental_div_mod(v as int, 100_000_000);
    assert(whole * 100_000_000 + frac == v) by (nonlinear_arith)
        requires
            v as int == 100_000_000 * whole + frac,
    ;
    assert(amount_from(whole, frac) == Option::Some(v));
}

/// An amount parameter folds into the amount field.
#[verifier::rlimit(100)]
#[verifier::spinoff_prover]
proof fn lemma_amount_step(v: u64, rest: Seq<u8>, acc: UriFieldsA)
    requires
        v <= crate::psbt::MAX_MONEY_SAT,
    ensures
        parse_params(lit_amount_eq() + btc_amount_bytes(v) + seq![0x26u8] + rest, 0, acc)
            == parse_params(rest, 0, (UriFieldsA { amount: Option::Some(v), ..acc })),
{
    let val = btc_amount_bytes(v);
    let p = lit_amount_key() + seq![0x3du8] + val;
    lemma_param_split(lit_amount_key(), val);
    lemma_btc_amount_round_trip(v);
    let acc2 = UriFieldsA { amount: Option::Some(v), ..acc };
    assert(apply_param(p, acc) == Option::Some(acc2));
    crate::text::lemma_dec_bytes_digits((v / 100_000_000) as int);
    lemma_frac_val(v % 100_000_000);
    assert(val =~= crate::text::spec_dec_bytes((v / 100_000_000) as int) + seq![0x2eu8]
        + frac_digits(v % 100_000_000));
    assert(forall|j: int| 0 <= j < p.len() ==> p[j] != 0x26);
    assert(lit_amount_eq() + val + seq![0x26u8] + rest =~= p + seq![0x26u8] + rest);
    lemma_parse_params_step(p, rest, acc, acc2);
}

/// A parameter under an unknown key folds into nothing.
#[verifier::rlimit(100)]
#[verifier::spinoff_prover]
proof fn lemma_ignored_step(k: Seq<u8>, t: Seq<u8>, rest: Seq<u8>, acc: UriFieldsA)
    requires
        forall|j: int| 0 <= j < k.len() ==> k[j] != 0x3d && k[j] != 0x26,
        k != lit_amount_key(),
        k != lit_pj_key(),
        k != lit_pjos_key(),
    ensures
        parse_params(k + seq![0x3du8] + pct_bytes(t) + seq![0x26u8] + rest, 0, acc)
            == parse_params(rest, 0, acc),
{
    let p = k + seq![0x3du8] + pct_bytes(t);
    lemma_param_split(k, pct_bytes(t));
    lemma_pct_bytes_class(t);
    assert(forall|j: int| 0 <= j < p.len() ==> p[j] != 0x26);
    assert(p.take(k.len() as int) == k);
    assert(apply_param(p, acc) == Option::Some(acc));
    assert(k + seq![0x3du8] + pct_bytes(t) + seq![0x26u8] + rest =~= p + seq![0x26u8] + rest);
    lemma_parse_params_step(p, rest, acc, acc);
}

/// The endpoint parameter, and the substitution flag behind it, end
/// the fold.
#[verifier::rlimit(100)]
#[verifier::spinoff_prover]
proof fn lemma_pj_tail_fold(ep: Seq<u8>, pjos: bool, acc: UriFieldsA)
    requires
        forall|j: int| 0 <= j < ep.len() ==> #[trigger] ep[j] < 128,
    ensures
        parse_params(
            lit_pj_eq() + pct_bytes(ep) + (if pjos {
                lit_pjos_0()
            } else {
                Seq::empty()
            }),
            0,
            acc,
        ) == Option::Some(
            (UriFieldsA {
                pj: Option::Some(ep),
                pjos_disabled: if pjos {
                    true
                } else {
                    acc.pjos_disabled
                },
                ..acc
            }),
        ),
{
    let pjparam = lit_pj_key() + seq![0x3du8] + pct_bytes(ep);
    let osparam = lit_pjos_key() + seq![0x3du8] + seq![0x30u8];
    lemma_param_split(lit_pj_key(), pct_bytes(ep));
    lemma_pct_bytes_class(ep);
    lemma_pct_round_trip(ep);
    let accpj = UriFieldsA { pj: Option::Some(ep), ..acc };
    assert(pjparam.take(lit_pj_key().len() as int) != lit_amount_key());
    assert(apply_param(pjparam, acc) == Option::Some(accpj));
    assert(forall|j: int| 0 <= j < pjparam.len() ==> pjparam[j] != 0x26);
    if pjos {
        let whole = lit_pj_eq() + pct_bytes(ep) + lit_pjos_0();
        assert(whole =~= pjparam + seq![0x26u8] + osparam);
        lemma_parse_params_step(pjparam, osparam, acc, accpj);
        lemma_param_split(lit_pjos_key(), seq![0x30u8]);
        assert(osparam.take(lit_pjos_key().len() as int) != lit_amount_key());
        assert(osparam.take(lit_pjos_key().len() as int) != lit_pj_key());
        assert(osparam.subrange(lit_pjos_key().len() + 1 as int, osparam.len() as int)
            == seq![0x30u8]);
        let fin = UriFieldsA { pjos_disabled: true, ..accpj };
        assert(apply_param(osparam, accpj) == Option::Some(fin));
        assert(forall|j: int| 0 <= j < osparam.len() ==> osparam[j] != 0x26);
        lemma_parse_params_last(osparam, accpj, fin);
    } else {
        assert(lit_pj_eq() + pct_bytes(ep) + Seq::<u8>::empty() =~= pjparam);
        lemma_parse_params_last(pjparam, acc, accpj);
    }
}

/// Folding the query string a builder writes yields exactly its
/// fields.
#[verifier::rlimit(100)]
#[verifier::spinoff_prover]
proof fn lemma_query_fold(b: PayjoinUriBuilder)
    requires
        b.wf(),
        (match b.amount_sat {
            Option::Some(v) => v <= crate::psbt::MAX_MONEY_SAT,
            Option::None => true,
        }),
    ensures
        parse_params(
            q_amount(b.amount_sat) + q_text(lit_label_eq(), opt_str_bytes(b.label)) + q_text(
                lit_message_eq(),
                opt_str_bytes(b.message),
            ) + lit_pj_eq() + pct_bytes(ascii_rep(b.endpoint@).unwrap_or(Seq::empty())) + (
            if b.pjos_disabled {
                lit_pjos_0()
            } else {
                Seq::empty()
            }),
            0,
            (UriFieldsA { amount: Option::None, pj: Option::None, pjos_disabled: false }),
        ) == Option::Some(
            (UriFieldsA {
                amount: b.amount_sat,
                pj: Option::Some(ascii_rep(b.endpoint@).unwrap_or(Seq::empty())),
                pjos_disabled: b.pjos_disabled,
            }),
        ),
{
    let ep = ascii_rep(b.endpoint@).unwrap_or(Seq::empty());
    crate::text::lemma_ascii_rep_low(b.endpoint@);
    let init = UriFieldsA { amount: Option::None, pj: Option::None, pjos_disabled: false };
    let segl = q_text(lit_label_eq(), opt_str_bytes(b.label));
    let segm = q_text(lit_message_eq(), opt_str_bytes(b.message));
    let tailp: Seq<u8> = if b.pjos_disabled {
        lit_pjos_0()
    } else {
        Seq::empty()
    };
    let last = lit_pj_eq() + pct_bytes(ep) + tailp;
    let q = q_amount(b.amount_sat) + segl + segm + lit_pj_eq() + pct_bytes(ep) + tailp;
    let acc1 = (match b.amount_sat {
        Option::Some(v) => UriFieldsA { amount: Option::Some(v), ..init },
        Option::None => init,
    });
    let rem1 = segl + segm + last;
    match b.amount_sat {
        Option::Some(v) => {
            assert(q =~= lit_amount_eq() + btc_amount_bytes(v) + seq![0x26u8] + rem1);
            lemma_amount_step(v, rem1, init);
        },
        Option::None => {
            assert(q =~= rem1);
        },
    }
    let rem2 = segm + last;
    match opt_str_bytes(b.label) {
        Option::Some(lb) => {
            let lkey = seq![0x6cu8, 0x61u8, 0x62u8, 0x65u8, 0x6cu8];
            assert(rem1 =~= lkey + seq![0x3du8] + pct_bytes(lb) + seq![0x26u8] + rem2);
            lemma_ignored_step(lkey, lb, rem2, acc1);
        },
        Option::None => {
            assert(rem1 =~= rem2);
        },
    }
    match opt_str_bytes(b.message) {
        Option::Some(mb) => {
            let mkey = seq![0x6du8, 0x65u8, 0x73u8, 0x73u8, 0x61u8, 0x67u8, 0x65u8];
            assert(rem2 =~= mkey + seq![0x3du8] + pct_bytes(mb) + seq![0x26u8] + last);
            lemma_ignored_step(mkey, mb, last, acc1);
        },
        Option::None => {
            assert(rem2 =~= last);
        },
    }
    lemma_pj_tail_fold(ep, b.pjos_disabled, acc1);
    assert(parse_params(q, 0, init) == Option::Some(
        (UriFieldsA {
            amount: b.amount_sat,
            pj: Option::Some(ep),
            pjos_disabled: b.pjos_disabled,
        }),
    ));
}

/// Building a payment line and parsing it back reports the same
/// address, the same requested amount, the same endpoint, and the same
/// substitution flag; labels and messages ride along without
/// disturbing those fields.  Stated for addresses free of the query
/// separator byte, which no Bitcoin address contains.
#[verifier::rlimit(100)]
#[verifier::spinoff_prover]
pub proof fn lemma_build_parse_round_trip(b: PayjoinUriBuilder)
    requires
        b.wf(),
        forall|i: int|
            0 <= i < ascii_rep(b.address@)->Some_0.len() ==> #[trigger] ascii_rep(
                b.address@,
            )->Some_0[i] != 0x3f,
        (match b.amount_sat {
            Option::Some(v) => v <= crate::psbt::MAX_MONEY_SAT,
            Option::None => true,
        }),
    ensures
        spec_parse_uri(b.spec_build()) == Option::Some(
            (
                ascii_rep(b.address@).unwrap_or(Seq::empty()),
                (UriFieldsA {
                    amount: b.amount_sat,
                    pj: Option::Some(ascii_rep(b.endpoint@).unwrap_or(Seq::empty())),
                    pjos_disabled: b.pjos_disabled,
                }),
            ),
        ),
{
    let addr = ascii_rep(b.address@).unwrap_or(Seq::empty());
    crate::text::lemma_ascii_rep_low(b.address@);
    let init = UriFieldsA { amount: Option::None, pj: Option::None, pjos_disabled: false };
    let q = q_amount(b.amount_sat) + q_text(lit_label_eq(), opt_str_bytes(b.label)) + q_text(
        lit_message_eq(),
        opt_str_bytes(b.message),
    ) + lit_pj_eq() + pct_bytes(ascii_rep(b.endpoint@).unwrap_or(Seq::empty())) + (
    if b.pjos_disabled {
        lit_pjos_0()
    } else {
        Seq::empty()
    });
    let s = b.spec_build();
    assert(s =~= lit_scheme() + addr + seq![0x3fu8] + q);
    assert(s.take(8) =~= lit_scheme());
    let rest = s.skip(8);
    assert(rest =~= addr + (seq![0x3fu8] + q));
    lemma_find_b_concat(addr, seq![0x3fu8] + q, 0x3f);
    assert((seq![0x3fu8] + q)[0] == 0x3f);
    let qpos = find_b(rest, 0x3f, 0);
    assert(qpos == addr.len());
    assert(rest.take(qpos) =~= addr);
    assert(addr.len() >= 1);
    assert(q.len() >= 3);
    assert(qpos < rest.len());
    lemma_parse_params_shift(rest, qpos + 1, init);
    assert(rest.skip(qpos + 1) =~= q);
    lemma_query_fold(b);
    assert(spec_parse_uri(s) == Option::Some(
        (
            addr,
            (UriFieldsA {
                amount: b.amount_sat,
                pj: Option::Some(ascii_rep(b.endpoint@).unwrap_or(Seq::empty())),
                pjos_disabled: b.pjos_disabled,
            }),
        ),
    ));
}

} // verus!
