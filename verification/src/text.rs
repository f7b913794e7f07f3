use vstd::prelude::*;

use payjoin::bitcoin::hashes::Hash as _;

verus! {

/// The chars an ASCII byte sequence denotes, one char per byte.
pub open spec fn chars_of_ascii(bs: Seq<u8>) -> Seq<char> {
    Seq::new(bs.len(), |i: int| bs[i] as char)
}

/// The ASCII bytes a char sequence denotes, when every char is ASCII.
pub open spec fn ascii_rep(s: Seq<char>) -> Option<Seq<u8>> {
    if vstd::utf8::is_ascii_chars(s) {
        Option::Some(Seq::new(s.len(), |i: int| s[i] as u8))
    } else {
        Option::None
    }
}

/// Relies on std's `String::from_utf8`: ASCII bytes decode to themselves,
/// one char per byte.
#[verifier::external_body]
pub(crate) fn ascii_string(b: &Vec<u8>) -> (r: String)
    requires
        forall|i: int| 0 <= i < b@.len() ==> b@[i] < 128,
    ensures
        r@ == chars_of_ascii(b@),
{
    String::from_utf8(b.clone()).unwrap_or_default()
}

/// The ASCII bytes a char sequence denotes determine it.
pub proof fn lemma_ascii_rep_chars(s: Seq<char>)
    requires
        ascii_rep(s) is Some,
    ensures
        (match ascii_rep(s) {
            Option::Some(bs) => chars_of_ascii(bs) == s && bs.len() == s.len(),
            Option::None => false,
        }),
{
    let bs = ascii_rep(s)->Some_0;
    assert forall|i: int| 0 <= i < s.len() implies #[trigger] chars_of_ascii(bs)[i] == s[i] by {
        assert(bs[i] == s[i] as u8);
        assert('\0' <= s[i] <= '\u{7f}');
    }
    assert(chars_of_ascii(bs) =~= s);
}

/// The byte form of an ASCII char sequence stays below 128.
pub proof fn lemma_ascii_rep_low(s: Seq<char>)
    requires
        ascii_rep(s) is Some,
    ensures
        (match ascii_rep(s) {
            Option::Some(bs) => bs.len() == s.len() && forall|i: int|
                0 <= i < bs.len() ==> #[trigger] bs[i] < 128,
            Option::None => false,
        }),
{
    let bs = ascii_rep(s)->Some_0;
    assert forall|i: int| 0 <= i < bs.len() implies #[trigger] bs[i] < 128 by {
        assert(bs[i] == s[i] as u8);
        assert('\0' <= s[i] <= '\u{7f}');
    }
}

/// ASCII bytes and the chars they denote determine each other.
pub proof fn lemma_chars_ascii_rep(bs: Seq<u8>)
    requires
        forall|i: int| 0 <= i < bs.len() ==> #[trigger] bs[i] < 128,
    ensures
        ascii_rep(chars_of_ascii(bs)) == Option::Some(bs),
{
    let cs = chars_of_ascii(bs);
    assert forall|i: int| 0 <= i < cs.len() implies '\0' <= #[trigger] cs[i] <= '\u{7f}' by {
        assert(cs[i] == bs[i] as char);
    }
    assert(vstd::utf8::is_ascii_chars(cs));
    assert(ascii_rep(cs) matches Option::Some(v) && v =~= bs);
}

/// Copy a byte range out of a vector.
pub fn sub_bytes(v: &Vec<u8>, start: usize, end: usize) -> (r: Vec<u8>)
    requires
        start <= end <= v@.len(),
    ensures
        r@ == v@.subrange(start as int, end as int),
{
    let mut r: Vec<u8> = Vec::new();
    let mut i: usize = start;
    while i < end
        invariant
            start <= i <= end <= v@.len(),
            r@ == v@.subrange(start as int, i as int),
        decreases end - i,
    {
        r.push(v[i]);
        proof {
            assert(v@.subrange(start as int, i + 1 as int) =~= v@.subrange(
                start as int,
                i as int,
            ).push(v@[i as int]));
        }
        i += 1;
    }
    r
}

/// Compare two byte vectors by contents.
pub fn bytes_eq(a: &Vec<u8>, b: &Vec<u8>) -> (r: bool)
    ensures
        r == (a@ == b@),
{
    if a.len() != b.len() {
        assert(a@ != b@) by {
            assert(a@.len() != b@.len());
        }
        return false;
    }
    let mut i: usize = 0;
    while i < a.len()
        invariant
            a@.len() == b@.len(),
            0 <= i <= a@.len(),
            forall|j: int| 0 <= j < i ==> a@[j] == b@[j],
        decreases a@.len() - i,
    {
        if a[i] != b[i] {
            return false;
        }
        i += 1;
    }
    proof {
        assert(a@ =~= b@);
    }
    true
}

/// Copy a byte vector.
pub fn clone_bytes(v: &Vec<u8>) -> (r: Vec<u8>)
    ensures
        r@ == v@,
{
    sub_bytes(v, 0, v.len())
}

/// The ASCII code of one hex digit value.
pub open spec fn hex_digit(n: u8) -> u8
    recommends
        n < 16,
{
    if n < 10 {
        (0x30 + n) as u8
    } else {
        (0x57 + n) as u8
    }
}

/// Lower-case hex encoding of a byte sequence, as ASCII bytes.
pub open spec fn spec_hex_bytes(b: Seq<u8>) -> Seq<u8> {
    Seq::new(
        b.len() * 2,
        |i: int|
            if i % 2 == 0 {
                hex_digit(b[i / 2] / 16)
            } else {
                hex_digit(b[i / 2] % 16)
            },
    )
}

/// Hex-encode bytes into ASCII bytes.
pub fn hex_bytes(b: &Vec<u8>) -> (r: Vec<u8>)
    ensures
        r@ == spec_hex_bytes(b@),
{
    let mut r: Vec<u8> = Vec::new();
    let mut i: usize = 0;
    while i < b.len()
        invariant
            0 <= i <= b@.len(),
            r@ =~= spec_hex_bytes(b@.take(i as int)),
        decreases b@.len() - i,
    {
        let x = b[i];
        let hi = x / 16;
        let lo = x % 16;
        let hb: u8 = if hi < 10 {
            0x30 + hi
        } else {
            0x57 + hi
        };
        let lb: u8 = if lo < 10 {
            0x30 + lo
        } else {
            0x57 + lo
        };
        r.push(hb);
        r.push(lb);
        proof {
            assert(r@ =~= spec_hex_bytes(b@.take(i + 1)));
        }
        i += 1;
    }
    proof {
        assert(b@.take(b@.len() as int) =~= b@);
    }
    r
}

/// Hex-encode bytes into a string.
pub fn hex_string(b: &Vec<u8>) -> (r: String)
    ensures
        r@ == chars_of_ascii(spec_hex_bytes(b@)),
{
    let hb = hex_bytes(b);
    proof {
        assert(forall|i: int|
            0 <= i < hb@.len() ==> #[trigger] hb@[i] < 128);
    }
    ascii_string(&hb)
}

/// Is this ASCII byte a hex digit?
pub open spec fn is_hex_b(b: u8) -> bool {
    (0x30 <= b <= 0x39) || (0x61 <= b <= 0x66) || (0x41 <= b <= 0x46)
}

/// The value of a hex digit byte.
pub open spec fn hex_val_b(b: u8) -> u8 {
    if 0x30 <= b <= 0x39 {
        (b - 0x30) as u8
    } else if 0x61 <= b <= 0x66 {
        (b - 0x57) as u8
    } else if 0x41 <= b <= 0x46 {
        (b - 0x37) as u8
    } else {
        0
    }
}

/// Parse an ASCII hex byte sequence back into bytes.
pub open spec fn spec_hex_parse(s: Seq<u8>) -> Option<Seq<u8>> {
    if s.len() % 2 == 0 && (forall|i: int| 0 <= i < s.len() ==> is_hex_b(#[trigger] s[i])) {
        Option::Some(
            Seq::new(
                s.len() / 2,
                |i: int| (hex_val_b(s[2 * i]) * 16 + hex_val_b(s[2 * i + 1])) as u8,
            ),
        )
    } else {
        Option::None
    }
}

/// Decode an ASCII hex byte sequence.
pub fn hex_parse(s: &Vec<u8>) -> (r: Option<Vec<u8>>)
    ensures
        match r {
            Option::Some(v) => spec_hex_parse(s@) == Option::Some(v@),
            Option::None => spec_hex_parse(s@) is None,
        },
{
    if s.len() % 2 != 0 {
        return Option::None;
    }
    let mut out: Vec<u8> = Vec::new();
    let mut i: usize = 0;
    while i < s.len()
        invariant
            0 <= i <= s@.len(),
            i % 2 == 0,
            s@.len() % 2 == 0,
            out@.len() == i / 2,
            forall|j: int| 0 <= j < i ==> is_hex_b(#[trigger] s@[j]),
            forall|j: int|
                0 <= j < i / 2 ==> out@[j] == (hex_val_b(s@[2 * j]) * 16 + hex_val_b(
                    s@[2 * j + 1],
                )) as u8,
        decreases s@.len() - i,
    {
        let a = s[i];
        let b = s[i + 1];
        let av: u8 = if 0x30 <= a && a <= 0x39 {
            a - 0x30
        } else if 0x61 <= a && a <= 0x66 {
            a - 0x57
        } else if 0x41 <= a && a <= 0x46 {
            a - 0x37
        } else {
            return Option::None;
        };
        let bv: u8 = if 0x30 <= b && b <= 0x39 {
            b - 0x30
        } else if 0x61 <= b && b <= 0x66 {
            b - 0x57
        } else if 0x41 <= b && b <= 0x46 {
            b - 0x37
        } else {
            return Option::None;
        };
        out.push(av * 16 + bv);
        i += 2;
    }
    proof {
        let parsed = spec_hex_parse(s@);
        assert(parsed matches Option::Some(v) && v =~= out@);
    }
    Option::Some(out)
}

/// Is this ASCII byte a decimal digit?
pub open spec fn is_digit_b(b: u8) -> bool {
    0x30 <= b <= 0x39
}

/// Decimal ASCII encoding of a non-negative number.
pub open spec fn spec_dec_bytes(n: int) -> Seq<u8>
    recommends
        n >= 0,
    decreases n,
{
    if n < 10 {
        seq![(0x30 + (if n >= 0 { n % 10 } else { 0 })) as u8]
    } else {
        spec_dec_bytes(n / 10).push((0x30 + n % 10) as u8)
    }
}

/// Decimal-encode a number as ASCII bytes.
pub fn dec_bytes(n: u64) -> (r: Vec<u8>)
    ensures
        r@ == spec_dec_bytes(n as int),
        r@.len() >= 1,
        forall|i: int| 0 <= i < r@.len() ==> is_digit_b(#[trigger] r@[i]),
    decreases n,
{
    if n < 10 {
        let mut v: Vec<u8> = Vec::new();
        v.push(0x30 + (n as u8));
        proof {
            assert(v@ =~= spec_dec_bytes(n as int));
        }
        v
    } else {
        let mut v = dec_bytes(n / 10);
        v.push(0x30 + ((n % 10) as u8));
        v
    }
}

pub proof fn lemma_dec_bytes_ascii(n: int)
    requires
        n >= 0,
    ensures
        forall|i: int|
            0 <= i < spec_dec_bytes(n).len() ==> #[trigger] spec_dec_bytes(n)[i] < 128,
    decreases n,
{
    if n >= 10 {
        lemma_dec_bytes_ascii(n / 10);
        let s = spec_dec_bytes(n);
        let p = spec_dec_bytes(n / 10);
        assert forall|i: int| 0 <= i < s.len() implies #[trigger] s[i] < 128 by {
            if i < p.len() {
                assert(s[i] == p[i]);
            } else {
                assert(s[i] == (0x30 + n % 10) as u8);
            }
        }
    }
}

/// Decimal encodings are made of digits, at least one.
pub proof fn lemma_dec_bytes_digits(n: int)
    requires
        n >= 0,
    ensures
        spec_dec_bytes(n).len() >= 1,
        forall|i: int|
            0 <= i < spec_dec_bytes(n).len() ==> is_digit_b(#[trigger] spec_dec_bytes(n)[i]),
    decreases n,
{
    if n >= 10 {
        lemma_dec_bytes_digits(n / 10);
        let s = spec_dec_bytes(n);
        let p = spec_dec_bytes(n / 10);
        assert forall|i: int| 0 <= i < s.len() implies is_digit_b(#[trigger] s[i]) by {
            if i < p.len() {
                assert(s[i] == p[i]);
            } else {
                assert(s[i] == (0x30 + n % 10) as u8);
            }
        }
    }
}

/// Reading a decimal encoding back gives the number encoded.
pub proof fn lemma_dec_bytes_val(n: int)
    requires
        n >= 0,
    ensures
        dec_val_b(spec_dec_bytes(n)) == n,
    decreases n,
{
    if n < 10 {
        let s = spec_dec_bytes(n);
        assert(s.drop_last() =~= Seq::<u8>::empty());
        assert(s.last() == (0x30 + n % 10) as u8);
        assert(n % 10 == n);
        assert(dec_val_b(s) == dec_val_b(s.drop_last()) * 10 + (s.last() - 0x30));
    } else {
        lemma_dec_bytes_val(n / 10);
        let s = spec_dec_bytes(n);
        let p = spec_dec_bytes(n / 10);
        assert(s.drop_last() =~= p);
        assert(s.last() == (0x30 + n % 10) as u8);
    }
}

/// A number below the `k`-th power of ten encodes in at most `k`
/// digits.
pub proof fn lemma_dec_bytes_len(n: int, k: nat)
    requires
        0 <= n < pow10(k),
        k >= 1,
    ensures
        spec_dec_bytes(n).len() <= k,
    decreases n,
{
    if n < 10 {
    } else {
        if k == 1 {
            assert(pow10(1) == 10) by {
                reveal_with_fuel(pow10, 2);
            }
            assert(false);
        }
        assert(pow10(k) == 10 * pow10((k - 1) as nat));
        assert(n / 10 < pow10((k - 1) as nat)) by (nonlinear_arith)
            requires
                n >= 10 && n < 10 * pow10((k - 1) as nat),
        ;
        lemma_dec_bytes_len(n / 10, (k - 1) as nat);
    }
}

/// The number a digit sequence denotes.
pub open spec fn dec_val_b(s: Seq<u8>) -> int
    decreases s.len(),
{
    if s.len() == 0 {
        0
    } else {
        dec_val_b(s.drop_last()) * 10 + (s.last() - 0x30)
    }
}

/// A parseable decimal token: one to nineteen digits.
pub open spec fn dec_ok_b(s: Seq<u8>) -> bool {
    1 <= s.len() <= 19 && (forall|i: int| 0 <= i < s.len() ==> is_digit_b(#[trigger] s[i]))
}

/// Ten to the given power.
pub open spec fn pow10(k: nat) -> int
    decreases k,
{
    if k == 0 {
        1
    } else {
        10 * pow10((k - 1) as nat)
    }
}

pub proof fn lemma_dec_val_bound(s: Seq<u8>)
    requires
        forall|i: int| 0 <= i < s.len() ==> is_digit_b(#[trigger] s[i]),
    ensures
        0 <= dec_val_b(s) < pow10(s.len() as nat),
    decreases s.len(),
{
    if s.len() > 0 {
        lemma_dec_val_bound(s.drop_last());
    }
}

pub proof fn lemma_pow10_mono(a: nat, b: nat)
    requires
        a <= b,
    ensures
        pow10(a) <= pow10(b),
        pow10(a) >= 1,
    decreases b,
{
    if a == b {
        if a > 0 {
            lemma_pow10_mono((a - 1) as nat, (a - 1) as nat);
        }
    } else {
        lemma_pow10_mono(a, (b - 1) as nat);
    }
}

/// Parse a decimal ASCII token into a number.
pub fn dec_parse(s: &Vec<u8>) -> (r: Option<u64>)
    ensures
        match r {
            Option::Some(v) => dec_ok_b(s@) && v == dec_val_b(s@),
            Option::None => !dec_ok_b(s@),
        },
{
    if s.len() < 1 || s.len() > 19 {
        return Option::None;
    }
    let mut acc: u64 = 0;
    let mut i: usize = 0;
    while i < s.len()
        invariant
            0 <= i <= s@.len(),
            1 <= s@.len() <= 19,
            forall|j: int| 0 <= j < i ==> is_digit_b(#[trigger] s@[j]),
            acc == dec_val_b(s@.take(i as int)),
            acc < 10_000_000_000_000_000_000,
        decreases s@.len() - i,
    {
        let c = s[i];
        if c < 0x30 || c > 0x39 {
            return Option::None;
        }
        proof {
            assert(s@.take(i + 1).drop_last() =~= s@.take(i as int));
            assert(s@.take(i + 1).last() == s@[i as int]);
            lemma_dec_val_bound(s@.take(i + 1));
            lemma_pow10_mono((i + 1) as nat, 19);
            assert(pow10(19) == 10_000_000_000_000_000_000) by {
                reveal_with_fuel(pow10, 21);
            }
        }
        acc = acc * 10 + ((c - 0x30) as u64);
        i += 1;
    }
    proof {
        assert(s@.take(s@.len() as int) =~= s@);
    }
    Option::Some(acc)
}

/// What base64's standard-alphabet encoder yields for these bytes; a
/// function of the bytes alone.
pub uninterp spec fn b64_of(b: Seq<u8>) -> Seq<char>;

/// What base64's standard-alphabet decoder yields for these chars; a
/// function of the chars alone.
pub uninterp spec fn b64_decode_of(s: Seq<char>) -> Option<Seq<u8>>;

/// Relies on base64's `STANDARD` engine `encode`: deterministic on its
/// input, and inverted by the standard decoder.
#[verifier::external_body]
pub(crate) fn b64_encode(b: &Vec<u8>) -> (r: String)
    ensures
        r@ == b64_of(b@),
        b64_decode_of(r@) == Option::Some(b@),
{
    base64::Engine::encode(&base64::engine::general_purpose::STANDARD, b.as_slice())
}

/// Relies on base64's `STANDARD` engine `decode`: deterministic on its
/// input.
#[verifier::external_body]
pub(crate) fn b64_decode(s: &String) -> (r: Option<Vec<u8>>)
    ensures
        match r {
            Option::Some(v) => b64_decode_of(s@) == Option::Some(v@),
            Option::None => b64_decode_of(s@) is None,
        },
{
    match base64::Engine::decode(&base64::engine::general_purpose::STANDARD, s.as_str()) {
        Ok(v) => Some(v),
        Err(_) => None,
    }
}

/// The double-SHA256 digest of these bytes; a function of the bytes
/// alone.
pub uninterp spec fn sha256d_of(b: Seq<u8>) -> Seq<u8>;

/// Relies on `bitcoin_hashes`' `sha256d` (via payjoin's bitcoin
/// re-export): a 32-byte digest determined by the input alone.
#[verifier::external_body]
pub(crate) fn sha256d(b: &Vec<u8>) -> (r: Vec<u8>)
    ensures
        r@ == sha256d_of(b@),
        r@.len() == 32,
{
    payjoin::bitcoin::hashes::sha256d::Hash::hash(b.as_slice()).to_byte_array().to_vec()
}

} // verus!
