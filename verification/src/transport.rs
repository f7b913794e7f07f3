use vstd::prelude::*;

use crate::error::Error;

verus! {

#[verifier::external_type_specification]
#[verifier::external_body]
pub struct ExClientResponse(ohttp::ClientResponse);

/// One big-endian sixteen-bit field of an encoded key configuration.
pub open spec fn u16be(s: Seq<u8>, i: int) -> int {
    (s[i] as int) * 256 + (s[i + 1] as int)
}

/// The key-encapsulation ids an encoded configuration may carry, and the
/// public-key length each dictates.
pub open spec fn kem_id_ok(kem: int) -> bool {
    kem == 0x0010 || kem == 0x0020 || kem == 0x647a
}

pub open spec fn kem_pk_len(kem: int) -> int {
    if kem == 0x0020 {
        32
    } else if kem == 0x0010 {
        65
    } else {
        1216
    }
}

/// A symmetric-suite pair the configuration's framing accepts.
pub open spec fn suite_parses(kdf: int, aead: int) -> bool {
    1 <= kdf <= 3 && 1 <= aead <= 3
}

/// A symmetric-suite pair the compiled cryptographic backend can use:
/// HKDF-SHA256 with AES-128-GCM or ChaCha20-Poly1305.
pub open spec fn suite_supported(kdf: int, aead: int) -> bool {
    kdf == 1 && (aead == 1 || aead == 3)
}

/// Does a byte sequence carry the complete key-configuration framing: a
/// key id, a known encapsulation id, its public key, and a non-empty,
/// exactly-terminated list of parseable symmetric suites?
pub open spec fn spec_keys_parse(s: Seq<u8>) -> bool {
    &&& s.len() >= 3
    &&& kem_id_ok(u16be(s, 1))
    &&& s.len() >= 5 + kem_pk_len(u16be(s, 1))
    &&& ({
        let off = 3 + kem_pk_len(u16be(s, 1));
        let sym_len = u16be(s, off);
        &&& sym_len >= 4
        &&& sym_len % 4 == 0
        &&& s.len() == off + 2 + sym_len
        &&& forall|k: int|
            0 <= k < sym_len / 4 ==> suite_parses(
                u16be(s, off + 2 + 4 * k),
                #[trigger] u16be(s, off + 2 + 4 * k + 2),
            )
    })
}

/// Does a parsing configuration carry at least one suite the compiled
/// backend supports?
pub open spec fn spec_keys_has_supported(s: Seq<u8>) -> bool {
    let off = 3 + kem_pk_len(u16be(s, 1));
    let sym_len = u16be(s, off);
    exists|k: int|
        0 <= k < sym_len / 4 && suite_supported(
            u16be(s, off + 2 + 4 * k),
            #[trigger] u16be(s, off + 2 + 4 * k + 2),
        )
}

/// Key bytes the transport layer may be handed: either they do not parse
/// at all (the outside decoder then reports an error), or at least one of
/// their suites is usable by the compiled backend.  A configuration that
/// parses but whose suites are all unusable must never reach the outside
/// calls: the sender constructor there strips unusable suites and then
/// indexes the first remaining one.
pub open spec fn spec_keys_safe(s: Seq<u8>) -> bool {
    spec_keys_parse(s) ==> spec_keys_has_supported(s)
}

/// Decide `spec_keys_safe` by scanning the key-configuration framing.
pub fn check_keys_safe(keys: &Vec<u8>) -> (b: bool)
    ensures
        b == spec_keys_safe(keys@),
{
    if keys.len() < 3 {
        return true;
    }
    let kem: u32 = (keys[1] as u32) * 256 + (keys[2] as u32);
    if !(kem == 0x0010 || kem == 0x0020 || kem == 0x647a) {
        return true;
    }
    let pk_len: usize = if kem == 0x0020 {
        32
    } else if kem == 0x0010 {
        65
    } else {
        1216
    };
    if keys.len() < 5 + pk_len {
        return true;
    }
    let off = 3 + pk_len;
    let sym_len: usize = (keys[off] as usize) * 256 + (keys[off + 1] as usize);
    if sym_len < 4 || sym_len % 4 != 0 {
        return true;
    }
    if keys.len() != off + 2 + sym_len {
        return true;
    }
    let pairs = sym_len / 4;
    let mut k: usize = 0;
    while k < pairs
        invariant
            keys@.len() >= 3,
            kem as int == u16be(keys@, 1),
            kem_id_ok(kem as int),
            pk_len as int == kem_pk_len(kem as int),
            off == 3 + pk_len,
            off + 2 + sym_len == keys@.len(),
            sym_len as int == u16be(keys@, off as int),
            sym_len >= 4 && sym_len % 4 == 0,
            pairs == sym_len / 4,
            0 <= k <= pairs,
            forall|q: int|
                0 <= q < k ==> suite_parses(
                    u16be(keys@, off + 2 + 4 * q),
                    #[trigger] u16be(keys@, off + 2 + 4 * q + 2),
                ),
            forall|q: int|
                0 <= q < k ==> !suite_supported(
                    u16be(keys@, off + 2 + 4 * q),
                    #[trigger] u16be(keys@, off + 2 + 4 * q + 2),
                ),
        decreases pairs - k,
    {
        let p = off + 2 + 4 * k;
        let kdf: u32 = (keys[p] as u32) * 256 + (keys[p + 1] as u32);
        let aead: u32 = (keys[p + 2] as u32) * 256 + (keys[p + 3] as u32);
        if !(1 <= kdf && kdf <= 3 && 1 <= aead && aead <= 3) {
            // A suite the framing rejects: the whole decode fails.
            proof {
                assert(!suite_parses(
                    u16be(keys@, off + 2 + 4 * (k as int)),
                    u16be(keys@, off + 2 + 4 * (k as int) + 2),
                ));
                assert(!spec_keys_parse(keys@));
            }
            return true;
        }
        if kdf == 1 && (aead == 1 || aead == 3) {
            proof {
                assert(suite_supported(
                    u16be(keys@, off + 2 + 4 * (k as int)),
                    u16be(keys@, off + 2 + 4 * (k as int) + 2),
                ));
                assert(spec_keys_has_supported(keys@));
            }
            return true;
        }
        k += 1;
    }
    proof {
        assert(spec_keys_parse(keys@));
        assert(!spec_keys_has_supported(keys@));
    }
    false
}

/// Whether `ohttp::ClientRequest::from_encoded_config` accepts these
/// encoded key-configuration bytes; its success depends on the bytes
/// alone.
pub uninterp spec fn ohttp_keys_ok(keys: Seq<u8>) -> bool;

/// Relies on `ohttp::ClientRequest::from_encoded_config`: whether a key
/// configuration decodes depends only on its bytes.  The configurations
/// `spec_keys_safe` excludes would make the call panic, so they are left
/// out.
#[verifier::external_body]
pub(crate) fn check_ohttp_keys(keys: &Vec<u8>) -> (r: bool)
    requires
        spec_keys_safe(keys@),
    ensures
        r == ohttp_keys_ok(keys@),
{
    ohttp::ClientRequest::from_encoded_config(keys.as_slice()).is_ok()
}

/// Relies on `ohttp::ClientRequest::from_encoded_config` and
/// `ClientRequest::encapsulate`: building the sender context succeeds only
/// when the key configuration decodes; the ciphertext and response
/// context come from a randomized encapsulation, so nothing more is
/// promised of them.  The configurations `spec_keys_safe` excludes would
/// make the constructor panic, so they are left out.
#[verifier::external_body]
fn ohttp_encapsulate(keys: &Vec<u8>, payload: &Vec<u8>) -> (r: Option<
    (Vec<u8>, ohttp::ClientResponse),
>)
    requires
        spec_keys_safe(keys@),
    ensures
        r is Some ==> ohttp_keys_ok(keys@),
{
    match ohttp::ClientRequest::from_encoded_config(keys.as_slice()) {
        Ok(req) => match req.encapsulate(payload.as_slice()) {
            Ok((enc, ctx)) => Some((enc, ctx)),
            Err(_) => None,
        },
        Err(_) => None,
    }
}

/// Relies on `ohttp::ClientResponse::decapsulate`: decryption of the
/// paired response, failing on malformed ciphertext or key mismatch;
/// nothing is promised of the plaintext.
#[verifier::external_body]
fn ohttp_decapsulate(ctx: ohttp::ClientResponse, response: &Vec<u8>) -> (r: Option<Vec<u8>>) {
    ctx.decapsulate(response.as_slice()).ok()
}

/// One oblivious transport exchange: the decryption context paired with
/// one encrypted request.  It is single-use: consuming the response
/// clears it, and a second use is a protocol violation.
pub struct TransportContext {
    pub inner: Option<ohttp::ClientResponse>,
}

impl TransportContext {
    /// Has this context already decrypted its response?
    pub open spec fn is_consumed(self) -> bool {
        self.inner is None
    }
}

/// Encrypt one outbound payload under the peer's transport keys,
/// yielding the ciphertext and the single-use context that can decrypt
/// the matching response.
pub fn issue_request(keys: &Vec<u8>, payload: &Vec<u8>) -> (r: Result<
    (Vec<u8>, TransportContext),
    Error,
>)
    requires
        spec_keys_safe(keys@),
    ensures
        match r {
            Result::Ok((enc, ctx)) => !ctx.is_consumed() && ohttp_keys_ok(keys@),
            Result::Err(e) => e == Error::TransportFailure,
        },
{
    match ohttp_encapsulate(keys, payload) {
        Option::Some((enc, c)) => Result::Ok((enc, TransportContext { inner: Option::Some(c) })),
        Option::None => Result::Err(Error::TransportFailure),
    }
}

/// Decrypt the response paired with this context, consuming it.  A
/// context that was already consumed fails with `ProtocolViolation` and
/// nothing else; that failure is permanent.
pub fn consume_response(ctx: &mut TransportContext, response: &Vec<u8>) -> (r: Result<
    Vec<u8>,
    Error,
>)
    ensures
        final(ctx).is_consumed(),
        (r == Result::<Vec<u8>, Error>::Err(Error::ProtocolViolation)) == old(ctx).is_consumed(),
        match r {
            Result::Ok(_) => !old(ctx).is_consumed(),
            Result::Err(e) => e == Error::ProtocolViolation || e == Error::TransportFailure,
        },
{
    let c = match ctx.inner.take() {
        Option::Some(c) => c,
        Option::None => {
            return Result::Err(Error::ProtocolViolation);
        },
    };
    match ohttp_decapsulate(c, response) {
        Option::Some(b) => Result::Ok(b),
        Option::None => Result::Err(Error::TransportFailure),
    }
}

} // verus!
