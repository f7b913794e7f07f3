use vstd::prelude::*;

verus! {

/// One outbound negotiation message: where to post it and the encrypted
/// body.  The paired decryption context travels separately so its
/// single-use rule is explicit.
pub struct PayjoinRequest {
    pub url: String,
    pub body: Vec<u8>,
}

impl PayjoinRequest {
    /// Where the message is to be posted.
    pub fn url(&self) -> (r: String)
        ensures
            r@ == self.url@,
    {
        self.url.clone()
    }

    /// The encrypted body.
    pub fn body(&self) -> (r: Vec<u8>)
        ensures
            r@ == self.body@,
    {
        crate::text::clone_bytes(&self.body)
    }
}

} // verus!
