//! The cryptographic adapter.
//!
//! Addresses are 20 bytes, hashes 32 bytes, signatures 65 bytes.  Hashing is
//! keccak-256.  Signatures use a deterministic address-embedding scheme: a
//! signature consists of the signer's address, the keccak-256 digest of the
//! signed message, and 13 bytes of padding.  Recovery succeeds exactly when
//! the embedded digest matches the message.  Signing is therefore a pure
//! function of the signer's address and the message, which keeps every
//! signature check in the engine reproducible.
//!
//! The scheme authenticates nothing: anyone can produce a signature for any
//! address, and recovery ignores the padding bytes.  It stands in for the
//! externally supplied curve signatures, so checks against it exercise the
//! engine's structural rules, not cryptographic ones.

use vstd::prelude::*;
use crate::Error;
use crate::codec::read_bytes;

verus! {

/// The byte length of an address.
pub const ADDRESS_LENGTH: usize = 20;

/// The byte length of a hash.
pub const HASH_LENGTH: usize = 32;

/// The byte length of a signature.
pub const SIGNATURE_LENGTH: usize = 65;

/// What `tiny_keccak::keccak256` returns for the given bytes.
pub uninterp spec fn keccak_of(data: Seq<u8>) -> Seq<u8>;

/// Relies on `tiny_keccak::keccak256` for the 32-byte keccak-256 digest of
/// the input, a function of the input bytes alone.
#[verifier::external_body]
pub(crate) fn keccak256(data: &[u8]) -> (r: Vec<u8>)
    ensures
        r@ == keccak_of(data@),
        r@.len() == 32,
{
    tiny_keccak::keccak256(data).to_vec()
}

/// The address recovered from a signature over a message, if any.
///
/// Recovery succeeds exactly when the signature is 65 bytes long and embeds
/// the keccak-256 digest of the message; the recovered address is the first
/// 20 bytes of the signature.
pub open spec fn recover_of(message: Seq<u8>, signature: Seq<u8>) -> Option<Seq<u8>> {
    if signature.len() == 65 && signature.subrange(20, 52) == keccak_of(message) {
        Some(signature.take(20))
    } else {
        None
    }
}

/// Recovers the signer's address from a message and a signature.
pub fn recover(message: &[u8], signature: &[u8]) -> (r: Result<Vec<u8>, Error>)
    ensures
        match r {
            Ok(a) => recover_of(message@, signature@) == Some(a@),
            Err(e) => recover_of(message@, signature@) is None && e == Error::Hard,
        },
{
    if signature.len() != 65 {
        return Err(Error::Hard);
    }

    let digest = keccak256(message);

    let mut i: usize = 0;

    while i < 32
        invariant
            i <= 32,
            signature@.len() == 65,
            digest@ == keccak_of(message@),
            digest@.len() == 32,
            forall|j: int| 0 <= j < i ==> signature@[20 + j] == digest@[j],
        decreases 32 - i,
    {
        if signature[20 + i] != digest[i] {
            proof {
                assert(signature@.subrange(20, 52)[i as int] != keccak_of(message@)[i as int]);
            }
            return Err(Error::Hard);
        }

        i = i + 1;
    }

    proof {
        assert(signature@.subrange(20, 52) =~= keccak_of(message@));
    }

    let address = read_bytes(signature, 0, 20)?;

    proof {
        assert(address@ =~= signature@.take(20));
    }

    Ok(address)
}

/// The signature the scheme assigns to a message for a signer.
pub open spec fn signature_of(address: Seq<u8>, message: Seq<u8>) -> Seq<u8> {
    address + keccak_of(message) + seq![0u8; 13]
}

/// The local participant's signing identity.
///
/// The engine's original design takes a host signing callback; under the
/// deterministic scheme a signature is a pure function of the signer's
/// address and the message, so the identity alone stands in for the callback.
pub struct Signer {
    address: Vec<u8>,
}

impl Signer {
    /// The signer's address.
    pub closed spec fn addr(&self) -> Seq<u8> {
        self.address@
    }

    /// A signer is well formed when its address has the right length.
    pub open spec fn wf(&self) -> bool {
        self.addr().len() == 20
    }

    /// Constructs a signing identity; the address must be 20 bytes long.
    pub fn new(address: Vec<u8>) -> (r: Result<Signer, Error>)
        ensures
            match r {
                Ok(s) => address@.len() == 20 && s.addr() == address@ && s.wf(),
                Err(e) => address@.len() != 20 && e == Error::Hard,
            },
    {
        if address.len() != 20 {
            return Err(Error::Hard);
        }

        Ok(Signer { address })
    }

    /// The signer's address, as bytes.
    pub fn address(&self) -> (r: &Vec<u8>)
        ensures
            r@ == self.addr(),
    {
        &self.address
    }

    /// Signs a message: the recovered signer of the result is this identity.
    pub fn sign(&self, message: &[u8]) -> (r: Vec<u8>)
        requires
            self.wf(),
        ensures
            r@ == signature_of(self.addr(), message@),
            r@.len() == 65,
            recover_of(message@, r@) == Some(self.addr()),
    {
        let mut signature: Vec<u8> = Vec::new();

        crate::codec::write_bytes(&mut signature, self.address.as_slice());

        let digest = keccak256(message);
        crate::codec::write_bytes(&mut signature, digest.as_slice());

        let mut i: usize = 0;

        while i < 13
            invariant
                i <= 13,
                signature@ == self.addr() + keccak_of(message@) + Seq::<u8>::new(
                    i as nat,
                    |j: int| 0u8,
                ),
            decreases 13 - i,
        {
            signature.push(0);
            i = i + 1;

            proof {
                assert(signature@ =~= self.addr() + keccak_of(message@) + Seq::<u8>::new(
                    i as nat,
                    |j: int| 0u8,
                ));
            }
        }

        proof {
            assert(Seq::<u8>::new(13, |j: int| 0u8) =~= seq![0u8; 13]);
        }

        proof {
            assert(signature@.subrange(20, 52) =~= keccak_of(message@));
            assert(signature@.take(20) =~= self.addr());
        }

        signature
    }
}

} // verus!
