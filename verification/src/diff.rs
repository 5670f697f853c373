//! A signed delta to be applied to a `Proof` with a given hash.
//!
//! Wire format: the 32-byte parent proof hash, the framed action list, a
//! 65-byte checkpoint signature over the post-apply state, and a 65-byte
//! outer signature over everything before it, from which the author is
//! recovered.

use vstd::prelude::*;
use crate::{Action, Error};
use crate::action::{
    actions_de, framed_ser, lemma_actions_de_ser, pa_all_wf, pa_views, pa_wf, ProofAction,
    ProofActionV, write_actions_framed,
};
use crate::codec;
use crate::crypto;
use crate::crypto::{recover_of, Signer};

verus! {

/// The abstract model of a `Diff`.
pub struct DiffV {
    pub proof: Seq<u8>,
    pub actions: Seq<ProofActionV>,
    pub proof_signature: Seq<u8>,
    pub signature: Seq<u8>,
    pub author: Seq<u8>,
}

/// A signed delta against the proof whose hash it names.
pub struct Diff<A: Action> {
    pub(crate) proof: Vec<u8>,
    pub(crate) actions: Vec<ProofAction<A>>,
    pub(crate) proof_signature: Vec<u8>,
    pub(crate) signature: Vec<u8>,
    pub(crate) author: Vec<u8>,
}

impl<A: Action> View for Diff<A> {
    type V = DiffV;

    open(crate) spec fn view(&self) -> DiffV {
        DiffV {
            proof: self.proof@,
            actions: pa_views(self.actions@),
            proof_signature: self.proof_signature@,
            signature: self.signature@,
            author: self.author@,
        }
    }
}

/// The encoding of a diff up to and including the checkpoint signature: the
/// outer signature signs exactly these bytes.
pub open spec fn diff_pre_ser(v: DiffV) -> Seq<u8> {
    v.proof + codec::u32_le(v.actions.len() as u32) + framed_ser(v.actions) + v.proof_signature
}

/// The full encoding of a diff.
pub open spec fn diff_ser(v: DiffV) -> Seq<u8> {
    diff_pre_ser(v) + v.signature
}

/// Whether a diff model is well formed: field lengths, well-formed actions,
/// and an author recovered from the outer signature.
pub open spec fn diff_wf<A: Action>(v: DiffV) -> bool {
    &&& v.proof.len() == 32
    &&& v.actions.len() <= u32::MAX
    &&& forall|i: int| 0 <= i < v.actions.len() ==> pa_wf::<A>(#[trigger] v.actions[i])
    &&& v.proof_signature.len() == 65
    &&& v.signature.len() == 65
    &&& recover_of(diff_pre_ser(v), v.signature) == Some(v.author)
}

/// The diff a buffer decodes to, if any.
pub open spec fn diff_de<A: Action>(data: Seq<u8>) -> Option<DiffV> {
    if data.len() < 32 + 4 + 65 + 65 {
        None
    } else {
        match recover_of(data.take(data.len() - 65), data.skip(data.len() - 65)) {
            Some(author) => {
                let count = codec::le_u32(data.subrange(32, 36));
                match actions_de::<A>(data, 36, count) {
                    Some((actions, end)) => if data.len() == end + 130 {
                        Some(
                            DiffV {
                                proof: data.take(32),
                                actions,
                                proof_signature: data.subrange(end, end + 65),
                                signature: data.subrange(end + 65, end + 130),
                                author,
                            },
                        )
                    } else {
                        None
                    },
                    None => None,
                }
            },
            None => None,
        }
    }
}

impl<A: Action> Diff<A> {
    /// Whether the diff is well formed.
    pub open(crate) spec fn wf(&self) -> bool {
        &&& diff_wf::<A>(self@)
        &&& pa_all_wf(self.actions@)
    }

    /// A well-formed diff has a well-formed model.
    pub proof fn lemma_wf(&self)
        requires
            self.wf(),
        ensures
            diff_wf::<A>(self@),
    {
    }

    /// The hash of the proof the diff applies to.
    pub fn proof_hash(&self) -> (r: &Vec<u8>)
        ensures
            r@ == self@.proof,
    {
        &self.proof
    }

    /// The address recovered from the diff's outer signature.
    pub fn author(&self) -> (r: &Vec<u8>)
        ensures
            r@ == self@.author,
    {
        &self.author
    }

    /// The actions the diff appends.
    pub fn actions(&self) -> (r: &Vec<ProofAction<A>>)
        ensures
            pa_views(r@) == self@.actions,
            self.wf() ==> pa_all_wf(r@),
    {
        &self.actions
    }

    /// The checkpoint signature over the post-apply state.
    pub fn proof_signature(&self) -> (r: &Vec<u8>)
        ensures
            r@ == self@.proof_signature,
    {
        &self.proof_signature
    }

    /// Decodes a diff from the whole of `data`.  A decoded diff is well
    /// formed and re-encodes to exactly `data`.
    pub fn deserialize(data: &[u8]) -> (r: Result<Self, Error>)
        ensures
            match r {
                Ok(d) => d.wf() && diff_de::<A>(data@) == Some(d@) && diff_ser(d@) == data@,
                Err(e) => diff_de::<A>(data@) is None && e == Error::Hard,
            },
    {
        let dlen: usize = data.len();

        if dlen < 32 + 4 + 65 + 65 {
            return Err(Error::Hard);
        }

        let author = match crypto::recover(&data[0..dlen - 65], &data[dlen - 65..dlen]) {
            Ok(author) => author,
            Err(_) => {
                proof {
                    assert(data@.subrange(0, dlen - 65) =~= data@.take(dlen - 65));
                    assert(data@.subrange(dlen - 65, dlen as int) =~= data@.skip(dlen - 65));
                }
                return Err(Error::Hard);
            },
        };

        proof {
            assert(data@.subrange(0, dlen - 65) =~= data@.take(dlen - 65));
            assert(data@.subrange(dlen - 65, dlen as int) =~= data@.skip(dlen - 65));
        }

        let proof_field = codec::read_bytes(data, 0, 32)?;
        let count = codec::read_u32_usize(data, 32)?;

        proof {
            codec::lemma_u32_le(count as u32);
            assert(proof_field@ =~= data@.take(32));
        }

        let (actions, end) = crate::action::read_actions::<A>(data, 36, count)?;

        if dlen - end != 130 {
            return Err(Error::Hard);
        }

        let proof_signature = codec::read_bytes(data, end, 65)?;
        let signature = codec::read_bytes(data, end + 65, 65)?;

        let d = Diff { proof: proof_field, actions, proof_signature, signature, author };

        proof {
            let v = diff_de::<A>(data@).unwrap();
            assert(d@ =~= v);
            assert(diff_pre_ser(d@) =~= data@.take(dlen - 65));
            assert(diff_ser(d@) =~= data@);
        }

        Ok(d)
    }

    /// Writes the diff's encoding.
    pub fn serialize(&self) -> (r: Vec<u8>)
        requires
            self.wf(),
        ensures
            r@ == diff_ser(self@),
    {
        let mut out = codec::dup_bytes(&self.proof);

        let wrote = codec::write_u32_usize(&mut out, self.actions.len());

        proof {
            assert(wrote is Ok);
        }

        write_actions_framed(&mut out, &self.actions, 0);

        codec::write_bytes(&mut out, self.proof_signature.as_slice());
        codec::write_bytes(&mut out, self.signature.as_slice());

        proof {
            assert(pa_views(self.actions@).subrange(0, self.actions@.len() as int) =~= pa_views(
                self.actions@,
            ));
            assert(out@ =~= diff_ser(self@));
        }

        out
    }

    /// Constructs a diff: the outer signature is the signer's over the
    /// encoding up to and including the checkpoint signature.
    pub(crate) fn new(
        proof: Vec<u8>,
        actions: Vec<ProofAction<A>>,
        proof_signature: Vec<u8>,
        signer: &Signer,
    ) -> (r: Diff<A>)
        requires
            proof@.len() == 32,
            actions@.len() <= u32::MAX,
            pa_all_wf(actions@),
            proof_signature@.len() == 65,
            signer.wf(),
        ensures
            r.wf(),
            r@ == (DiffV {
                proof: proof@,
                actions: pa_views(actions@),
                proof_signature: proof_signature@,
                signature: crypto::signature_of(
                    signer.addr(),
                    diff_pre_ser(
                        DiffV {
                            proof: proof@,
                            actions: pa_views(actions@),
                            proof_signature: proof_signature@,
                            signature: Seq::empty(),
                            author: Seq::empty(),
                        },
                    ),
                ),
                author: signer.addr(),
            }),
    {
        let mut message = codec::dup_bytes(&proof);

        let wrote = codec::write_u32_usize(&mut message, actions.len());

        proof {
            assert(wrote is Ok);
        }

        write_actions_framed(&mut message, &actions, 0);
        codec::write_bytes(&mut message, proof_signature.as_slice());

        let signature = signer.sign(message.as_slice());

        let mut author = codec::dup_bytes(signer.address());

        let d = Diff { proof, actions, proof_signature, signature, author };

        proof {
            assert(pa_views(d.actions@).subrange(0, d.actions@.len() as int) =~= pa_views(
                d.actions@,
            ));
            assert(message@ =~= diff_pre_ser(d@));
            assert(diff_pre_ser(d@) =~= diff_pre_ser(
                DiffV {
                    proof: proof@,
                    actions: pa_views(d.actions@),
                    proof_signature: proof_signature@,
                    signature: Seq::empty(),
                    author: Seq::empty(),
                },
            ));
        }

        d
    }
}

/// Decoding the encoding of a well-formed diff gives the diff back.
pub proof fn lemma_diff_de_ser<A: Action>(v: DiffV)
    requires
        diff_wf::<A>(v),
    ensures
        diff_de::<A>(diff_ser(v)) == Some(v),
{
    let data = diff_ser(v);
    let body = framed_ser(v.actions);
    let bl = body.len() as int;
    let dlen = data.len() as int;

    assert(dlen == 36 + bl + 130);

    assert(data.take(dlen - 65) =~= diff_pre_ser(v));
    assert(data.skip(dlen - 65) =~= v.signature);

    codec::lemma_u32_le(v.actions.len() as u32);

    assert(data.take(32) =~= v.proof);
    assert(data.subrange(32, 36) =~= codec::u32_le(v.actions.len() as u32));

    assert(data.subrange(36, 36 + bl) =~= body);

    lemma_actions_de_ser::<A>(data, 36, v.actions);

    let end = 36 + bl;

    assert(data.subrange(end, end + 65) =~= v.proof_signature);
    assert(data.subrange(end + 65, end + 130) =~= v.signature);

    assert(diff_de::<A>(data) == Some(v)) by {
        let got = diff_de::<A>(data).unwrap();
        assert(got =~= v);
    }
}

} // verus!
