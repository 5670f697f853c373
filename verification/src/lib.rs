//! A proof engine for verifiable two-player turn-based games.
//!
//! Each participant (two players and the match owner) keeps a replica of the
//! game state; the state advances only through signed actions.  A replica can
//! produce a compact, self-authenticating proof that its state is the lawful
//! successor of an initial root proof.

use vstd::prelude::*;

pub mod action;
pub mod codec;
pub mod coin;
pub mod crypto;
pub mod diff;
pub mod proofs;
pub mod proof_state;
pub mod root_proof;
pub mod store;

pub use action::{PlayerAction, ProofAction};
pub use diff::Diff;
pub use proof_state::ProofState;
pub use root_proof::RootProof;

verus! {

/// A player index.  Only the values `0` and `1` are valid; `None` in an
/// `Option<Player>` denotes the match owner.
pub type Player = u8;

/// The two error classes of the engine.
///
/// `Hard` marks malformed input or a broken invariant: local state is never
/// mutated.  `Slashable` marks a well-formed input through which a remote
/// party violated the protocol: the input is rejected, local state is
/// unchanged, and the rejected input is publishable evidence.
#[derive(Clone, Copy, PartialEq, Eq, Structural, Debug)]
pub enum Error {
    Hard,
    Slashable,
}

/// A match identifier: an opaque, equality-comparable value with a
/// self-delimiting binary encoding.  An identifier is abstracted by its
/// encoding, so two identifiers are the same exactly when their bytes are.
pub trait ID: Sized {
    /// Whether the identifier is well formed.
    spec fn wf(&self) -> bool;

    /// The identifier's binary encoding.
    spec fn ser(&self) -> Seq<u8>;

    /// Where an identifier encoding that starts at `at` in `data` ends, if
    /// one does.
    spec fn de_len(data: Seq<u8>, at: int) -> Option<int>;

    /// An identifier's encoding, written at `at`, decodes back to it.
    proof fn lemma_prefix(&self, data: Seq<u8>, at: int)
        requires
            self.wf(),
            0 <= at,
            at + self.ser().len() <= data.len(),
            data.subrange(at, at + self.ser().len() as int) == self.ser(),
        ensures
            Self::de_len(data, at) == Some(at + self.ser().len() as int),
    ;

    /// A decoded identifier lies inside the data it was read from.
    proof fn lemma_de_len(data: Seq<u8>, at: int)
        requires
            0 <= at <= data.len(),
        ensures
            Self::de_len(data, at) matches Some(end) ==> at <= end <= data.len(),
    ;

    /// Reads one identifier starting at `at`; returns it with the position
    /// one past its encoding.
    fn deserialize(data: &[u8], at: usize) -> (r: Result<(Self, usize), Error>)
        requires
            at <= data@.len(),
        ensures
            match r {
                Ok((v, end)) => {
                    &&& Self::de_len(data@, at as int) == Some(end as int)
                    &&& v.wf()
                    &&& at <= end <= data@.len()
                    &&& v.ser() == data@.subrange(at as int, end as int)
                },
                Err(e) => Self::de_len(data@, at as int) is None && e == Error::Hard,
            },
    ;

    /// Writes the identifier's encoding.
    fn serialize(&self) -> (r: Vec<u8>)
        requires
            self.wf(),
        ensures
            r@ == self.ser(),
    ;

    /// An owned copy of the identifier.
    fn dup(&self) -> (r: Self)
        requires
            self.wf(),
        ensures
            r.wf(),
            r.ser() == self.ser(),
    ;

    /// Whether two identifiers are the same.
    fn same_as(&self, other: &Self) -> (r: bool)
        requires
            self.wf(),
            other.wf(),
        ensures
            r == (self.ser() == other.ser()),
    ;
}

/// A per-state counter with a successor operation and a self-delimiting
/// binary encoding.  A nonce is abstracted by its encoding.
pub trait Nonce: Sized {
    /// Whether the nonce is well formed.
    spec fn wf(&self) -> bool;

    /// The nonce's binary encoding.
    spec fn ser(&self) -> Seq<u8>;

    /// Where a nonce encoding that starts at `at` in `data` ends, if one
    /// does.
    spec fn de_len(data: Seq<u8>, at: int) -> Option<int>;

    /// The encoding of the successor of the nonce encoded by `n`.
    spec fn next_of(n: Seq<u8>) -> Seq<u8>;

    /// The encoding of the initial nonce.
    spec fn initial_of() -> Seq<u8>;

    /// A nonce's encoding, written at `at`, decodes back to it.
    proof fn lemma_prefix(&self, data: Seq<u8>, at: int)
        requires
            self.wf(),
            0 <= at,
            at + self.ser().len() <= data.len(),
            data.subrange(at, at + self.ser().len() as int) == self.ser(),
        ensures
            Self::de_len(data, at) == Some(at + self.ser().len() as int),
    ;

    /// A decoded nonce lies inside the data it was read from.
    proof fn lemma_de_len(data: Seq<u8>, at: int)
        requires
            0 <= at <= data.len(),
        ensures
            Self::de_len(data, at) matches Some(end) ==> at <= end <= data.len(),
    ;

    /// The initial nonce.
    fn initial() -> (r: Self)
        ensures
            r.wf(),
            r.ser() == Self::initial_of(),
    ;

    /// Reads one nonce starting at `at`; returns it with the position one
    /// past its encoding.
    fn deserialize(data: &[u8], at: usize) -> (r: Result<(Self, usize), Error>)
        requires
            at <= data@.len(),
        ensures
            match r {
                Ok((v, end)) => {
                    &&& Self::de_len(data@, at as int) == Some(end as int)
                    &&& v.wf()
                    &&& at <= end <= data@.len()
                    &&& v.ser() == data@.subrange(at as int, end as int)
                },
                Err(e) => Self::de_len(data@, at as int) is None && e == Error::Hard,
            },
    ;

    /// Writes the nonce's encoding.
    fn serialize(&self) -> (r: Vec<u8>)
        requires
            self.wf(),
        ensures
            r@ == self.ser(),
    ;

    /// The successor of the nonce.
    fn next(&self) -> (r: Self)
        requires
            self.wf(),
        ensures
            r.wf(),
            r.ser() == Self::next_of(self.ser()),
    ;

    /// An owned copy of the nonce.
    fn dup(&self) -> (r: Self)
        requires
            self.wf(),
        ensures
            r.wf(),
            r.ser() == self.ser(),
    ;
}

/// A domain action with a canonical binary encoding.  An action is
/// abstracted by its encoding: decoding accepts exactly the valid encodings,
/// and re-encoding a decoded action gives the same bytes back.
pub trait Action: Sized {
    /// Whether the action is well formed.
    spec fn wf(&self) -> bool;

    /// The action's binary encoding.
    spec fn ser(&self) -> Seq<u8>;

    /// Whether `data` is a valid action encoding.
    spec fn valid(data: Seq<u8>) -> bool;

    /// A well-formed action's encoding is valid.
    proof fn lemma_valid_ser(&self)
        requires
            self.wf(),
        ensures
            Self::valid(self.ser()),
    ;

    /// Decodes an action from the whole of `data`.
    fn deserialize(data: &[u8]) -> (r: Result<Self, Error>)
        ensures
            match r {
                Ok(a) => a.wf() && Self::valid(data@) && a.ser() == data@,
                Err(e) => !Self::valid(data@) && e == Error::Hard,
            },
    ;

    /// Writes the action's encoding.
    fn serialize(&self) -> (r: Vec<u8>)
        requires
            self.wf(),
        ensures
            r@ == self.ser(),
    ;

    /// An owned copy of the action.
    fn dup(&self) -> (r: Self)
        requires
            self.wf(),
        ensures
            r.wf(),
            r.ser() == self.ser(),
    ;
}

/// A domain game state, the type a `ProofState` wraps.
///
/// A state is abstracted by a model of the implementation's choice.  A state
/// is *serializable* exactly when it is a stable checkpoint; mid-transition
/// states may be unserializable, and that is the one mechanism that skips
/// checkpointing.
pub trait State: Sized {
    /// The identifier type of a match.
    type ID: ID;

    /// The nonce type of a state.
    type Nonce: Nonce;

    /// The action type of the domain.
    type Action: Action;

    /// The event type the domain emits while a transition runs.
    type Event;

    /// The abstract model of a state.
    type V;

    /// The state's abstract model.
    spec fn model(&self) -> Self::V;

    /// Whether the state is well formed.
    spec fn wf(&self) -> bool;

    /// Whether a state is a stable checkpoint.
    spec fn serializable(v: Self::V) -> bool;

    /// The binary encoding of a serializable state.
    spec fn ser(v: Self::V) -> Seq<u8>;

    /// The state a buffer decodes to, if any.
    spec fn de(data: Seq<u8>) -> Option<Self::V>;

    /// The state reached by applying the action encoded by `action` as
    /// `player`, or `None` if the action is rejected.
    spec fn app(v: Self::V, player: Option<Player>, action: Seq<u8>) -> Option<Self::V>;

    /// The class of a rejected action: hard for malformed or locally
    /// impossible input, slashable where a remote party broke the protocol.
    spec fn app_class(v: Self::V, player: Option<Player>, action: Seq<u8>) -> Error;

    /// The challenge message a subkey owner signs to certify an address.
    spec fn challenge_of(address: Seq<u8>) -> Seq<u8>;

    /// A serializable state's encoding decodes, and the decoded state
    /// encodes to the same bytes.  Decoding may shed runtime attachments
    /// that the wire does not carry.
    proof fn lemma_de_ser(v: Self::V)
        requires
            Self::serializable(v),
        ensures
            Self::de(Self::ser(v)) matches Some(w) && Self::serializable(w) && Self::ser(w)
                == Self::ser(v),
    ;

    /// Decoding accepts only canonical encodings of serializable states.
    proof fn lemma_ser_de(data: Seq<u8>)
        ensures
            Self::de(data) matches Some(v) ==> Self::serializable(v) && Self::ser(v) == data,
    ;

    /// The challenge message for certifying `address`.
    fn challenge(address: &Vec<u8>) -> (r: Vec<u8>)
        requires
            address@.len() == 20,
        ensures
            r@ == Self::challenge_of(address@),
    ;

    /// Decodes a state from the whole of `data`.
    fn deserialize(data: &[u8]) -> (r: Result<Self, Error>)
        ensures
            match r {
                Ok(s) => s.wf() && Self::de(data@) == Some(s.model()),
                Err(e) => Self::de(data@) is None && e == Error::Hard,
            },
    ;

    /// Writes the state's encoding, or `None` if the state is not a
    /// checkpoint.
    fn serialize(&self) -> (r: Option<Vec<u8>>)
        requires
            self.wf(),
        ensures
            match r {
                Some(bytes) => Self::serializable(self.model()) && bytes@ == Self::ser(
                    self.model(),
                ),
                None => !Self::serializable(self.model()),
            },
    ;

    /// Whether the state is a checkpoint; must agree with `serialize`.
    fn is_serializable(&self) -> (r: bool)
        requires
            self.wf(),
        ensures
            r == Self::serializable(self.model()),
    ;

    /// Applies an action by a player to the state, returning the events the
    /// transition emitted.  On an error the state is unchanged.
    fn apply(&mut self, player: Option<Player>, action: &Self::Action) -> (r: Result<
        Vec<Self::Event>,
        Error,
    >)
        requires
            old(self).wf(),
            action.wf(),
        ensures
            final(self).wf(),
            match r {
                Ok(_) => Self::app(old(self).model(), player, action.ser()) == Some(
                    final(self).model(),
                ),
                Err(e) => final(self).model() == old(self).model() && Self::app(
                    old(self).model(),
                    player,
                    action.ser(),
                ) is None && e == Self::app_class(old(self).model(), player, action.ser()),
            },
    ;

    /// An owned copy of a checkpoint state.
    fn dup(&self) -> (r: Self)
        requires
            self.wf(),
            Self::serializable(self.model()),
        ensures
            r.wf(),
            r.model() == self.model(),
    ;
}

/// A 16-byte match identifier.
impl ID for Vec<u8> {
    open spec fn wf(&self) -> bool {
        self@.len() == 16
    }

    open spec fn ser(&self) -> Seq<u8> {
        self@
    }

    open spec fn de_len(data: Seq<u8>, at: int) -> Option<int> {
        if at + 16 <= data.len() {
            Some(at + 16)
        } else {
            None
        }
    }

    proof fn lemma_prefix(&self, data: Seq<u8>, at: int) {
    }

    proof fn lemma_de_len(data: Seq<u8>, at: int) {
    }

    fn deserialize(data: &[u8], at: usize) -> (r: Result<(Self, usize), Error>) {
        let dlen: usize = data.len();
        let bytes = codec::read_bytes(data, at, 16)?;

        Ok((bytes, at + 16))
    }

    fn serialize(&self) -> (r: Vec<u8>) {
        let mut out: Vec<u8> = Vec::new();

        codec::write_bytes(&mut out, self.as_slice());

        out
    }

    fn dup(&self) -> (r: Self) {
        let mut out: Vec<u8> = Vec::new();

        codec::write_bytes(&mut out, self.as_slice());

        out
    }

    fn same_as(&self, other: &Self) -> (r: bool) {
        codec::bytes_eq(self.as_slice(), other.as_slice())
    }
}

/// A one-byte wrapping counter.
impl Nonce for u8 {
    open spec fn wf(&self) -> bool {
        true
    }

    open spec fn ser(&self) -> Seq<u8> {
        seq![*self]
    }

    open spec fn de_len(data: Seq<u8>, at: int) -> Option<int> {
        if at + 1 <= data.len() {
            Some(at + 1)
        } else {
            None
        }
    }

    open spec fn next_of(n: Seq<u8>) -> Seq<u8> {
        seq![((n[0] + 1) % 0x100) as u8]
    }

    open spec fn initial_of() -> Seq<u8> {
        seq![0u8]
    }

    proof fn lemma_prefix(&self, data: Seq<u8>, at: int) {
    }

    proof fn lemma_de_len(data: Seq<u8>, at: int) {
    }

    fn initial() -> (r: Self) {
        0
    }

    fn deserialize(data: &[u8], at: usize) -> (r: Result<(Self, usize), Error>) {
        let dlen: usize = data.len();
        let b = codec::read_u8(data, at)?;

        proof {
            assert(b.ser() =~= data@.subrange(at as int, at + 1));
        }

        Ok((b, at + 1))
    }

    fn serialize(&self) -> (r: Vec<u8>) {
        let mut out: Vec<u8> = Vec::new();

        codec::write_u8(&mut out, *self);

        proof {
            assert(out@ =~= self.ser());
        }

        out
    }

    fn next(&self) -> (r: Self) {
        if *self == 255 {
            0
        } else {
            *self + 1
        }
    }

    fn dup(&self) -> (r: Self) {
        *self
    }
}

/// A yes-or-no domain action, one byte on the wire.
impl Action for bool {
    open spec fn wf(&self) -> bool {
        true
    }

    open spec fn ser(&self) -> Seq<u8> {
        seq![(if *self { 1u8 } else { 0u8 })]
    }

    open spec fn valid(data: Seq<u8>) -> bool {
        data == seq![0u8] || data == seq![1u8]
    }

    proof fn lemma_valid_ser(&self) {
    }

    fn deserialize(data: &[u8]) -> (r: Result<Self, Error>) {
        if data.len() != 1 {
            proof {
                assert(data@.len() != 1);
                assert(seq![0u8].len() == 1 && seq![1u8].len() == 1);
            }
            return Err(Error::Hard);
        }

        let b = codec::read_u8_bool(data, 0)?;

        proof {
            assert(data@ =~= seq![data@[0]]);
        }

        Ok(b)
    }

    fn serialize(&self) -> (r: Vec<u8>) {
        let mut out: Vec<u8> = Vec::new();

        codec::write_u8_bool(&mut out, *self);

        proof {
            assert(out@ =~= self.ser());
        }

        out
    }

    fn dup(&self) -> (r: Self) {
        *self
    }
}

} // verus!
