//! The client store: wraps a domain game in a two-mode state machine driven
//! by an explicit continuation, so that transitions may suspend on shared
//! commit-reveal randomness and on private-secret reveals, then resume
//! deterministically.

use vstd::prelude::*;
use crate::{Action, Error, Player};
use crate::State as EngineState;
use crate::codec;
use crate::crypto::keccak_of;

verus! {

/// What seeding the xorshift generator yields: the serialized generator
/// state for a 16-byte seed.
pub uninterp spec fn prng_seed_state(seed: Seq<u8>) -> Seq<u8>;

/// What stepping the xorshift generator yields: the drawn word and the
/// serialized successor state.
pub uninterp spec fn prng_next(state: Seq<u8>) -> (u32, Seq<u8>);

/// A deterministic pseudo-random number generator, abstracted by its
/// serialized state.  Replicas seeded with the same bytes draw the same
/// words.
pub struct Prng {
    state: Vec<u8>,
}

impl View for Prng {
    type V = Seq<u8>;

    closed spec fn view(&self) -> Seq<u8> {
        self.state@
    }
}

impl Prng {
    /// Relies on rand_xorshift's `from_seed` (via serde_cbor for the state
    /// bytes): the generator seeded with the given 16 bytes, a function of
    /// the seed alone.
    #[verifier::external_body]
    pub fn from_seed(seed: &[u8]) -> (r: Prng)
        requires
            seed@.len() == 16,
        ensures
            r@ == prng_seed_state(seed@),
    {
        let mut bytes = [0u8; 16];
        bytes.copy_from_slice(seed);
        let rng: rand_xorshift::XorShiftRng = rand_core::SeedableRng::from_seed(bytes);
        Prng { state: serde_cbor::to_vec(&rng).unwrap_or(Vec::new()) }
    }

    /// Relies on rand_xorshift's `next_u32` (via serde_cbor for the state
    /// bytes): the drawn word and successor state are a function of the
    /// state alone.
    #[verifier::external_body]
    pub fn next_u32(&mut self) -> (r: u32)
        ensures
            r == prng_next(old(self)@).0,
            final(self)@ == prng_next(old(self)@).1,
    {
        let mut rng: rand_xorshift::XorShiftRng = match serde_cbor::from_slice(&self.state) {
            Ok(r) => r,
            Err(_) => rand_core::SeedableRng::from_seed([0u8; 16]),
        };
        let x = rand_core::RngCore::next_u32(&mut rng);
        self.state = serde_cbor::to_vec(&rng).unwrap_or(Vec::new());
        x
    }

    /// The generator's serialized state.
    pub fn to_bytes(&self) -> (r: Vec<u8>)
        ensures
            r@ == self@,
    {
        codec::dup_bytes(&self.state)
    }

    /// An owned copy of the generator.
    pub fn dup(&self) -> (r: Prng)
        ensures
            r@ == self@,
    {
        Prng { state: codec::dup_bytes(&self.state) }
    }

    /// Draws sixteen bytes, little-endian word by word.
    pub fn draw_seed(&mut self) -> (r: Vec<u8>)
        ensures
            r@ == seed_words(old(self)@).0,
            final(self)@ == seed_words(old(self)@).1,
            r@.len() == 16,
    {
        let mut out: Vec<u8> = Vec::new();
        let a = self.next_u32();
        let b = self.next_u32();
        let c = self.next_u32();
        let d = self.next_u32();

        codec::write_u32(&mut out, a);
        codec::write_u32(&mut out, b);
        codec::write_u32(&mut out, c);
        codec::write_u32(&mut out, d);

        proof {
            assert(out@ =~= seed_words(old(self)@).0);
        }

        out
    }
}

/// The sixteen bytes a generator yields for a commitment seed — four drawn
/// words, little-endian — and the generator state after them.
pub open spec fn seed_words(state: Seq<u8>) -> (Seq<u8>, Seq<u8>) {
    let (a, s1) = prng_next(state);
    let (b, s2) = prng_next(s1);
    let (c, s3) = prng_next(s2);
    let (d, s4) = prng_next(s3);
    (codec::u32_le(a) + codec::u32_le(b) + codec::u32_le(c) + codec::u32_le(d), s4)
}

/// A domain secret with a canonical binary encoding, abstracted by its
/// encoding.
pub trait Secret: Sized {
    /// Whether the secret is well formed.
    spec fn wf(&self) -> bool;

    /// The secret's binary encoding.
    spec fn ser(&self) -> Seq<u8>;

    /// Whether `data` is a valid secret encoding.
    spec fn valid(data: Seq<u8>) -> bool;

    /// A well-formed secret's encoding is valid.
    proof fn lemma_valid_ser(&self)
        requires
            self.wf(),
        ensures
            Self::valid(self.ser()),
    ;

    /// Decodes a secret from the whole of `data`.
    fn deserialize(data: &[u8]) -> (r: Result<Self, Error>)
        ensures
            match r {
                Ok(s) => s.wf() && Self::valid(data@) && s.ser() == data@,
                Err(e) => !Self::valid(data@) && e == Error::Hard,
            },
    ;

    /// Writes the secret's encoding.
    fn serialize(&self) -> (r: Vec<u8>)
        requires
            self.wf(),
        ensures
            r@ == self.ser(),
    ;

    /// An owned copy of the secret.
    fn dup(&self) -> (r: Self)
        requires
            self.wf(),
        ensures
            r.wf(),
            r.ser() == self.ser(),
    ;
}

/// A secret that carries no information.
#[derive(Clone, Copy, PartialEq, Eq, Structural, Debug)]
pub struct NoSecret;

impl Secret for NoSecret {
    open spec fn wf(&self) -> bool {
        true
    }

    open spec fn ser(&self) -> Seq<u8> {
        Seq::empty()
    }

    open spec fn valid(data: Seq<u8>) -> bool {
        data.len() == 0
    }

    proof fn lemma_valid_ser(&self) {
    }

    fn deserialize(data: &[u8]) -> (r: Result<Self, Error>) {
        if data.len() != 0 {
            return Err(Error::Hard);
        }

        Ok(NoSecret)
    }

    fn serialize(&self) -> (r: Vec<u8>) {
        Vec::new()
    }

    fn dup(&self) -> (r: Self) {
        NoSecret
    }
}

/// The modeling layer of a domain game: the types a suspended transition
/// carries and their abstract models.
pub trait Machine: Sized {
    /// The secret type of a player.
    type Secret: Secret;

    /// The event type the domain emits.
    type Event;

    /// A suspended transition's continuation.
    type Cont;

    /// The abstract model of a quiescent state.
    type V;

    /// The abstract model of a continuation.
    type CV;

    /// The state's abstract model.
    spec fn model(&self) -> Self::V;

    /// Whether the state is well formed.
    spec fn wf(&self) -> bool;

    /// A continuation's abstract model.
    spec fn cont_model(c: &Self::Cont) -> Self::CV;

    /// Whether a continuation is well formed.
    spec fn cont_wf(c: &Self::Cont) -> bool;
}

/// The abstract model of a suspended transition's next demand.
pub enum StepV<CV, GV> {
    Done(GV),
    AwaitRandom(CV),
    AwaitReveal { cont: CV, player: Player, random: Option<Seq<u8>> },
}

/// What a domain transition asks for next: completion, shared randomness,
/// or a player's secret.  An `AwaitReveal` may hand back an unconsumed
/// generator to keep it across the reveal; handing back `None` forces a
/// re-seed, which defeats grinding.
pub enum Step<G: Machine> {
    Done(G),
    AwaitRandom(G::Cont),
    AwaitReveal { cont: G::Cont, player: Player, random: Option<Prng> },
}

/// The model of a step.
pub open spec fn step_model<G: Machine>(s: Step<G>) -> StepV<G::CV, G::V> {
    match s {
        Step::Done(g) => StepV::Done(g.model()),
        Step::AwaitRandom(c) => StepV::AwaitRandom(G::cont_model(&c)),
        Step::AwaitReveal { cont, player, random } => StepV::AwaitReveal {
            cont: G::cont_model(&cont),
            player,
            random: match random {
                Some(r) => Some(r@),
                None => None,
            },
        },
    }
}

/// Whether a step is well formed.
pub open spec fn step_wf<G: Machine>(s: Step<G>) -> bool {
    match s {
        Step::Done(g) => g.wf(),
        Step::AwaitRandom(c) => G::cont_wf(&c),
        Step::AwaitReveal { cont, player, .. } => G::cont_wf(&cont) && player < 2,
    }
}

/// The utilities a running transition receives: an event log gated by a
/// monotone counter, so that replays of the same transition never log an
/// event twice.
pub struct Context<G: Machine> {
    event_count: u32,
    events: Vec<(u32, G::Event)>,
}

impl<G: Machine> Context<G> {
    /// The current event counter.
    pub closed spec fn count(&self) -> u32 {
        self.event_count
    }

    /// The number of collected events.
    pub closed spec fn emitted(&self) -> int {
        self.events@.len() as int
    }

    /// A fresh context resuming from a counter.
    pub fn new(event_count: u32) -> (r: Context<G>)
        ensures
            r.count() == event_count,
            r.emitted() == 0,
    {
        Context { event_count, events: Vec::new() }
    }

    /// Logs an event under the next counter value.
    pub fn log(&mut self, event: G::Event)
        ensures
            final(self).count() == (if old(self).count() < u32::MAX {
                (old(self).count() + 1) as u32
            } else {
                old(self).count()
            }),
            final(self).emitted() == old(self).emitted() + 1,
    {
        if self.event_count < u32::MAX {
            self.event_count = self.event_count + 1;
        }

        self.events.push((self.event_count, event));
    }

    /// Takes the collected events.
    pub fn take_events(self) -> (r: (Vec<(u32, G::Event)>, u32))
        ensures
            r.0@.len() == self.emitted(),
            r.1 == self.count(),
    {
        let Context { event_count, events } = self;

        (events, event_count)
    }
}

/// A domain game whose transitions may suspend on randomness or reveals.
///
/// A transition is an explicit continuation state machine: `begin` starts
/// it, and `resume` continues it each time the engine fills the demand the
/// last step raised.
pub trait State: Machine {
    /// The identifier type of a match.
    type ID: crate::ID;

    /// The nonce type of a state.
    type Nonce: crate::Nonce;

    /// The action type of the domain.
    type Action: crate::Action;

    /// Whether a state is a stable checkpoint.
    spec fn serializable(v: Self::V) -> bool;

    /// The binary encoding of a serializable state.
    spec fn ser(v: Self::V) -> Seq<u8>;

    /// The state a buffer decodes to, if any.
    spec fn de(data: Seq<u8>) -> Option<Self::V>;

    /// The challenge message a subkey owner signs.
    spec fn challenge_of(address: Seq<u8>) -> Seq<u8>;

    /// Whether an action by a player is acceptable in a state.
    spec fn ver(v: Self::V, player: Option<Player>, action: Seq<u8>) -> bool;

    /// The model of beginning a transition: the first step and the event
    /// counter after it.
    spec fn begin_of(v: Self::V, player: Option<Player>, action: Seq<u8>, count: u32) -> (
        StepV<Self::CV, Self::V>,
        u32,
    );

    /// The model of resuming a transition with the filled demand.
    spec fn resume_of(
        c: Self::CV,
        random: Option<Seq<u8>>,
        secret: Option<Seq<u8>>,
        count: u32,
    ) -> (StepV<Self::CV, Self::V>, u32);

    /// What a reveal request extracts from the holder's secret.
    spec fn extract_of(c: Self::CV, secret: Seq<u8>) -> Seq<u8>;

    /// Whether revealed bytes satisfy the suspended request.
    spec fn reveal_ok(c: Self::CV, data: Seq<u8>) -> bool;

    /// A serializable state's encoding decodes back to it.
    proof fn lemma_de_ser(v: Self::V)
        requires
            Self::serializable(v),
        ensures
            Self::de(Self::ser(v)) == Some(v),
    ;

    /// Decoding accepts only canonical encodings of serializable states.
    proof fn lemma_ser_de(data: Seq<u8>)
        ensures
            Self::de(data) matches Some(v) ==> Self::serializable(v) && Self::ser(v) == data,
    ;

    /// The challenge message for certifying `address`.
    fn challenge(address: &Vec<u8>) -> (r: Vec<u8>)
        requires
            address@.len() == 20,
        ensures
            r@ == Self::challenge_of(address@),
    ;

    /// Decodes a state from the whole of `data`.
    fn deserialize(data: &[u8]) -> (r: Result<Self, Error>)
        ensures
            match r {
                Ok(s) => s.wf() && Self::de(data@) == Some(s.model()),
                Err(e) => Self::de(data@) is None && e == Error::Hard,
            },
    ;

    /// Writes the state's encoding, or `None` off checkpoints.
    fn serialize(&self) -> (r: Option<Vec<u8>>)
        requires
            self.wf(),
        ensures
            match r {
                Some(b) => Self::serializable(self.model()) && b@ == Self::ser(self.model()),
                None => !Self::serializable(self.model()),
            },
    ;

    /// Whether the state is a checkpoint; must agree with `serialize`.
    fn is_serializable(&self) -> (r: bool)
        requires
            self.wf(),
        ensures
            r == Self::serializable(self.model()),
    ;

    /// Checks an action.
    fn verify(&self, player: Option<Player>, action: &Self::Action) -> (r: Result<(), Error>)
        requires
            self.wf(),
            action.wf(),
        ensures
            r is Ok <==> Self::ver(self.model(), player, action.ser()),
    ;

    /// Begins a transition, logging through the context.
    fn begin(self, player: Option<Player>, action: &Self::Action, ctx: &mut Context<Self>) -> (r:
        Step<Self>)
        requires
            self.wf(),
            action.wf(),
            Self::ver(self.model(), player, action.ser()),
        ensures
            step_wf::<Self>(r),
            (step_model::<Self>(r), final(ctx).count()) == Self::begin_of(
                self.model(),
                player,
                action.ser(),
                old(ctx).count(),
            ),
    ;

    /// Resumes a transition with the filled demand.
    fn resume(
        cont: Self::Cont,
        random: Option<Prng>,
        secret: Option<Vec<u8>>,
        ctx: &mut Context<Self>,
    ) -> (r: Step<Self>)
        requires
            Self::cont_wf(&cont),
        ensures
            step_wf::<Self>(r),
            (step_model::<Self>(r), final(ctx).count()) == Self::resume_of(
                Self::cont_model(&cont),
                match random {
                    Some(p) => Some(p@),
                    None => None,
                },
                match secret {
                    Some(b) => Some(b@),
                    None => None,
                },
                old(ctx).count(),
            ),
    ;

    /// Extracts the bytes a reveal request asks of the holder's secret.
    fn extract(cont: &Self::Cont, secret: &Self::Secret) -> (r: Vec<u8>)
        requires
            Self::cont_wf(cont),
            secret.wf(),
        ensures
            r@ == Self::extract_of(Self::cont_model(cont), secret.ser()),
    ;

    /// Checks revealed bytes against the suspended request.
    fn check_reveal(cont: &Self::Cont, data: &[u8]) -> (r: bool)
        requires
            Self::cont_wf(cont),
        ensures
            r == Self::reveal_ok(Self::cont_model(cont), data@),
    ;

    /// An owned copy of a quiescent state.
    fn dup(&self) -> (r: Self)
        requires
            self.wf(),
        ensures
            r.wf(),
            r.model() == self.model(),
    ;

    /// An owned copy of a continuation.
    fn dup_cont(c: &Self::Cont) -> (r: Self::Cont)
        requires
            Self::cont_wf(c),
        ensures
            Self::cont_wf(&r),
            Self::cont_model(&r) == Self::cont_model(c),
    ;
}

/// An action fed to the store state machine.
///
/// Wire format: one tag byte, then the body.  Tag 0 carries a domain
/// action, 1 a 32-byte randomness commitment, 2 the replied seed, 3 the
/// revealed seed, and 4 revealed secret bytes.
pub enum StoreAction<A: Action> {
    Action(A),
    RandomCommit(Vec<u8>),
    RandomReply(Vec<u8>),
    RandomReveal(Vec<u8>),
    Reveal(Vec<u8>),
}

/// The decoded form of a store action's bytes.
pub enum StoreActionV {
    Action(Seq<u8>),
    RandomCommit(Seq<u8>),
    RandomReply(Seq<u8>),
    RandomReveal(Seq<u8>),
    Reveal(Seq<u8>),
}

/// The decoded form of a store action encoding, if it is one.
pub open spec fn sa_parse<A: Action>(data: Seq<u8>) -> Option<StoreActionV> {
    if data.len() < 1 {
        None
    } else if data[0] == 0 {
        if A::valid(data.skip(1)) {
            Some(StoreActionV::Action(data.skip(1)))
        } else {
            None
        }
    } else if data[0] == 1 {
        if data.len() == 33 {
            Some(StoreActionV::RandomCommit(data.skip(1)))
        } else {
            None
        }
    } else if data[0] == 2 {
        Some(StoreActionV::RandomReply(data.skip(1)))
    } else if data[0] == 3 {
        Some(StoreActionV::RandomReveal(data.skip(1)))
    } else if data[0] == 4 {
        Some(StoreActionV::Reveal(data.skip(1)))
    } else {
        None
    }
}

impl<A: Action> Action for StoreAction<A> {
    open spec fn wf(&self) -> bool {
        match self {
            StoreAction::Action(a) => a.wf(),
            StoreAction::RandomCommit(h) => h@.len() == 32,
            StoreAction::RandomReply(b) => true,
            StoreAction::RandomReveal(b) => true,
            StoreAction::Reveal(b) => true,
        }
    }

    open spec fn ser(&self) -> Seq<u8> {
        match self {
            StoreAction::Action(a) => seq![0u8] + a.ser(),
            StoreAction::RandomCommit(h) => seq![1u8] + h@,
            StoreAction::RandomReply(b) => seq![2u8] + b@,
            StoreAction::RandomReveal(b) => seq![3u8] + b@,
            StoreAction::Reveal(b) => seq![4u8] + b@,
        }
    }

    open spec fn valid(data: Seq<u8>) -> bool {
        sa_parse::<A>(data) is Some
    }

    proof fn lemma_valid_ser(&self) {
        match self {
            StoreAction::Action(a) => {
                assert(self.ser()[0] == 0);
                assert(self.ser().skip(1) =~= a.ser());
                a.lemma_valid_ser();
            },
            StoreAction::RandomCommit(h) => {
                assert(self.ser()[0] == 1);
            },
            StoreAction::RandomReply(b) => {
                assert(self.ser()[0] == 2);
            },
            StoreAction::RandomReveal(b) => {
                assert(self.ser()[0] == 3);
            },
            StoreAction::Reveal(b) => {
                assert(self.ser()[0] == 4);
            },
        }
    }

    fn deserialize(data: &[u8]) -> (r: Result<Self, Error>) {
        let dlen: usize = data.len();

        if dlen < 1 {
            return Err(Error::Hard);
        }

        let tag = data[0];
        let body = codec::read_bytes(data, 1, dlen - 1)?;

        proof {
            assert(body@ =~= data@.skip(1));
        }

        if tag == 0 {
            let a = A::deserialize(body.as_slice())?;

            let r = StoreAction::Action(a);

            proof {
                assert(r.ser() =~= data@);
            }

            return Ok(r);
        }

        if tag == 1 {
            if dlen != 33 {
                return Err(Error::Hard);
            }

            let r = StoreAction::RandomCommit(body);

            proof {
                assert(r.ser() =~= data@);
            }

            return Ok(r);
        }

        if tag == 2 {
            let r = StoreAction::RandomReply(body);

            proof {
                assert(r.ser() =~= data@);
            }

            return Ok(r);
        }

        if tag == 3 {
            let r = StoreAction::RandomReveal(body);

            proof {
                assert(r.ser() =~= data@);
            }

            return Ok(r);
        }

        if tag == 4 {
            let r = StoreAction::Reveal(body);

            proof {
                assert(r.ser() =~= data@);
            }

            return Ok(r);
        }

        Err(Error::Hard)
    }

    fn serialize(&self) -> (r: Vec<u8>) {
        let mut out: Vec<u8> = Vec::new();

        match self {
            StoreAction::Action(a) => {
                codec::write_u8(&mut out, 0);
                let body = a.serialize();
                codec::write_bytes(&mut out, body.as_slice());
            },
            StoreAction::RandomCommit(h) => {
                codec::write_u8(&mut out, 1);
                codec::write_bytes(&mut out, h.as_slice());
            },
            StoreAction::RandomReply(b) => {
                codec::write_u8(&mut out, 2);
                codec::write_bytes(&mut out, b.as_slice());
            },
            StoreAction::RandomReveal(b) => {
                codec::write_u8(&mut out, 3);
                codec::write_bytes(&mut out, b.as_slice());
            },
            StoreAction::Reveal(b) => {
                codec::write_u8(&mut out, 4);
                codec::write_bytes(&mut out, b.as_slice());
            },
        }

        proof {
            assert(out@ =~= self.ser());
        }

        out
    }

    fn dup(&self) -> (r: Self) {
        match self {
            StoreAction::Action(a) => StoreAction::Action(a.dup()),
            StoreAction::RandomCommit(h) => StoreAction::RandomCommit(codec::dup_bytes(h)),
            StoreAction::RandomReply(b) => StoreAction::RandomReply(codec::dup_bytes(b)),
            StoreAction::RandomReveal(b) => StoreAction::RandomReveal(codec::dup_bytes(b)),
            StoreAction::Reveal(b) => StoreAction::Reveal(codec::dup_bytes(b)),
        }
    }
}

/// Encoding a well-formed store action and parsing the result gives the
/// action's decoded form back.
pub proof fn lemma_sa_parse_ser<A: Action>(a: &StoreAction<A>)
    requires
        a.wf(),
    ensures
        sa_parse::<A>(a.ser()) == Some(sa_model::<A>(a)),
{
    match a {
        StoreAction::Action(x) => {
            assert(a.ser()[0] == 0);
            assert(a.ser().skip(1) =~= x.ser());
            x.lemma_valid_ser();
        },
        StoreAction::RandomCommit(h) => {
            assert(a.ser()[0] == 1);
            assert(a.ser().skip(1) =~= h@);
        },
        StoreAction::RandomReply(b) => {
            assert(a.ser()[0] == 2);
            assert(a.ser().skip(1) =~= b@);
        },
        StoreAction::RandomReveal(b) => {
            assert(a.ser()[0] == 3);
            assert(a.ser().skip(1) =~= b@);
        },
        StoreAction::Reveal(b) => {
            assert(a.ser()[0] == 4);
            assert(a.ser().skip(1) =~= b@);
        },
    }
}

/// The decoded form of a store action value.
pub open spec fn sa_model<A: Action>(a: &StoreAction<A>) -> StoreActionV {
    match a {
        StoreAction::Action(x) => StoreActionV::Action(x.ser()),
        StoreAction::RandomCommit(h) => StoreActionV::RandomCommit(h@),
        StoreAction::RandomReply(b) => StoreActionV::RandomReply(b@),
        StoreAction::RandomReveal(b) => StoreActionV::RandomReveal(b@),
        StoreAction::Reveal(b) => StoreActionV::Reveal(b@),
    }
}

/// The two players' secrets, each paired with its private generator.
pub struct Secrets<G: Machine> {
    pub s0: Option<(G::Secret, Prng)>,
    pub s1: Option<(G::Secret, Prng)>,
}

/// The model of a secret table: each slot as secret bytes and generator
/// state.
pub open spec fn secrets_model<G: Machine>(s: &Secrets<G>) -> (
    Option<(Seq<u8>, Seq<u8>)>,
    Option<(Seq<u8>, Seq<u8>)>,
) {
    (
        match s.s0 {
            Some((sec, prng)) => Some((sec.ser(), prng@)),
            None => None,
        },
        match s.s1 {
            Some((sec, prng)) => Some((sec.ser(), prng@)),
            None => None,
        },
    )
}

/// Whether a secret table is well formed.
pub open spec fn secrets_wf<G: Machine>(s: &Secrets<G>) -> bool {
    &&& (s.s0 matches Some(p) ==> p.0.wf())
    &&& (s.s1 matches Some(p) ==> p.0.wf())
}

impl<G: Machine> Secrets<G> {
    /// An empty secret table.
    pub fn new() -> (r: Secrets<G>)
        ensures
            secrets_wf(&r),
            secrets_model(&r) == (None::<(Seq<u8>, Seq<u8>)>, None::<(Seq<u8>, Seq<u8>)>),
    {
        Secrets { s0: None, s1: None }
    }

    /// An owned copy of the table.
    pub fn dup(&self) -> (r: Secrets<G>)
        requires
            secrets_wf(self),
        ensures
            secrets_wf(&r),
            secrets_model(&r) == secrets_model(self),
    {
        let s0 = match &self.s0 {
            Some((sec, prng)) => Some((sec.dup(), prng.dup())),
            None => None,
        };
        let s1 = match &self.s1 {
            Some((sec, prng)) => Some((sec.dup(), prng.dup())),
            None => None,
        };

        Secrets { s0, s1 }
    }
}

/// The sub-protocol position of a suspended transition.
pub enum Phase {
    Idle { random: Option<Prng>, secret: Option<Vec<u8>> },
    RandomCommit,
    RandomReply { hash: Vec<u8>, owner_hash: bool },
    RandomReveal { hash: Vec<u8>, owner_hash: bool, reply: Vec<u8> },
    Reveal { random: Option<Prng>, player: Player },
}

/// The model of a phase.
pub enum PhaseV {
    Idle { random: Option<Seq<u8>>, secret: Option<Seq<u8>> },
    RandomCommit,
    RandomReply { hash: Seq<u8>, owner_hash: bool },
    RandomReveal { hash: Seq<u8>, owner_hash: bool, reply: Seq<u8> },
    Reveal { random: Option<Seq<u8>>, player: Player },
}

impl View for Phase {
    type V = PhaseV;

    open spec fn view(&self) -> PhaseV {
        match self {
            Phase::Idle { random, secret } => PhaseV::Idle {
                random: match random {
                    Some(p) => Some(p@),
                    None => None,
                },
                secret: match secret {
                    Some(b) => Some(b@),
                    None => None,
                },
            },
            Phase::RandomCommit => PhaseV::RandomCommit,
            Phase::RandomReply { hash, owner_hash } => PhaseV::RandomReply {
                hash: hash@,
                owner_hash: *owner_hash,
            },
            Phase::RandomReveal { hash, owner_hash, reply } => PhaseV::RandomReveal {
                hash: hash@,
                owner_hash: *owner_hash,
                reply: reply@,
            },
            Phase::Reveal { random, player } => PhaseV::Reveal {
                random: match random {
                    Some(p) => Some(p@),
                    None => None,
                },
                player: *player,
            },
        }
    }
}

/// The store state machine: a quiescent domain state, or a suspended
/// transition with its sub-protocol phase.
pub enum StoreState<G: State> {
    Ready { state: G, secrets: Secrets<G>, event_count: u32 },
    Pending { cont: G::Cont, secrets: Secrets<G>, phase: Phase, event_count: u32 },
}

/// The model of a store state.
pub enum StoreStateV<GV, CV> {
    Ready {
        state: GV,
        secrets: (Option<(Seq<u8>, Seq<u8>)>, Option<(Seq<u8>, Seq<u8>)>),
        event_count: u32,
    },
    Pending {
        cont: CV,
        secrets: (Option<(Seq<u8>, Seq<u8>)>, Option<(Seq<u8>, Seq<u8>)>),
        phase: PhaseV,
        event_count: u32,
    },
}

/// The byte-wise exclusive or of two strings, over their common length.
pub open spec fn xor_bytes(a: Seq<u8>, b: Seq<u8>) -> Seq<u8> {
    Seq::new(
        if a.len() <= b.len() {
            a.len()
        } else {
            b.len()
        },
        |i: int| a[i] ^ b[i],
    )
}

/// Settles a step: a completed transition returns to `Ready`; a demand for
/// randomness opens the commit phase; a demand for a secret opens the
/// reveal phase.
pub open spec fn poll_step<G: State>(
    step: (StepV<G::CV, G::V>, u32),
    secrets: (Option<(Seq<u8>, Seq<u8>)>, Option<(Seq<u8>, Seq<u8>)>),
) -> StoreStateV<G::V, G::CV> {
    match step.0 {
        StepV::Done(g) => StoreStateV::Ready { state: g, secrets, event_count: step.1 },
        StepV::AwaitRandom(c) => StoreStateV::Pending {
            cont: c,
            secrets,
            phase: PhaseV::RandomCommit,
            event_count: step.1,
        },
        StepV::AwaitReveal { cont, player, random } => StoreStateV::Pending {
            cont,
            secrets,
            phase: PhaseV::Reveal { random, player },
            event_count: step.1,
        },
    }
}

/// The store state machine's transition relation.
///
/// A domain action opens a transition in a quiescent state.  A commitment
/// is accepted from the owner or player 0 while one is awaited; a reply
/// from the owner or player 1; a reveal from the owner or player 0 (from
/// the owner alone when the commitment was the owner's), and the revealed
/// seed must hash to the commitment unless the owner both committed and
/// reveals.  The two seeds combine by exclusive or into the shared
/// generator's 16-byte seed.  A secret reveal must come from the owner or
/// the requested player and satisfy the suspended request.
pub open spec fn ss_step<G: State>(
    v: StoreStateV<G::V, G::CV>,
    player: Option<Player>,
    a: StoreActionV,
) -> Option<StoreStateV<G::V, G::CV>> {
    match a {
        StoreActionV::Action(ab) => match v {
            StoreStateV::Ready { state, secrets, event_count } => if G::ver(state, player, ab) {
                Some(poll_step::<G>(G::begin_of(state, player, ab, event_count), secrets))
            } else {
                None
            },
            _ => None,
        },
        StoreActionV::RandomCommit(h) => match v {
            StoreStateV::Pending { cont, secrets, phase, event_count } => match phase {
                PhaseV::RandomCommit => if player == None::<Player> || player == Some(
                    0 as Player,
                ) {
                    Some(
                        StoreStateV::Pending {
                            cont,
                            secrets,
                            phase: PhaseV::RandomReply { hash: h, owner_hash: player is None },
                            event_count,
                        },
                    )
                } else {
                    None
                },
                _ => None,
            },
            _ => None,
        },
        StoreActionV::RandomReply(seed) => match v {
            StoreStateV::Pending { cont, secrets, phase, event_count } => match phase {
                PhaseV::RandomReply { hash, owner_hash } => if player == None::<Player> || player
                    == Some(1 as Player) {
                    Some(
                        StoreStateV::Pending {
                            cont,
                            secrets,
                            phase: PhaseV::RandomReveal { hash, owner_hash, reply: seed },
                            event_count,
                        },
                    )
                } else {
                    None
                },
                _ => None,
            },
            _ => None,
        },
        StoreActionV::RandomReveal(seed) => match v {
            StoreStateV::Pending { cont, secrets, phase, event_count } => match phase {
                PhaseV::RandomReveal { hash, owner_hash, reply } => {
                    let player_ok = if owner_hash {
                        player is None
                    } else {
                        player == None::<Player> || player == Some(0 as Player)
                    };
                    let hash_ok = if player is Some || owner_hash {
                        keccak_of(seed) == hash
                    } else {
                        true
                    };
                    let mixed = xor_bytes(reply, seed);
                    if player_ok && hash_ok && mixed.len() == 16 {
                        Some(
                            poll_step::<G>(
                                G::resume_of(
                                    cont,
                                    Some(prng_seed_state(mixed)),
                                    None,
                                    event_count,
                                ),
                                secrets,
                            ),
                        )
                    } else {
                        None
                    }
                },
                _ => None,
            },
            _ => None,
        },
        StoreActionV::Reveal(data) => match v {
            StoreStateV::Pending { cont, secrets, phase, event_count } => match phase {
                PhaseV::Reveal { random, player: revealer } => if (player == None::<Player>
                    || player == Some(revealer)) && G::reveal_ok(cont, data) {
                    Some(
                        poll_step::<G>(
                            G::resume_of(cont, random, Some(data), event_count),
                            secrets,
                        ),
                    )
                } else {
                    None
                },
                _ => None,
            },
            _ => None,
        },
    }
}

impl<G: State> StoreState<G> {
    /// A quiescent store state over a domain state, with no secrets
    /// attached.
    pub fn new(state: G) -> (r: StoreState<G>)
        requires
            state.wf(),
        ensures
            r.wf(),
            r.model() == (StoreStateV::<G::V, G::CV>::Ready {
                state: state.model(),
                secrets: (None::<(Seq<u8>, Seq<u8>)>, None::<(Seq<u8>, Seq<u8>)>),
                event_count: 0 as u32,
            }),
    {
        StoreState::Ready { state, secrets: Secrets::new(), event_count: 0 }
    }

    /// Attaches the players' secrets to a quiescent state.
    pub fn set_secrets(&mut self, secrets: Secrets<G>) -> (r: Result<(), Error>)
        requires
            old(self).wf(),
            secrets_wf(&secrets),
        ensures
            final(self).wf(),
            match r {
                Ok(_) => old(self).model() matches StoreStateV::Ready { state, event_count, .. }
                    && final(self).model() == (StoreStateV::<G::V, G::CV>::Ready {
                    state,
                    secrets: secrets_model(&secrets),
                    event_count,
                }),
                Err(_) => final(self).model() == old(self).model() && !(old(self).model()
                    is Ready),
            },
    {
        match self {
            StoreState::Ready { state, secrets: slot, event_count } => {
                *slot = secrets;
                Ok(())
            },
            StoreState::Pending { .. } => Err(Error::Hard),
        }
    }

    /// The quiescent domain state, if the machine is not suspended.
    pub fn state(&self) -> (r: Option<&G>)
        ensures
            match r {
                Some(g) => self.model() matches StoreStateV::Ready { state, .. } && g.model()
                    == state && (self.wf() ==> g.wf()),
                None => self.model() is Pending,
            },
    {
        match self {
            StoreState::Ready { state, .. } => Some(state),
            StoreState::Pending { .. } => None,
        }
    }

    /// The suspended phase, if the machine is suspended.
    pub fn phase(&self) -> (r: Option<&Phase>)
        ensures
            match r {
                Some(ph) => self.model() matches StoreStateV::Pending { phase, .. } && ph@
                    == phase,
                None => self.model() is Ready,
            },
    {
        match self {
            StoreState::Ready { .. } => None,
            StoreState::Pending { phase, .. } => Some(phase),
        }
    }

    /// A player's secret, if one is attached.
    pub fn secret(&self, player: Player) -> (r: Option<&G::Secret>)
        requires
            player < 2,
        ensures
            ({
                let slot = match self.model() {
                    StoreStateV::Ready { secrets, .. } => secrets,
                    StoreStateV::Pending { secrets, .. } => secrets,
                };
                match r {
                    Some(sec) => (if player == 0 {
                        slot.0
                    } else {
                        slot.1
                    }) matches Some(p) && sec.ser() == p.0,
                    None => (if player == 0 {
                        slot.0
                    } else {
                        slot.1
                    }) is None,
                }
            }),
    {
        match self {
            StoreState::Ready { secrets, .. } => if player == 0 {
                match &secrets.s0 {
                    Some((sec, _)) => Some(sec),
                    None => None,
                }
            } else {
                match &secrets.s1 {
                    Some((sec, _)) => Some(sec),
                    None => None,
                }
            },
            StoreState::Pending { secrets, .. } => if player == 0 {
                match &secrets.s0 {
                    Some((sec, _)) => Some(sec),
                    None => None,
                }
            } else {
                match &secrets.s1 {
                    Some((sec, _)) => Some(sec),
                    None => None,
                }
            },
        }
    }
}

impl<G: State> crate::State for StoreState<G> {
    type ID = G::ID;

    type Nonce = G::Nonce;

    type Action = StoreAction<G::Action>;

    type Event = (u32, G::Event);

    type V = StoreStateV<G::V, G::CV>;

    open spec fn model(&self) -> StoreStateV<G::V, G::CV> {
        match self {
            StoreState::Ready { state, secrets, event_count } => StoreStateV::Ready {
                state: state.model(),
                secrets: secrets_model(secrets),
                event_count: *event_count,
            },
            StoreState::Pending { cont, secrets, phase, event_count } => StoreStateV::Pending {
                cont: G::cont_model(cont),
                secrets: secrets_model(secrets),
                phase: phase@,
                event_count: *event_count,
            },
        }
    }

    open spec fn wf(&self) -> bool {
        match self {
            StoreState::Ready { state, secrets, .. } => state.wf() && secrets_wf(secrets),
            StoreState::Pending { cont, secrets, .. } => G::cont_wf(cont) && secrets_wf(secrets),
        }
    }

    open spec fn serializable(v: StoreStateV<G::V, G::CV>) -> bool {
        match v {
            StoreStateV::Ready { state, .. } => G::serializable(state),
            StoreStateV::Pending { .. } => false,
        }
    }

    open spec fn ser(v: StoreStateV<G::V, G::CV>) -> Seq<u8> {
        match v {
            StoreStateV::Ready { state, event_count, .. } => G::ser(state) + codec::u32_le(
                event_count,
            ),
            StoreStateV::Pending { .. } => Seq::empty(),
        }
    }

    open spec fn de(data: Seq<u8>) -> Option<StoreStateV<G::V, G::CV>> {
        if data.len() < 4 {
            None
        } else {
            match G::de(data.take(data.len() - 4)) {
                Some(g) => Some(
                    StoreStateV::Ready {
                        state: g,
                        secrets: (None, None),
                        event_count: codec::le_u32(data.skip(data.len() - 4)) as u32,
                    },
                ),
                None => None,
            }
        }
    }

    open spec fn app(
        v: StoreStateV<G::V, G::CV>,
        player: Option<Player>,
        action: Seq<u8>,
    ) -> Option<StoreStateV<G::V, G::CV>> {
        match sa_parse::<G::Action>(action) {
            Some(sav) => ss_step::<G>(v, player, sav),
            None => None,
        }
    }

    open spec fn app_class(
        v: StoreStateV<G::V, G::CV>,
        player: Option<Player>,
        action: Seq<u8>,
    ) -> Error {
        match sa_parse::<G::Action>(action) {
            Some(StoreActionV::RandomReveal(seed)) => match v {
                StoreStateV::Pending { phase: PhaseV::RandomReveal { hash, owner_hash, .. }, .. } => {
                    let player_ok = if owner_hash {
                        player is None
                    } else {
                        player == None::<Player> || player == Some(0 as Player)
                    };
                    if player_ok && (player is Some || owner_hash) && keccak_of(seed) != hash {
                        Error::Slashable
                    } else {
                        Error::Hard
                    }
                },
                _ => Error::Hard,
            },
            _ => Error::Hard,
        }
    }

    open spec fn challenge_of(address: Seq<u8>) -> Seq<u8> {
        G::challenge_of(address)
    }

    proof fn lemma_de_ser(v: StoreStateV<G::V, G::CV>) {
        match v {
            StoreStateV::Ready { state, secrets, event_count } => {
                let data = Self::ser(v);
                codec::lemma_u32_le(event_count);
                assert(data.take(data.len() - 4) =~= G::ser(state));
                assert(data.skip(data.len() - 4) =~= codec::u32_le(event_count));
                G::lemma_de_ser(state);
                let w = Self::de(data).unwrap();
                assert(Self::ser(w) =~= data);
            },
            StoreStateV::Pending { .. } => {},
        }
    }

    proof fn lemma_ser_de(data: Seq<u8>) {
        if data.len() >= 4 {
            G::lemma_ser_de(data.take(data.len() - 4));
            if G::de(data.take(data.len() - 4)) is Some {
                let count = codec::le_u32(data.skip(data.len() - 4));
                assert(0 <= count < 0x1_0000_0000) by {
                    let s = data.skip(data.len() - 4);
                    assert(s.len() == 4);
                };
                codec::lemma_u32_le(count as u32);
                assert(codec::u32_le(count as u32) =~= data.skip(data.len() - 4));
                assert(Self::ser(Self::de(data).unwrap()) =~= data);
            }
        }
    }

    fn challenge(address: &Vec<u8>) -> (r: Vec<u8>) {
        G::challenge(address)
    }

    fn deserialize(data: &[u8]) -> (r: Result<Self, Error>) {
        let dlen: usize = data.len();

        if dlen < 4 {
            return Err(Error::Hard);
        }

        let body = &data[0..dlen - 4];
        let g = G::deserialize(body)?;

        let count = codec::read_u32(data, dlen - 4)?;

        proof {
            codec::lemma_u32_le(count);
            assert(data@.subrange(0, dlen - 4) =~= data@.take(dlen - 4));
            assert(data@.subrange(dlen - 4, dlen as int) =~= data@.skip(dlen - 4));
        }

        let r = StoreState::Ready { state: g, secrets: Secrets::new(), event_count: count };

        proof {
            assert(Self::de(data@).unwrap() =~= r.model());
        }

        Ok(r)
    }

    fn serialize(&self) -> (r: Option<Vec<u8>>) {
        match self {
            StoreState::Ready { state, event_count, .. } => {
                let body = match state.serialize() {
                    Some(b) => b,
                    None => {
                        return None;
                    },
                };

                let mut out = body;
                codec::write_u32(&mut out, *event_count);

                Some(out)
            },
            StoreState::Pending { .. } => None,
        }
    }

    fn is_serializable(&self) -> (r: bool) {
        match self {
            StoreState::Ready { state, .. } => state.is_serializable(),
            StoreState::Pending { .. } => false,
        }
    }

    #[verifier::rlimit(100)]
    fn apply(&mut self, player: Option<Player>, action: &StoreAction<G::Action>) -> (r: Result<
        Vec<(u32, G::Event)>,
        Error,
    >) {
        proof {
            lemma_sa_parse_ser::<G::Action>(action);
        }

        match action {
            StoreAction::Action(a) => {
                match &*self {
                    StoreState::Ready { state, secrets, event_count } => {
                        match state.verify(player, a) {
                            Ok(_) => {},
                            Err(_) => {
                                return Err(Error::Hard);
                            },
                        }

                        let g = state.dup();
                        let secrets2 = secrets.dup();
                        let count0 = *event_count;

                        let mut ctx: Context<G> = Context::new(count0);

                        let step = g.begin(player, a, &mut ctx);

                        let (events, count2) = ctx.take_events();

                        self.settle(step, secrets2, count2);

                        Ok(events)
                    },
                    StoreState::Pending { .. } => Err(Error::Hard),
                }
            },
            StoreAction::RandomCommit(h) => {
                match &*self {
                    StoreState::Pending { cont, secrets, phase, event_count } => {
                        match phase {
                            Phase::RandomCommit => {
                                let ok = match player {
                                    None => true,
                                    Some(p) => p == 0,
                                };

                                if !ok {
                                    return Err(Error::Hard);
                                }

                                let cont2 = G::dup_cont(cont);
                                let secrets2 = secrets.dup();
                                let count = *event_count;
                                let hash = codec::dup_bytes(h);
                                let owner_hash = match player {
                                    None => true,
                                    Some(_) => false,
                                };

                                *self = StoreState::Pending {
                                    cont: cont2,
                                    secrets: secrets2,
                                    phase: Phase::RandomReply { hash, owner_hash },
                                    event_count: count,
                                };

                                Ok(Vec::new())
                            },
                            _ => Err(Error::Hard),
                        }
                    },
                    StoreState::Ready { .. } => Err(Error::Hard),
                }
            },
            StoreAction::RandomReply(seed) => {
                match &*self {
                    StoreState::Pending { cont, secrets, phase, event_count } => {
                        match phase {
                            Phase::RandomReply { hash, owner_hash } => {
                                let ok = match player {
                                    None => true,
                                    Some(p) => p == 1,
                                };

                                if !ok {
                                    return Err(Error::Hard);
                                }

                                let cont2 = G::dup_cont(cont);
                                let secrets2 = secrets.dup();
                                let count = *event_count;
                                let hash2 = codec::dup_bytes(hash);
                                let oh = *owner_hash;
                                let reply = codec::dup_bytes(seed);

                                *self = StoreState::Pending {
                                    cont: cont2,
                                    secrets: secrets2,
                                    phase: Phase::RandomReveal {
                                        hash: hash2,
                                        owner_hash: oh,
                                        reply,
                                    },
                                    event_count: count,
                                };

                                Ok(Vec::new())
                            },
                            _ => Err(Error::Hard),
                        }
                    },
                    StoreState::Ready { .. } => Err(Error::Hard),
                }
            },
            StoreAction::RandomReveal(seed) => {
                match &*self {
                    StoreState::Pending { cont, secrets, phase, event_count } => {
                        match phase {
                            Phase::RandomReveal { hash, owner_hash, reply } => {
                                let player_ok = if *owner_hash {
                                    match player {
                                        None => true,
                                        Some(_) => false,
                                    }
                                } else {
                                    match player {
                                        None => true,
                                        Some(p) => p == 0,
                                    }
                                };

                                if !player_ok {
                                    return Err(Error::Hard);
                                }

                                let must_check = match player {
                                    Some(_) => true,
                                    None => *owner_hash,
                                };

                                if must_check {
                                    let digest = crate::crypto::keccak256(seed.as_slice());

                                    if !codec::bytes_eq(digest.as_slice(), hash.as_slice()) {
                                        return Err(Error::Slashable);
                                    }
                                }

                                let mixed = xor_exec(reply.as_slice(), seed.as_slice());

                                if mixed.len() != 16 {
                                    return Err(Error::Hard);
                                }

                                let prng = Prng::from_seed(mixed.as_slice());

                                let cont2 = G::dup_cont(cont);
                                let secrets2 = secrets.dup();
                                let count = *event_count;

                                let mut ctx: Context<G> = Context::new(count);

                                let step = G::resume(cont2, Some(prng), None, &mut ctx);

                                let (events, count2) = ctx.take_events();

                                self.settle(step, secrets2, count2);

                                Ok(events)
                            },
                            _ => Err(Error::Hard),
                        }
                    },
                    StoreState::Ready { .. } => Err(Error::Hard),
                }
            },
            StoreAction::Reveal(data) => {
                match &*self {
                    StoreState::Pending { cont, secrets, phase, event_count } => {
                        match phase {
                            Phase::Reveal { random, player: revealer } => {
                                let ok = match player {
                                    None => true,
                                    Some(p) => p == *revealer,
                                };

                                if !ok {
                                    return Err(Error::Hard);
                                }

                                if !G::check_reveal(cont, data.as_slice()) {
                                    return Err(Error::Hard);
                                }

                                let cont2 = G::dup_cont(cont);
                                let secrets2 = secrets.dup();
                                let count = *event_count;
                                let random2 = match random {
                                    Some(p) => Some(p.dup()),
                                    None => None,
                                };
                                let data2 = codec::dup_bytes(data);

                                let mut ctx: Context<G> = Context::new(count);

                                let step = G::resume(cont2, random2, Some(data2), &mut ctx);

                                let (events, count2) = ctx.take_events();

                                self.settle(step, secrets2, count2);

                                Ok(events)
                            },
                            _ => Err(Error::Hard),
                        }
                    },
                    StoreState::Ready { .. } => Err(Error::Hard),
                }
            },
        }
    }

    fn dup(&self) -> (r: Self) {
        match self {
            StoreState::Ready { state, secrets, event_count } => {
                let r = StoreState::Ready {
                    state: state.dup(),
                    secrets: secrets.dup(),
                    event_count: *event_count,
                };

                proof {
                    assert(r.model() =~= self.model());
                }

                r
            },
            StoreState::Pending { .. } => {
                proof {
                    assert(false);
                }
                StoreState::Pending {
                    cont: G::dup_cont(match self {
                        StoreState::Pending { cont, .. } => cont,
                        _ => unreached(),
                    }),
                    secrets: Secrets::new(),
                    phase: Phase::RandomCommit,
                    event_count: 0,
                }
            },
        }
    }
}

impl<G: State> StoreState<G> {
    /// Settles a step into the machine.
    fn settle(&mut self, step: Step<G>, secrets: Secrets<G>, event_count: u32)
        requires
            step_wf::<G>(step),
            secrets_wf(&secrets),
        ensures
            final(self).wf(),
            final(self).model() == poll_step::<G>(
                (step_model::<G>(step), event_count),
                secrets_model(&secrets),
            ),
    {
        match step {
            Step::Done(g) => {
                *self = StoreState::Ready { state: g, secrets, event_count };
            },
            Step::AwaitRandom(c) => {
                *self = StoreState::Pending {
                    cont: c,
                    secrets,
                    phase: Phase::RandomCommit,
                    event_count,
                };
            },
            Step::AwaitReveal { cont, player, random } => {
                *self = StoreState::Pending {
                    cont,
                    secrets,
                    phase: Phase::Reveal { random, player },
                    event_count,
                };
            },
        }
    }
}

/// Commit-reveal integrity: whenever the machine accepts a revealed seed
/// from a named player, or from the owner against the owner's own
/// commitment, the seed hashes to the published commitment.  Only an owner
/// revealing against a player's commitment is excused, and only because the
/// committer is then the lone submitter.
pub proof fn lemma_reveal_integrity<G: State>(
    v: StoreStateV<G::V, G::CV>,
    player: Option<Player>,
    seed: Seq<u8>,
    hash: Seq<u8>,
    owner_hash: bool,
)
    requires
        v matches StoreStateV::Pending { phase: PhaseV::RandomReveal { hash: h, owner_hash: oh, .. }, .. }
            && h == hash && oh == owner_hash,
        ss_step::<G>(v, player, StoreActionV::RandomReveal(seed)) is Some,
        player is Some || owner_hash,
    ensures
        keccak_of(seed) == hash,
{
}

/// The serialized form of a decoded store action.
pub open spec fn sav_ser(v: StoreActionV) -> Seq<u8> {
    match v {
        StoreActionV::Action(b) => seq![0u8] + b,
        StoreActionV::RandomCommit(h) => seq![1u8] + h,
        StoreActionV::RandomReply(b) => seq![2u8] + b,
        StoreActionV::RandomReveal(b) => seq![3u8] + b,
        StoreActionV::Reveal(b) => seq![4u8] + b,
    }
}

/// The decoded forms of a sequence of store actions.
pub open spec fn sa_models<A: Action>(s: Seq<StoreAction<A>>) -> Seq<StoreActionV> {
    s.map_values(|a: StoreAction<A>| sa_model(&a))
}

/// A schedule wrapped into log entries: each action as a `Play` attributed
/// to the given participant.
pub open spec fn play_wrap(player: Option<Player>, sched: Seq<StoreActionV>) -> Seq<
    crate::action::ProofActionV,
> {
    sched.map_values(
        |a: StoreActionV| crate::action::ProofActionV {
            player,
            action: crate::action::PlayerActionV::Play(sav_ser(a)),
        },
    )
}

/// One scheduler decision: nothing owed, an owed action with the stash and
/// generator after producing it, or a refusal.
pub enum FlushStep {
    Stop,
    Fail(Error),
    Emit { action: StoreActionV, seed: Option<Seq<u8>>, entropy: Seq<u8> },
}

/// The action the local participant owes the machine, per spec of the
/// scheduler: player 0 commits the digest of a fresh seed (stashing its
/// preimage), player 1 replies with a fresh seed, the committer reveals the
/// stash only when it still hashes to the published commitment, and the
/// holder of a requested secret reveals its extraction under the sender
/// gate.  Anything else stops the scheduler.
pub open spec fn flush_step<G: State>(
    m: StoreStateV<G::V, G::CV>,
    player: Option<Player>,
    p2p: bool,
    check_sender: bool,
    secrets: (Option<(Seq<u8>, Seq<u8>)>, Option<(Seq<u8>, Seq<u8>)>),
    seed: Option<Seq<u8>>,
    entropy: Seq<u8>,
) -> FlushStep {
    match m {
        StoreStateV::Pending { cont, phase, .. } => match phase {
            PhaseV::RandomCommit => if player == Some(0 as Player) {
                let drawn = seed_words(entropy);
                FlushStep::Emit {
                    action: StoreActionV::RandomCommit(keccak_of(drawn.0)),
                    seed: Some(drawn.0),
                    entropy: drawn.1,
                }
            } else {
                FlushStep::Stop
            },
            PhaseV::RandomReply { .. } => if player == Some(1 as Player) {
                let drawn = seed_words(entropy);
                FlushStep::Emit {
                    action: StoreActionV::RandomReply(drawn.0),
                    seed,
                    entropy: drawn.1,
                }
            } else {
                FlushStep::Stop
            },
            PhaseV::RandomReveal { hash, owner_hash, .. } => {
                let expected = if owner_hash {
                    player is None
                } else {
                    player == Some(0 as Player)
                };
                if expected {
                    match seed {
                        Some(st) => if keccak_of(st) == hash {
                            FlushStep::Emit {
                                action: StoreActionV::RandomReveal(st),
                                seed,
                                entropy,
                            }
                        } else {
                            FlushStep::Fail(Error::Hard)
                        },
                        None => FlushStep::Fail(Error::Hard),
                    }
                } else {
                    FlushStep::Stop
                }
            },
            PhaseV::Reveal { player: rv, .. } => {
                let may_send = !check_sender || (player is None && !p2p) || (player == Some(rv)
                    && p2p);
                if may_send && rv < 2 {
                    match (if rv == 0 {
                        secrets.0
                    } else {
                        secrets.1
                    }) {
                        Some(holder) => {
                            let data = G::extract_of(cont, holder.0);
                            if G::reveal_ok(cont, data) {
                                FlushStep::Emit {
                                    action: StoreActionV::Reveal(data),
                                    seed,
                                    entropy,
                                }
                            } else {
                                FlushStep::Fail(Error::Hard)
                            }
                        },
                        None => FlushStep::Stop,
                    }
                } else {
                    FlushStep::Stop
                }
            },
            PhaseV::Idle { .. } => FlushStep::Stop,
        },
        StoreStateV::Ready { .. } => FlushStep::Stop,
    }
}

/// The schedule the scheduler produces, computed step by step: the owed
/// actions with the machine, stash and generator after them, or the error
/// on which the scheduler gives up.  A machine that still owes an action
/// after `fuel` steps is refused.
pub open spec fn flush_sched<G: State>(
    m: StoreStateV<G::V, G::CV>,
    player: Option<Player>,
    p2p: bool,
    check_sender: bool,
    secrets: (Option<(Seq<u8>, Seq<u8>)>, Option<(Seq<u8>, Seq<u8>)>),
    seed: Option<Seq<u8>>,
    entropy: Seq<u8>,
    fuel: nat,
) -> Result<(Seq<StoreActionV>, (StoreStateV<G::V, G::CV>, Option<Seq<u8>>, Seq<u8>)), Error>
    decreases fuel,
{
    match flush_step::<G>(m, player, p2p, check_sender, secrets, seed, entropy) {
        FlushStep::Stop => Ok((Seq::empty(), (m, seed, entropy))),
        FlushStep::Fail(e) => Err(e),
        FlushStep::Emit { action, seed: s2, entropy: e2 } => match ss_step::<G>(m, player, action) {
            Some(m2) => if fuel == 0 {
                Err(Error::Hard)
            } else {
                match flush_sched::<G>(m2, player, p2p, check_sender, secrets, s2, e2, (
                fuel - 1) as nat) {
                    Ok(r) => Ok((seq![action] + r.0, r.1)),
                    Err(e) => Err(e),
                }
            },
            None => Err(<StoreState<G> as crate::State>::app_class(m, player, sav_ser(action))),
        },
    }
}

/// The step the owner injects to unblock a stalled randomness phase, if one/// The step the owner injects to unblock a stalled randomness phase, if one
/// is stalled: the missing commitment (stashing its preimage), reply, or
/// reveal against a player's commitment.
pub open spec fn timeout_step<G: State>(
    m: StoreStateV<G::V, G::CV>,
    seed: Option<Seq<u8>>,
    entropy: Seq<u8>,
) -> Option<(StoreActionV, Option<Seq<u8>>, Seq<u8>)> {
    match m {
        StoreStateV::Pending { phase, .. } => match phase {
            PhaseV::RandomCommit => {
                let drawn = seed_words(entropy);
                Some((StoreActionV::RandomCommit(keccak_of(drawn.0)), Some(drawn.0), drawn.1))
            },
            PhaseV::RandomReply { .. } => {
                let drawn = seed_words(entropy);
                Some((StoreActionV::RandomReply(drawn.0), seed, drawn.1))
            },
            PhaseV::RandomReveal { owner_hash, .. } => if !owner_hash {
                let drawn = seed_words(entropy);
                Some((StoreActionV::RandomReveal(drawn.0), seed, drawn.1))
            } else {
                None
            },
            _ => None,
        },
        StoreStateV::Ready { .. } => None,
    }
}

/// The events above a delivery mark, in order, with the mark after them.
pub open spec fn events_filter<E>(events: Seq<(u32, E)>, mark: u32) -> (Seq<(u32, E)>, u32)
    decreases events.len(),
{
    if events.len() == 0 {
        (Seq::empty(), mark)
    } else {
        let e = events[0];
        let mark2 = if e.0 > mark {
            e.0
        } else {
            mark
        };
        let rest = events_filter(events.skip(1), mark2);
        (
            if e.0 > mark {
                seq![e] + rest.0
            } else {
                rest.0
            },
            rest.1,
        )
    }
}

/// What filtering guarantees: every kept event lies strictly above the
/// entry mark, the kept counters ascend strictly — so nothing is delivered
/// twice — and the mark never recedes.
pub proof fn lemma_events_filter<E>(events: Seq<(u32, E)>, mark: u32)
    ensures
        forall|i: int|
            0 <= i < events_filter(events, mark).0.len() ==> (#[trigger] events_filter(
                events,
                mark,
            ).0[i]).0 > mark,
        forall|i: int, j: int|
            0 <= i < j < events_filter(events, mark).0.len() ==> events_filter(events, mark).0[i].0
                < events_filter(events, mark).0[j].0,
        forall|i: int|
            0 <= i < events_filter(events, mark).0.len() ==> (#[trigger] events_filter(
                events,
                mark,
            ).0[i]).0 <= events_filter(events, mark).1,
        events_filter(events, mark).1 >= mark,
    decreases events.len(),
{
    if events.len() > 0 {
        let e = events[0];
        let mark2 = if e.0 > mark {
            e.0
        } else {
            mark
        };
        lemma_events_filter(events.skip(1), mark2);

        let kept = events_filter(events, mark).0;
        let rest = events_filter(events.skip(1), mark2).0;

        if e.0 > mark {
            assert forall|i: int| 0 <= i < kept.len() implies (#[trigger] kept[i]).0 > mark by {
                if i > 0 {
                    assert(kept[i] == rest[i - 1]);
                }
            }
            assert forall|i: int, j: int| 0 <= i < j < kept.len() implies kept[i].0
                < kept[j].0 by {
                if i > 0 {
                    assert(kept[i] == rest[i - 1] && kept[j] == rest[j - 1]);
                } else {
                    assert(kept[j] == rest[j - 1]);
                }
            }
            assert forall|i: int| 0 <= i < kept.len() implies (#[trigger] kept[i]).0
                <= events_filter(events, mark).1 by {
                if i > 0 {
                    assert(kept[i] == rest[i - 1]);
                }
            }
        }
    }
}

/// One secret slot on the wire for an audience: a presence bit, and when
/// the audience may see the slot, the length-prefixed secret and generator
/// state.  The owner sees both slots, a player only its own.
pub open spec fn secret_ser(
    slot: Option<(Seq<u8>, Seq<u8>)>,
    which: u8,
    audience: Option<Player>,
) -> Seq<u8> {
    let visible = match audience {
        None => true,
        Some(p) => p == which,
    };
    match slot {
        Some(pair) => if visible {
            seq![1u8] + codec::u32_le(pair.0.len() as u32) + pair.0 + codec::u32_le(
                pair.1.len() as u32,
            ) + pair.1
        } else {
            seq![0u8]
        },
        None => seq![0u8],
    }
}

/// The store's wire form for an audience: participant tag, the two secret
/// slots (redacted for the other player), the length-prefixed root proof
/// and rolling proof, and the stashed commitment seed where the audience
/// may hold it.
pub open spec fn store_ser<G: State>(v: StoreV<G::V, G::CV>, audience: Option<Player>) -> Seq<
    u8,
> {
    let tag = match v.player {
        None => match audience {
            None => 0u8,
            Some(p) => (1 + p) as u8,
        },
        Some(p) => (1 + p) as u8,
    };
    let show_seed = match audience {
        None => true,
        Some(p) => p == 0,
    };
    seq![tag] + secret_ser(v.secrets.0, 0, audience) + secret_ser(v.secrets.1, 1, audience)
        + codec::u32_le(crate::root_proof::root_ser::<StoreState<G>>(v.proof.root).len() as u32)
        + crate::root_proof::root_ser::<StoreState<G>>(v.proof.root) + codec::u32_le(
        crate::proofs::proof_ser::<StoreState<G>>(v.proof).len() as u32,
    ) + crate::proofs::proof_ser::<StoreState<G>>(v.proof) + (match v.seed {
        Some(sd) => if show_seed {
            seq![1u8] + sd
        } else {
            seq![0u8]
        },
        None => seq![0u8],
    })
}

/// The store: a participant's replica of the match.
///
/// It holds the rolling proof, the participant's identity and secrets, a
/// stashed randomness commitment seed, and the event counter that keeps
/// every domain event from being delivered twice.  The host's callbacks
/// and entropy source stay outside: entropy comes in as a generator, and
/// produced diffs and events travel back in return values.
pub struct Store<G: State> {
    pub(crate) player: Option<Player>,
    pub(crate) proof: crate::proofs::Proof<StoreState<G>>,
    pub(crate) p2p: bool,
    pub(crate) secrets: Secrets<G>,
    pub(crate) seed: Option<Vec<u8>>,
    pub(crate) logger_count: u32,
    pub(crate) signer: crate::crypto::Signer,
}

/// What a flush produced: the diff to ship to the peer, if any; the events
/// the applied actions emitted, in order; and whether the machine is
/// quiescent.
pub struct FlushOutcome<G: State> {
    pub diff: Option<crate::Diff<StoreAction<G::Action>>>,
    pub events: Vec<(u32, G::Event)>,
    pub ready: bool,
}

/// The abstract model of a store.
pub struct StoreV<GV, CV> {
    pub player: Option<Player>,
    pub proof: crate::proofs::ProofV<StoreStateV<GV, CV>>,
    pub p2p: bool,
    pub secrets: (Option<(Seq<u8>, Seq<u8>)>, Option<(Seq<u8>, Seq<u8>)>),
    pub seed: Option<Seq<u8>>,
    pub logger_count: u32,
    pub signer: Seq<u8>,
}

/// The live replayed machine of a store model.
pub open spec fn live<GV, CV>(v: StoreV<GV, CV>) -> StoreStateV<GV, CV> {
    v.proof.state.state
}

impl<G: State> View for Store<G> {
    type V = StoreV<G::V, G::CV>;

    open(crate) spec fn view(&self) -> StoreV<G::V, G::CV> {
        StoreV {
            player: self.player,
            proof: self.proof@,
            p2p: self.p2p,
            secrets: secrets_model(&self.secrets),
            seed: match self.seed {
                Some(b) => Some(b@),
                None => None,
            },
            logger_count: self.logger_count,
            signer: self.signer.addr(),
        }
    }
}

impl<G: State> Store<G> {
    /// Whether the store is well formed.
    pub closed spec fn wf(&self) -> bool {
        &&& self.proof.wf()
        &&& secrets_wf(&self.secrets)
        &&& self.signer.wf()
        &&& (self.player matches Some(p) ==> p < 2)
    }

    /// The model of the store's rolling proof.
    pub open spec fn proof_model(&self) -> crate::proofs::ProofV<StoreStateV<G::V, G::CV>> {
        self@.proof
    }

    /// Opens a store over a serialized root proof, attaching the local
    /// participant's identity and secrets.
    pub fn new(
        player: Option<Player>,
        root: &[u8],
        secrets: Secrets<G>,
        p2p: bool,
        signer: crate::crypto::Signer,
    ) -> (r: Result<Store<G>, Error>)
        requires
            secrets_wf(&secrets),
            signer.wf(),
        ensures
            match r {
                Ok(s) => ({
                    &&& s.wf()
                    &&& crate::root_proof::root_de::<StoreState<G>>(root@) matches Some(rv)
                    &&& s@.proof.root == rv
                    &&& s@.proof.actions == rv.actions
                    &&& s@.proof.state == rv.latest
                    &&& s@.proof.proofs[0] matches Some(p) && p.start == 0 && p.end
                        == rv.actions.len() && p.state == rv.state
                    &&& s@.proof.proofs[1] is None && s@.proof.proofs[2] is None
                    &&& s@.proof.hash == crate::crypto::keccak_of(
                        crate::proofs::proof_ser::<StoreState<G>>(s@.proof),
                    )
                    &&& s@.player == player
                    &&& s@.p2p == p2p
                    &&& s@.secrets == secrets_model(&secrets)
                    &&& s@.seed is None
                    &&& s@.logger_count == 0
                    &&& s@.signer == signer.addr()
                }),
                Err(e) => e == Error::Hard && (crate::root_proof::root_de::<StoreState<G>>(root@)
                    is None || (player matches Some(p) && p >= 2)),
            },
    {
        if let Some(p) = player {
            if p >= 2 {
                return Err(Error::Hard);
            }
        }

        let rp = crate::RootProof::<StoreState<G>>::deserialize(root)?;

        let proof = crate::proofs::Proof::new(rp);

        Ok(Store { player, proof, p2p, secrets, seed: None, logger_count: 0, signer })
    }

    /// The participant this store acts for.
    pub fn player(&self) -> (r: Option<Player>)
        ensures
            r == self@.player,
            self.wf() ==> (r matches Some(p) ==> p < 2),
    {
        self.player
    }

    /// The hash of the store's proof.
    pub fn hash(&self) -> (r: &Vec<u8>)
        ensures
            r@ == self.proof_model().hash,
    {
        self.proof.hash()
    }

    /// The live replayed state of the store's proof.
    pub fn state(&self) -> (r: &crate::ProofState<StoreState<G>>)
        ensures
            r@ == self.proof_model().state,
            self.wf() ==> r.wf(),
    {
        self.proof.state()
    }

    /// The address of the match's owner.
    pub fn owner(&self) -> (r: &Vec<u8>)
        ensures
            r@ == self.proof_model().root.author,
    {
        self.proof.root.author()
    }

    /// The action the scheduler owes next, exactly as `flush_step` says:
    /// `Ok(Some(a))` emits it (drawing entropy and stashing a commitment
    /// preimage as the step demands), `Ok(None)` is quiescence, `Err` a
    /// refused obligation.
    #[verifier::rlimit(100)]
    fn decide(&mut self, st: &StoreState<G>, entropy: &mut Prng, check_sender: bool) -> (r:
        Result<Option<StoreAction<G::Action>>, Error>)
        requires
            old(self).wf(),
            st.wf(),
        ensures
            final(self).wf(),
            final(self)@ == (StoreV { seed: final(self)@.seed, ..old(self)@ }),
            match r {
                Ok(Some(a)) => a.wf() && flush_step::<G>(
                    st.model(),
                    old(self)@.player,
                    old(self)@.p2p,
                    check_sender,
                    old(self)@.secrets,
                    old(self)@.seed,
                    old(entropy)@,
                ) == (FlushStep::Emit {
                    action: sa_model(&a),
                    seed: final(self)@.seed,
                    entropy: final(entropy)@,
                }),
                Ok(None) => flush_step::<G>(
                    st.model(),
                    old(self)@.player,
                    old(self)@.p2p,
                    check_sender,
                    old(self)@.secrets,
                    old(self)@.seed,
                    old(entropy)@,
                ) is Stop && final(self)@.seed == old(self)@.seed && final(entropy)@ == old(
                    entropy,
                )@,
                Err(e) => flush_step::<G>(
                    st.model(),
                    old(self)@.player,
                    old(self)@.p2p,
                    check_sender,
                    old(self)@.secrets,
                    old(self)@.seed,
                    old(entropy)@,
                ) == FlushStep::Fail(e),
            },
    {
        match st {
            StoreState::Pending { cont, phase, .. } => match phase {
                Phase::RandomCommit => {
                    if self.player_is(0) {
                        let seed = entropy.draw_seed();
                        let digest = crate::crypto::keccak256(seed.as_slice());
                        self.seed = Some(seed);
                        Ok(Some(StoreAction::RandomCommit(digest)))
                    } else {
                        Ok(None)
                    }
                },
                Phase::RandomReply { .. } => {
                    if self.player_is(1) {
                        let seed = entropy.draw_seed();
                        Ok(Some(StoreAction::RandomReply(seed)))
                    } else {
                        Ok(None)
                    }
                },
                Phase::RandomReveal { hash, owner_hash, .. } => {
                    let expected = if *owner_hash {
                        self.player_is_owner()
                    } else {
                        self.player_is(0)
                    };

                    if expected {
                        match &self.seed {
                            Some(seed) => {
                                let digest = crate::crypto::keccak256(seed.as_slice());

                                if !codec::bytes_eq(digest.as_slice(), hash.as_slice()) {
                                    return Err(Error::Hard);
                                }

                                Ok(Some(StoreAction::RandomReveal(codec::dup_bytes(seed))))
                            },
                            None => Err(Error::Hard),
                        }
                    } else {
                        Ok(None)
                    }
                },
                Phase::Reveal { player: rv, .. } => {
                    let may_send = !check_sender || (self.player_is_owner() && !self.p2p) || (
                    self.player_is(*rv) && self.p2p);

                    if may_send && *rv < 2 {
                        let holder = if *rv == 0 {
                            &self.secrets.s0
                        } else {
                            &self.secrets.s1
                        };

                        match holder {
                            Some((sec_ref, _)) => {
                                let data = G::extract(cont, sec_ref);

                                if !G::check_reveal(cont, data.as_slice()) {
                                    return Err(Error::Hard);
                                }

                                Ok(Some(StoreAction::Reveal(data)))
                            },
                            None => Ok(None),
                        }
                    } else {
                        Ok(None)
                    }
                },
                Phase::Idle { .. } => Ok(None),
            },
            StoreState::Ready { .. } => Ok(None),
        }
    }

    /// The actions the local participant owes the machine: the scheduler of
    /// the commit-reveal and reveal sub-protocols, computed exactly as
    /// `flush_sched` says, with a budget of 64 steps.  Entropy for seeds is
    /// drawn from the given generator, and a drawn commitment preimage is
    /// stashed for the later reveal.  With `check_sender` off, reveals are
    /// produced whenever the secret is at hand, which lets the owner
    /// simulate an absent player.
    #[verifier::rlimit(100)]
    pub fn flush_actions(&mut self, entropy: &mut Prng, check_sender: bool) -> (r: Result<
        Vec<StoreAction<G::Action>>,
        Error,
    >)
        requires
            old(self).wf(),
        ensures
            final(self).wf(),
            final(self)@ == (StoreV { seed: final(self)@.seed, ..old(self)@ }),
            match r {
                Ok(v) => ({
                    &&& (flush_sched::<G>(
                        live(old(self)@),
                        old(self)@.player,
                        old(self)@.p2p,
                        check_sender,
                        old(self)@.secrets,
                        old(self)@.seed,
                        old(entropy)@,
                        64,
                    ) matches Ok(run) && run.0 == sa_models(v@) && final(self)@.seed == run.1.1
                        && final(entropy)@ == run.1.2)
                    &&& forall|i: int| 0 <= i < v@.len() ==> (#[trigger] v@[i]).wf()
                }),
                Err(e) => flush_sched::<G>(
                    live(old(self)@),
                    old(self)@.player,
                    old(self)@.p2p,
                    check_sender,
                    old(self)@.secrets,
                    old(self)@.seed,
                    old(entropy)@,
                    64,
                ) == Err::<
                    (Seq<StoreActionV>, (StoreStateV<G::V, G::CV>, Option<Seq<u8>>, Seq<u8>)),
                    Error,
                >(e),
            },
    {
        let ghost m0 = live(old(self)@);
        let ghost pl = old(self)@.player;
        let ghost pp = old(self)@.p2p;
        let ghost sec = old(self)@.secrets;
        let ghost seed0 = old(self)@.seed;
        let ghost e0 = old(entropy)@;

        let shadow = self.proof.compute_state();
        let mut st: StoreState<G> = shadow.into_state();
        let mut out: Vec<StoreAction<G::Action>> = Vec::new();

        proof {
            assert(sa_models(out@) =~= Seq::<StoreActionV>::empty());
        }

        let mut fuel: usize = 64;

        #[verifier::loop_isolation(false)]
        while fuel > 0
            invariant
                self.wf(),
                st.wf(),
                self@ == (StoreV { seed: self@.seed, ..old(self)@ }),
                forall|i: int| 0 <= i < out@.len() ==> (#[trigger] out@[i]).wf(),
                out@.len() + fuel == 64,
                flush_sched::<G>(m0, pl, pp, check_sender, sec, seed0, e0, 64) == (
                match flush_sched::<G>(
                    st.model(),
                    pl,
                    pp,
                    check_sender,
                    sec,
                    self@.seed,
                    entropy@,
                    fuel as nat,
                ) {
                    Ok(run) => Ok::<_, Error>((sa_models(out@) + run.0, run.1)),
                    Err(e) => Err(e),
                }),
            decreases fuel,
        {
            let ghost mcur = st.model();

            let action = match self.decide(&st, entropy, check_sender) {
                Ok(a) => a,
                Err(e) => {
                    return Err(e);
                },
            };

            match action {
                Some(a) => {
                    proof {
                        lemma_sa_parse_ser::<G::Action>(&a);
                        assert(self@.player == pl);
                        assert(sav_ser(sa_model(&a)) == a.ser());
                    }

                    match st.apply(self.player, &a) {
                        Ok(_) => {},
                        Err(e) => {
                            return Err(e);
                        },
                    }

                    let ghost prev = out@;

                    out.push(a);

                    fuel = fuel - 1;

                    proof {
                        assert(sa_models(out@) =~= sa_models(prev).push(sa_model(&a)));
                        match flush_sched::<G>(
                            st.model(),
                            pl,
                            pp,
                            check_sender,
                            sec,
                            self@.seed,
                            entropy@,
                            fuel as nat,
                        ) {
                            Ok(run) => {
                                assert(sa_models(prev) + (seq![sa_model(&a)] + run.0)
                                    =~= sa_models(out@) + run.0);
                            },
                            Err(_) => {},
                        }
                    }
                },
                None => {
                    proof {
                        assert(sa_models(out@) + Seq::<StoreActionV>::empty() =~= sa_models(
                            out@,
                        ));
                    }
                    return Ok(out);
                },
            }
        }

        // The budget is spent: succeed only if the machine is quiescent.
        let last = match self.decide(&st, entropy, check_sender) {
            Ok(a) => a,
            Err(e) => {
                return Err(e);
            },
        };

        match last {
            None => {
                proof {
                    assert(sa_models(out@) + Seq::<StoreActionV>::empty() =~= sa_models(out@));
                }
                Ok(out)
            },
            Some(a) => {
                proof {
                    lemma_sa_parse_ser::<G::Action>(&a);
                    assert(self@.player == pl);
                    assert(sav_ser(sa_model(&a)) == a.ser());
                }

                match st.apply(self.player, &a) {
                    Ok(_) => Err(Error::Hard),
                    Err(e) => Err(e),
                }
            },
        }
    }

    /// Whether the local participant is the given player.    /// Whether the local participant is the given player.    /// Whether the local participant is the given player.
    fn player_is(&self, p: Player) -> (r: bool)
        ensures
            r == (self.player == Some(p)),
    {
        match self.player {
            Some(q) => q == p,
            None => false,
        }
    }

    /// Whether the local participant is the owner.
    fn player_is_owner(&self) -> (r: bool)
        ensures
            r == (self.player is None),
    {
        match self.player {
            Some(_) => false,
            None => true,
        }
    }

    /// Wraps a store action for the local participant into a log entry.
    fn mk_play(&self, a: StoreAction<G::Action>) -> (r: Result<
        crate::ProofAction<StoreAction<G::Action>>,
        Error,
    >)
        requires
            self.wf(),
            a.wf(),
        ensures
            match r {
                Ok(pa) => pa.wf() && pa@ == (crate::action::ProofActionV {
                    player: self@.player,
                    action: crate::action::PlayerActionV::Play(sav_ser(sa_model(&a))),
                }),
                Err(e) => e == Error::Hard && sav_ser(sa_model(&a)).len() > u32::MAX - 2,
            },
    {
        proof {
            assert(sav_ser(sa_model(&a)) == a.ser());
        }

        let body = a.serialize();

        if body.len() > u32::MAX as usize - 2 {
            return Err(Error::Hard);
        }

        let pa = crate::ProofAction { player: self.player, action: crate::PlayerAction::Play(a) };

        proof {
            pa.action.arrow_Play_0().lemma_valid_ser();
            assert(crate::action::pa_ser(pa@).len() == 2 + body@.len());
        }

        Ok(pa)
    }

    /// Whether the machine is quiescent.
    fn is_ready(&self) -> (r: bool)
        ensures
            r == (self.proof_model().state.state is Ready),
    {
        match self.proof.state().state().state() {
            Some(_) => true,
            None => false,
        }
    }

    /// Produces the owed actions as one diff, applies it locally, and
    /// hands it back to ship to the peer.  With nothing owed, reports
    /// whether the machine is quiescent, clearing the commitment stash when
    /// it is.
    #[verifier::rlimit(100)]
    pub fn flush(&mut self, entropy: &mut Prng) -> (r: Result<FlushOutcome<G>, Error>)
        requires
            old(self).wf(),
        ensures
            final(self).wf(),
            final(self)@.player == old(self)@.player,
            final(self)@.p2p == old(self)@.p2p,
            final(self)@.secrets == old(self)@.secrets,
            final(self)@.signer == old(self)@.signer,
            match r {
                Ok(out) => ({
                    &&& match out.diff {
                        Some(d) => (flush_sched::<G>(
                            live(old(self)@),
                            old(self)@.player,
                            old(self)@.p2p,
                            true,
                            old(self)@.secrets,
                            old(self)@.seed,
                            old(entropy)@,
                            64,
                        ) matches Ok(run) && run.0.len() > 0 && d.wf() && d@.actions
                            == play_wrap(old(self)@.player, run.0)
                            && crate::proofs::proof_apply::<StoreState<G>>(
                            old(self)@.proof,
                            d@,
                        ) == Ok::<_, Error>(final(self)@.proof) && d@.author == old(
                            self,
                        )@.signer && d@.proof == old(self)@.proof.hash && final(entropy)@
                            == run.1.2 && (!out.ready ==> final(self)@.seed == run.1.1)),
                        None => final(self)@.proof == old(self)@.proof && (flush_sched::<G>(
                            live(old(self)@),
                            old(self)@.player,
                            old(self)@.p2p,
                            true,
                            old(self)@.secrets,
                            old(self)@.seed,
                            old(entropy)@,
                            64,
                        ) matches Ok(run) && run.0.len() == 0),
                    }
                    &&& out.ready == (live(final(self)@) is Ready)
                    &&& (out.ready ==> final(self)@.seed is None)
                    &&& forall|i: int|
                        0 <= i < out.events@.len() ==> (#[trigger] out.events@[i]).0 > old(
                            self,
                        )@.logger_count && out.events@[i].0 <= final(self)@.logger_count
                    &&& final(self)@.logger_count >= old(self)@.logger_count
                }),
                Err(e) => final(self)@.proof == old(self)@.proof && (flush_sched::<G>(
                    live(old(self)@),
                    old(self)@.player,
                    old(self)@.p2p,
                    true,
                    old(self)@.secrets,
                    old(self)@.seed,
                    old(entropy)@,
                    64,
                ) is Err || (flush_sched::<G>(
                    live(old(self)@),
                    old(self)@.player,
                    old(self)@.p2p,
                    true,
                    old(self)@.secrets,
                    old(self)@.seed,
                    old(entropy)@,
                    64,
                ) matches Ok(run) && (crate::proofs::proof_diff::<StoreState<G>>(
                    old(self)@.proof,
                    play_wrap(old(self)@.player, run.0),
                    old(self)@.signer,
                ) is Err || (exists|k: int|
                    0 <= k < run.0.len() && sav_ser(#[trigger] run.0[k]).len() > u32::MAX
                        - 2) || (crate::proofs::proof_diff::<StoreState<G>>(
                    old(self)@.proof,
                    play_wrap(old(self)@.player, run.0),
                    old(self)@.signer,
                ) matches Ok(dv) && crate::proofs::proof_apply::<StoreState<G>>(
                    old(self)@.proof,
                    dv,
                ) is Err)))),
            },
    {
        let ghost v0 = old(self)@;
        let ghost e0 = old(entropy)@;

        let mut actions = self.flush_actions(entropy, true)?;

        let ghost owed = sa_models(actions@);

        if actions.len() > 0 {
            let mut pas: Vec<crate::ProofAction<StoreAction<G::Action>>> = Vec::new();

            proof {
                assert(crate::action::pa_views(pas@) =~= play_wrap(v0.player, owed.take(0)));
            }

            #[verifier::loop_isolation(false)]
            while actions.len() > 0
                invariant
                    forall|i: int| 0 <= i < actions@.len() ==> (#[trigger] actions@[i]).wf(),
                    crate::action::pa_all_wf(pas@),
                    pas@.len() + actions@.len() == owed.len(),
                    crate::action::pa_views(pas@) == play_wrap(
                        v0.player,
                        owed.take(pas@.len() as int),
                    ),
                    sa_models(actions@) == owed.skip(pas@.len() as int),
                decreases actions@.len(),
            {
                let ghost k = pas@.len() as int;

                let a = actions.remove(0);

                proof {
                    assert(sa_models(actions@) =~= owed.skip(k).skip(1));
                    assert(owed.skip(k).skip(1) =~= owed.skip(k + 1));
                    assert(sa_model(&a) == owed.skip(k)[0]);
                }

                let pa = match self.mk_play(a) {
                    Ok(pa) => pa,
                    Err(_) => {
                        proof {
                            assert(sav_ser(owed[k]).len() > u32::MAX - 2);
                        }
                        return Err(Error::Hard);
                    },
                };

                let ghost prev = pas@;

                pas.push(pa);

                proof {
                    assert(self@.player == v0.player);
                    assert(pa@ == (crate::action::ProofActionV {
                        player: v0.player,
                        action: crate::action::PlayerActionV::Play(sav_ser(owed[k])),
                    }));
                    assert(owed.take(k + 1)[k] == owed[k]);
                    assert forall|j: int| 0 <= j < k + 1 implies crate::action::pa_views(
                        pas@,
                    )[j] == play_wrap(v0.player, owed.take(k + 1))[j] by {
                        if j < k {
                            assert(pas@[j] == prev[j]);
                            assert(crate::action::pa_views(prev)[j] == play_wrap(
                                v0.player,
                                owed.take(k),
                            )[j]);
                            assert(owed.take(k + 1)[j] == owed.take(k)[j]);
                        } else {
                            assert(pas@[j] == pa);
                        }
                    }
                    assert(crate::action::pa_views(pas@) =~= play_wrap(v0.player, owed.take(
                        k + 1,
                    )));
                }
            }

            proof {
                assert(owed.take(owed.len() as int) =~= owed);
                assert(crate::action::pa_views(pas@) == play_wrap(v0.player, owed));
            }

            let d = self.proof.diff(pas, &self.signer)?;

            let events = self.proof.apply(&d)?;

            let ghost raw = events@;
            let ghost mark = self@.logger_count;

            let events = self.filter_events(events);

            proof {
                lemma_events_filter::<G::Event>(raw, mark);
            }

            let ready = self.is_ready();

            if ready {
                self.seed = None;
            }

            Ok(FlushOutcome { diff: Some(d), events, ready })
        } else {
            proof {
                assert(owed =~= Seq::<StoreActionV>::empty());
            }

            let ready = self.is_ready();

            if ready {
                self.seed = None;
            }

            Ok(FlushOutcome { diff: None, events: Vec::new(), ready })
        }
    }

    /// Verifies and applies a peer's diff, then flushes whatever the local    /// Verifies and applies a peer's diff, then flushes whatever the local
    /// participant now owes.
    #[verifier::rlimit(100)]
    pub fn apply(&mut self, diff: &crate::Diff<StoreAction<G::Action>>, entropy: &mut Prng) -> (r:
        Result<FlushOutcome<G>, Error>)
        requires
            old(self).wf(),
            diff.wf(),
        ensures
            final(self).wf(),
            final(self)@.player == old(self)@.player,
            final(self)@.p2p == old(self)@.p2p,
            final(self)@.secrets == old(self)@.secrets,
            final(self)@.signer == old(self)@.signer,
            match r {
                Ok(out) => ({
                    &&& (crate::proofs::proof_apply::<StoreState<G>>(old(self)@.proof, diff@)
                        matches Ok(mid) && (match out.diff {
                        Some(d) => d.wf() && crate::proofs::proof_apply::<StoreState<G>>(mid, d@)
                            == Ok::<_, Error>(final(self)@.proof) && d@.author == old(
                            self,
                        )@.signer && d@.proof == mid.hash,
                        None => final(self)@.proof == mid,
                    }))
                    &&& out.ready == (live(final(self)@) is Ready)
                    &&& (out.ready ==> final(self)@.seed is None)
                    &&& forall|i: int|
                        0 <= i < out.events@.len() ==> (#[trigger] out.events@[i]).0 > old(
                            self,
                        )@.logger_count
                    &&& final(self)@.logger_count >= old(self)@.logger_count
                }),
                Err(e) => (final(self)@ == old(self)@ && crate::proofs::proof_apply::<
                    StoreState<G>,
                >(old(self)@.proof, diff@) == Err::<
                    crate::proofs::ProofV<StoreStateV<G::V, G::CV>>,
                    Error,
                >(e)) || (crate::proofs::proof_apply::<StoreState<G>>(old(self)@.proof, diff@)
                    matches Ok(mid) && final(self)@.proof == mid),
            },
    {
        let events = self.proof.apply(diff)?;

        let ghost raw = events@;
        let ghost mark = self@.logger_count;

        let mut events = self.filter_events(events);

        proof {
            lemma_events_filter::<G::Event>(raw, mark);
        }

        let ghost mid_count = self@.logger_count;

        let out = self.flush(entropy)?;

        let mut more = out.events;

        events.append(&mut more);

        proof {
            assert(forall|i: int|
                0 <= i < events@.len() ==> (#[trigger] events@[i]).0 > old(self)@.logger_count);
        }

        Ok(FlushOutcome { diff: out.diff, events, ready: out.ready })
    }

    /// Produces a diff over the given log entries, signed by the local
    /// participant.
    pub fn diff(&self, actions: Vec<crate::ProofAction<StoreAction<G::Action>>>) -> (r: Result<
        crate::Diff<StoreAction<G::Action>>,
        Error,
    >)
        requires
            self.wf(),
            crate::action::pa_all_wf(actions@),
        ensures
            match r {
                Ok(d) => d.wf() && crate::proofs::proof_diff::<StoreState<G>>(
                    self.proof_model(),
                    crate::action::pa_views(actions@),
                    self.signer_addr(),
                ) == Ok::<crate::diff::DiffV, Error>(d@),
                Err(e) => crate::proofs::proof_diff::<StoreState<G>>(
                    self.proof_model(),
                    crate::action::pa_views(actions@),
                    self.signer_addr(),
                ) == Err::<crate::diff::DiffV, Error>(e),
            },
    {
        self.proof.diff(actions, &self.signer)
    }

    /// The local participant's signing address.
    pub closed spec fn signer_addr(&self) -> Seq<u8> {
        self.signer.addr()
    }

    /// Continues a stalled commit-reveal sequence on behalf of an absent
    /// player.  Only the owner may call this; the injected step carries the
    /// owner's attribution, and the machine excuses its hash check only on
    /// the owner's own commitment.
    #[verifier::rlimit(100)]
    pub fn dispatch_timeout(&mut self, entropy: &mut Prng) -> (r: Result<FlushOutcome<G>, Error>)
        requires
            old(self).wf(),
        ensures
            final(self).wf(),
            final(self)@.player == old(self)@.player,
            final(self)@.p2p == old(self)@.p2p,
            final(self)@.secrets == old(self)@.secrets,
            final(self)@.signer == old(self)@.signer,
            old(self)@.player is Some ==> r == Err::<FlushOutcome<G>, Error>(Error::Hard)
                && final(self)@ == old(self)@ && final(entropy)@ == old(entropy)@,
            old(self)@.player is None ==> match r {
                Ok(out) => ({
                    match timeout_step::<G>(live(old(self)@), old(self)@.seed, old(entropy)@) {
                        Some(step) => (out.diff matches Some(d) && d.wf() && d@.actions == seq![
                            (crate::action::ProofActionV {
                                player: None,
                                action: crate::action::PlayerActionV::Play(sav_ser(step.0)),
                            }),
                        ] && crate::proofs::proof_apply::<StoreState<G>>(old(self)@.proof, d@)
                            == Ok::<_, Error>(final(self)@.proof) && d@.author
                            == old(self)@.signer && final(self)@.seed == step.1 && final(entropy)@
                            == step.2 && out.ready == (live(final(self)@) is Ready)),
                        None => out.diff is None && final(self)@.proof == old(self)@.proof
                            && out.ready == (live(final(self)@) is Ready) && (out.ready
                            ==> final(self)@.seed is None),
                    }
                }),
                Err(e) => final(self)@.proof == old(self)@.proof && (timeout_step::<G>(
                    live(old(self)@),
                    old(self)@.seed,
                    old(entropy)@,
                ) matches Some(step) && (sav_ser(step.0).len() > u32::MAX - 2
                    || crate::proofs::proof_diff::<StoreState<G>>(
                    old(self)@.proof,
                    play_wrap(None, seq![step.0]),
                    old(self)@.signer,
                ) is Err || (crate::proofs::proof_diff::<StoreState<G>>(
                    old(self)@.proof,
                    play_wrap(None, seq![step.0]),
                    old(self)@.signer,
                ) matches Ok(dv) && crate::proofs::proof_apply::<StoreState<G>>(
                    old(self)@.proof,
                    dv,
                ) is Err))),
            },
    {
        if let Some(_) = self.player {
            return Err(Error::Hard);
        }

        let ghost v0 = old(self)@;
        let ghost e0 = old(entropy)@;

        let action: Option<StoreAction<G::Action>> = match self.proof.state().state().phase() {
            Some(phase) => match phase {
                Phase::RandomCommit => {
                    let seed = entropy.draw_seed();
                    let digest = crate::crypto::keccak256(seed.as_slice());
                    self.seed = Some(seed);
                    Some(StoreAction::RandomCommit(digest))
                },
                Phase::RandomReply { .. } => Some(StoreAction::RandomReply(entropy.draw_seed())),
                Phase::RandomReveal { owner_hash, .. } => {
                    if !*owner_hash {
                        Some(StoreAction::RandomReveal(entropy.draw_seed()))
                    } else {
                        None
                    }
                },
                _ => None,
            },
            None => None,
        };

        match action {
            Some(a) => {
                proof {
                    assert(timeout_step::<G>(live(v0), v0.seed, e0) matches Some(step) && step.0
                        == sa_model(&a) && step.1 == self@.seed && step.2 == entropy@);
                    assert(play_wrap(None, seq![sa_model(&a)]) =~= seq![
                        (crate::action::ProofActionV {
                            player: None,
                            action: crate::action::PlayerActionV::Play(sav_ser(sa_model(&a))),
                        }),
                    ]);
                }

                let pa = self.mk_play(a)?;

                let mut pas: Vec<crate::ProofAction<StoreAction<G::Action>>> = Vec::new();
                pas.push(pa);

                proof {
                    assert(crate::action::pa_views(pas@) =~= seq![pa@]);
                }

                let d = self.proof.diff(pas, &self.signer)?;

                let events = self.proof.apply(&d)?;
                let events = self.filter_events(events);

                let ready = self.is_ready();

                Ok(FlushOutcome { diff: Some(d), events, ready })
            },
            None => {
                proof {
                    assert(timeout_step::<G>(live(v0), v0.seed, e0) is None);
                }

                let ready = self.is_ready();

                if ready {
                    self.seed = None;
                }

                Ok(FlushOutcome { diff: None, events: Vec::new(), ready })
            },
        }
    }

    /// The store's serialized form for an audience: the participant tag,
    /// both secret slots with the other player's redacted behind a false
    /// presence bit when a player is the audience, the root proof, the
    /// rolling proof, and the stashed commitment seed (visible to its
    /// committer and the owner alone).  A component too large to frame is
    /// refused.
    #[verifier::rlimit(100)]
    #[verifier::spinoff_prover]
    pub fn serialize(&self, audience: Option<Player>) -> (r: Result<Vec<u8>, Error>)
        requires
            self.wf(),
            audience matches Some(p) ==> p < 2,
        ensures
            match r {
                Ok(b) => b@ == store_ser::<G>(self@, audience),
                Err(e) => e == Error::Hard,
            },
    {
        let mut out: Vec<u8> = Vec::new();

        match self.player {
            None => match audience {
                None => codec::write_u8(&mut out, 0),
                Some(p) => codec::write_u8(&mut out, 1 + p),
            },
            Some(p) => codec::write_u8(&mut out, 1 + p),
        }

        self.write_secret(&mut out, 0, audience)?;
        self.write_secret(&mut out, 1, audience)?;

        let root = self.proof.root.serialize();
        codec::write_u32_usize(&mut out, root.len())?;
        codec::write_bytes(&mut out, root.as_slice());

        let body = self.proof.serialize();
        codec::write_u32_usize(&mut out, body.len())?;
        codec::write_bytes(&mut out, body.as_slice());

        let show_seed = match audience {
            None => true,
            Some(p) => p == 0,
        };

        match &self.seed {
            Some(seed) => {
                if show_seed {
                    codec::write_u8_bool(&mut out, true);
                    codec::write_bytes(&mut out, seed.as_slice());
                } else {
                    codec::write_u8_bool(&mut out, false);
                }
            },
            None => {
                codec::write_u8_bool(&mut out, false);
            },
        }

        proof {
            assert(out@ =~= store_ser::<G>(self@, audience));
        }

        Ok(out)
    }

    /// Writes one secret slot, redacted unless the audience may see it.
    #[verifier::rlimit(100)]
    fn write_secret(&self, out: &mut Vec<u8>, slot: u8, audience: Option<Player>) -> (r: Result<
        (),
        Error,
    >)
        requires
            self.wf(),
            slot < 2,
        ensures
            match r {
                Ok(_) => final(out)@ == old(out)@ + secret_ser(
                    (if slot == 0 {
                        self@.secrets.0
                    } else {
                        self@.secrets.1
                    }),
                    slot,
                    audience,
                ),
                Err(e) => e == Error::Hard,
            },
    {
        let visible = match audience {
            None => true,
            Some(p) => p == slot,
        };

        let holder = if slot == 0 {
            &self.secrets.s0
        } else {
            &self.secrets.s1
        };

        match holder {
            Some((sec, prng)) => {
                if visible {
                    codec::write_u8_bool(out, true);

                    let bytes = sec.serialize();
                    codec::write_u32_usize(out, bytes.len())?;
                    codec::write_bytes(out, bytes.as_slice());

                    let state = prng.to_bytes();
                    codec::write_u32_usize(out, state.len())?;
                    codec::write_bytes(out, state.as_slice());
                } else {
                    codec::write_u8_bool(out, false);
                }
            },
            None => {
                codec::write_u8_bool(out, false);
            },
        }

        proof {
            assert(final(out)@ =~= old(out)@ + secret_ser(
                (if slot == 0 {
                    self@.secrets.0
                } else {
                    self@.secrets.1
                }),
                slot,
                audience,
            ));
        }

        Ok(())
    }

    /// Overwrites the rolling proof from its serialized form, re-validating
    /// it against the root, then flushes the local obligations.
    #[verifier::rlimit(100)]
    #[verifier::spinoff_prover]
    pub fn reset(&mut self, proof_bytes: &[u8], entropy: &mut Prng) -> (r: Result<
        FlushOutcome<G>,
        Error,
    >)
        requires
            old(self).wf(),
        ensures
            final(self).wf(),
            final(self)@.player == old(self)@.player,
            final(self)@.p2p == old(self)@.p2p,
            final(self)@.secrets == old(self)@.secrets,
            final(self)@.signer == old(self)@.signer,
            match r {
                Ok(_) => crate::proofs::proof_de::<StoreState<G>>(
                    old(self)@.proof.root,
                    proof_bytes@,
                ) is Some,
                Err(e) => true,
            },
    {
        match self.proof.deserialize(proof_bytes) {
            Ok(_) => {},
            Err(_) => {
                return Err(Error::Hard);
            },
        }

        self.flush(entropy)
    }

    /// Keeps the events whose counter exceeds what was already delivered,
    /// and advances the delivery mark.  Replayed transitions re-emit events
    /// under counters at or below the mark, so each event reaches the host
    /// once.
    fn filter_events(&mut self, events: Vec<(u32, G::Event)>) -> (r: Vec<(u32, G::Event)>)
        requires
            old(self).wf(),
        ensures
            final(self).wf(),
            final(self)@ == (StoreV { logger_count: final(self)@.logger_count, ..old(self)@ }),
            r@ == events_filter(events@, old(self)@.logger_count).0,
            final(self)@.logger_count == events_filter(events@, old(self)@.logger_count).1,
    {
        let ghost ev0 = events@;
        let ghost mark0 = self@.logger_count;

        let mut events = events;
        let mut out: Vec<(u32, G::Event)> = Vec::new();

        proof {
            assert(out@ + events_filter(events@, self@.logger_count).0 =~= events_filter(
                ev0,
                mark0,
            ).0);
        }

        #[verifier::loop_isolation(false)]
        while events.len() > 0
            invariant
                self.wf(),
                self@ == (StoreV { logger_count: self@.logger_count, ..old(self)@ }),
                out@ + events_filter(events@, self@.logger_count).0 == events_filter(
                    ev0,
                    mark0,
                ).0,
                events_filter(events@, self@.logger_count).1 == events_filter(ev0, mark0).1,
            decreases events@.len(),
        {
            let ghost evs = events@;
            let ghost mark = self@.logger_count;

            let e = events.remove(0);

            proof {
                assert(evs[0] == e);
                assert(evs.skip(1) =~= events@);
            }

            if e.0 > self.logger_count {
                self.logger_count = e.0;
                out.push(e);

                proof {
                    assert(out@ + events_filter(events@, self@.logger_count).0 =~= out@.drop_last()
                        + (seq![e] + events_filter(events@, self@.logger_count).0));
                }
            }
        }

        proof {
            assert(events_filter(events@, self@.logger_count).0 =~= Seq::<(u32, G::Event)>::empty());
            assert(out@ =~= out@ + events_filter(events@, self@.logger_count).0);
        }

        out
    }
}

/// The byte-wise exclusive or of two strings, over their common length.
fn xor_exec(a: &[u8], b: &[u8]) -> (r: Vec<u8>)
    ensures
        r@ == xor_bytes(a@, b@),
{
    let n = if a.len() <= b.len() {
        a.len()
    } else {
        b.len()
    };

    let mut out: Vec<u8> = Vec::new();
    let mut i: usize = 0;

    while i < n
        invariant
            i <= n,
            n <= a@.len(),
            n <= b@.len(),
            n == xor_bytes(a@, b@).len(),
            out@ == xor_bytes(a@, b@).take(i as int),
        decreases n - i,
    {
        out.push(a[i] ^ b[i]);
        i = i + 1;

        proof {
            assert(out@ =~= xor_bytes(a@, b@).take(i as int));
        }
    }

    proof {
        assert(xor_bytes(a@, b@).take(n as int) =~= xor_bytes(a@, b@));
    }

    out
}

} // verus!
