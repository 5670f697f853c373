//! The initial signed state of a match plus a tail of pre-applied actions:
//! the canonical identity of the match.
//!
//! Wire format: the length-prefixed base state, the framed action tail, and
//! the owner's 65-byte signature over the base state's bytes followed by the
//! unframed action encodings.  Every tail action must leave the replayed
//! state outside the serializable region, so the tail compacts to a single
//! checkpoint.

use vstd::prelude::*;
use crate::{Action, Error, State};
use crate::action::{
    actions_de, flat_ser, framed_ser, pa_all_wf, pa_views, pa_wf, ProofAction, ProofActionV,
    write_actions_flat, write_actions_framed,
};
use crate::codec;
use crate::crypto;
use crate::crypto::{keccak_of, recover_of, Signer};
use crate::proof_state::{
    last_checkpoint, lemma_last_checkpoint_max, lemma_ps_replay_concat, lemma_ps_replay_prefix,
    lemma_ps_replay_snoc, ps_de, ps_replay, ps_ser, ps_serializable, ps_wf, ProofState,
    ProofStateV,
};

verus! {

/// The abstract model of a `RootProof`.
pub struct RootProofV<SV> {
    pub state: ProofStateV<SV>,
    pub actions: Seq<ProofActionV>,
    pub signature: Seq<u8>,
    pub hash: Seq<u8>,
    pub author: Seq<u8>,
    pub latest: ProofStateV<SV>,
}

/// The message the owner signs: the base state's bytes followed by the
/// unframed action encodings.
pub open spec fn root_message<S: State>(
    state: ProofStateV<S::V>,
    actions: Seq<ProofActionV>,
) -> Seq<u8> {
    ps_ser::<S>(state) + flat_ser(actions)
}

/// The wire encoding of a root proof.
pub open spec fn root_ser<S: State>(v: RootProofV<S::V>) -> Seq<u8> {
    codec::u32_le(ps_ser::<S>(v.state).len() as u32) + ps_ser::<S>(v.state) + codec::u32_le(
        v.actions.len() as u32,
    ) + framed_ser(v.actions) + v.signature
}

/// Whether every tail action replays successfully and leaves the state
/// outside the serializable region.
pub open spec fn root_tail_ok<S: State>(
    state: ProofStateV<S::V>,
    actions: Seq<ProofActionV>,
) -> bool {
    forall|k: int|
        1 <= k <= actions.len() ==> (#[trigger] ps_replay::<S>(
            state,
            actions.take(k),
        ) matches Some(w) && !ps_serializable::<S>(w))
}

/// Whether a root proof model is well formed.
pub open spec fn root_wf<S: State>(v: RootProofV<S::V>) -> bool {
    &&& ps_wf::<S>(v.state)
    &&& ps_serializable::<S>(v.state)
    &&& ps_ser::<S>(v.state).len() <= u32::MAX
    &&& v.actions.len() <= u32::MAX
    &&& forall|i: int| 0 <= i < v.actions.len() ==> pa_wf::<S::Action>(#[trigger] v.actions[i])
    &&& v.signature.len() == 65
    &&& ps_replay::<S>(v.state, v.actions) == Some(v.latest)
    &&& ps_wf::<S>(v.latest)
    &&& root_tail_ok::<S>(v.state, v.actions)
    &&& recover_of(root_message::<S>(v.state, v.actions), v.signature) == Some(v.author)
    &&& v.hash == keccak_of(root_ser::<S>(v))
}

/// The root proof a buffer decodes to, if any.
pub open spec fn root_de<S: State>(data: Seq<u8>) -> Option<RootProofV<S::V>> {
    if data.len() < 4 + 4 + 65 {
        None
    } else {
        let size = codec::le_u32(data.subrange(0, 4));
        if 4 + size > data.len() {
            None
        } else {
            match ps_de::<S>(data.subrange(4, 4 + size)) {
                Some(state) => if 4 + size + 4 <= data.len() {
                    let count = codec::le_u32(data.subrange(4 + size, 8 + size));
                    match actions_de::<S::Action>(data, 8 + size, count) {
                        Some((actions, end)) => if data.len() == end + 65 && root_tail_ok::<S>(
                            state,
                            actions,
                        ) {
                            match recover_of(
                                root_message::<S>(state, actions),
                                data.skip(end),
                            ) {
                                Some(author) => Some(
                                    RootProofV {
                                        state,
                                        actions,
                                        signature: data.skip(end),
                                        hash: keccak_of(data),
                                        author,
                                        latest: ps_replay::<S>(state, actions).unwrap(),
                                    },
                                ),
                                None => None,
                            }
                        } else {
                            None
                        },
                        None => None,
                    }
                } else {
                    None
                },
                None => None,
            }
        }
    }
}

/// The initial signed state of a match plus its action tail.
pub struct RootProof<S: State> {
    pub(crate) state: ProofState<S>,
    pub(crate) actions: Vec<ProofAction<S::Action>>,
    pub(crate) signature: Vec<u8>,
    pub(crate) hash: Vec<u8>,
    pub(crate) author: Vec<u8>,
    pub(crate) latest: ProofState<S>,
}

impl<S: State> View for RootProof<S> {
    type V = RootProofV<S::V>;

    open(crate) spec fn view(&self) -> RootProofV<S::V> {
        RootProofV {
            state: self.state@,
            actions: pa_views(self.actions@),
            signature: self.signature@,
            hash: self.hash@,
            author: self.author@,
            latest: self.latest@,
        }
    }
}

/// A parse that reached the tail checks but found them violated decodes to
/// nothing.
proof fn lemma_root_de_none_tail<S: State>(
    data: Seq<u8>,
    size: int,
    end: int,
    state: ProofStateV<S::V>,
    actions: Seq<ProofActionV>,
)
    requires
        data.len() >= 73,
        size == codec::le_u32(data.subrange(0, 4)),
        4 + size <= data.len(),
        ps_de::<S>(data.subrange(4, 4 + size)) == Some(state),
        4 + size + 4 <= data.len(),
        actions_de::<S::Action>(data, 8 + size, codec::le_u32(data.subrange(4 + size, 8 + size)))
            == Some((actions, end)),
        !(data.len() == end + 65) || !root_tail_ok::<S>(state, actions),
    ensures
        root_de::<S>(data) is None,
{
}

/// Rolls the actions into the state, tracking the replayed state and the
/// last checkpoint.
fn roll<S: State>(state: ProofState<S>, actions: &Vec<ProofAction<S::Action>>) -> (r: Result<
    (ProofState<S>, ProofState<S>, usize),
    Error,
>)
    requires
        state.wf(),
        ps_serializable::<S>(state@),
        pa_all_wf(actions@),
    ensures
        match r {
            Ok((latest, ck, start)) => ({
                let views = pa_views(actions@);
                &&& latest.wf()
                &&& ck.wf()
                &&& ps_serializable::<S>(ck@)
                &&& start <= actions@.len()
                &&& ps_replay::<S>(state@, views) == Some(latest@)
                &&& ps_replay::<S>(state@, views.take(start as int)) == Some(ck@)
                &&& start == last_checkpoint::<S>(state@, views)
            }),
            Err(e) => e == Error::Hard && ps_replay::<S>(state@, pa_views(actions@)) is None,
        },
{
    let ghost state0 = state@;
    let ghost views = pa_views(actions@);

    let mut latest = state.dup();
    let mut ck_state = state;
    let mut start: usize = 0;

    let n = actions.len();
    let mut i: usize = 0;

    proof {
        assert(views.take(0) =~= Seq::<ProofActionV>::empty());
    }

    #[verifier::loop_isolation(false)]
    while i < n
        invariant
            i <= n,
            start <= i,
            n == actions@.len(),
            views == pa_views(actions@),
            pa_all_wf(actions@),
            latest.wf(),
            ck_state.wf(),
            ps_serializable::<S>(ck_state@),
            ps_replay::<S>(state0, views.take(i as int)) == Some(latest@),
            ps_replay::<S>(state0, views.take(start as int)) == Some(ck_state@),
            last_checkpoint::<S>(state0, views.take(i as int)) == start,
        decreases n - i,
    {
        let applied = latest.apply(&actions[i]);

        proof {
            assert(views.take(i + 1).drop_last() =~= views.take(i as int));
            assert(views.take(i + 1) =~= views.take(i as int).push(views[i as int]));
            lemma_ps_replay_snoc::<S>(state0, views.take(i as int), views[i as int]);
        }

        match applied {
            Ok(_) => {},
            Err(_) => {
                proof {
                    assert(views.take(n as int) =~= views);
                    lemma_ps_replay_prefix_none::<S>(state0, views, i + 1);
                }
                return Err(Error::Hard);
            },
        }

        i = i + 1;

        if latest.is_serializable() {
            ck_state = latest.dup();
            start = i;
        }
    }

    proof {
        assert(views.take(n as int) =~= views);
    }

    Ok((latest, ck_state, start))
}

/// The tail after the last checkpoint replays from the checkpoint to the
/// same final state, and every interior position is unserializable.
proof fn lemma_tail_of_checkpoint<S: State>(
    state0: ProofStateV<S::V>,
    views: Seq<ProofActionV>,
    start: int,
    ck: ProofStateV<S::V>,
    latest: ProofStateV<S::V>,
)
    requires
        0 <= start <= views.len(),
        start == last_checkpoint::<S>(state0, views),
        ps_replay::<S>(state0, views) == Some(latest),
        ps_replay::<S>(state0, views.take(start)) == Some(ck),
    ensures
        ps_replay::<S>(ck, views.skip(start)) == Some(latest),
        root_tail_ok::<S>(ck, views.skip(start)),
{
    lemma_last_checkpoint_max::<S>(state0, views);

    lemma_ps_replay_concat::<S>(state0, views.take(start), views.skip(start));
    assert(views.take(start) + views.skip(start) =~= views);

    let tail = views.skip(start);

    assert forall|k: int| 1 <= k <= tail.len() implies (#[trigger] ps_replay::<S>(
        ck,
        tail.take(k),
    ) matches Some(w) && !ps_serializable::<S>(w)) by {
        assert(views.take(start + k) =~= views.take(start) + tail.take(k));
        lemma_ps_replay_concat::<S>(state0, views.take(start), tail.take(k));
        lemma_ps_replay_prefix::<S>(state0, views, start + k);
        assert(ps_replay::<S>(state0, views.take(start + k)) is Some);
        assert(!(ps_replay::<S>(state0, views.take(start + k)) matches Some(w)
            && ps_serializable::<S>(w)));
    }
}

impl<S: State> RootProof<S> {
    /// Whether the root proof is well formed.
    pub open(crate) spec fn wf(&self) -> bool {
        &&& self.state.wf()
        &&& self.latest.wf()
        &&& pa_all_wf(self.actions@)
        &&& root_wf::<S>(self@)
    }

    /// A well-formed root proof has a well-formed model.
    pub proof fn lemma_wf(&self)
        requires
            self.wf(),
        ensures
            root_wf::<S>(self@),
    {
    }

    /// Constructs a root proof.  The actions are rolled into the initial
    /// state; the last position at which the replayed state is a checkpoint
    /// becomes the base state, and only the actions after it are kept.  The
    /// signer becomes the match's owner.
    #[verifier::rlimit(100)]
    pub fn new(
        state: ProofState<S>,
        actions: Vec<ProofAction<S::Action>>,
        signer: &Signer,
    ) -> (r: Result<RootProof<S>, Error>)
        requires
            state.wf(),
            ps_serializable::<S>(state@),
            pa_all_wf(actions@),
            actions@.len() <= u32::MAX,
            signer.wf(),
        ensures
            match r {
                Ok(rp) => ({
                    let ck = last_checkpoint::<S>(state@, pa_views(actions@));
                    &&& rp.wf()
                    &&& ps_replay::<S>(state@, pa_views(actions@)) == Some(rp@.latest)
                    &&& ps_replay::<S>(state@, pa_views(actions@).take(ck)) == Some(rp@.state)
                    &&& rp@.actions == pa_views(actions@).skip(ck)
                    &&& rp@.signature == crypto::signature_of(
                        signer.addr(),
                        root_message::<S>(rp@.state, rp@.actions),
                    )
                    &&& rp@.author == signer.addr()
                }),
                Err(e) => e == Error::Hard && (ps_replay::<S>(state@, pa_views(actions@)) is None
                    || ps_ser::<S>(
                    ps_replay::<S>(
                        state@,
                        pa_views(actions@).take(last_checkpoint::<S>(state@, pa_views(actions@))),
                    ).unwrap(),
                ).len() > u32::MAX),
            },
    {
        let ghost state0 = state@;
        let ghost views = pa_views(actions@);

        let (latest, ck_state, start) = roll(state, &actions)?;

        let tail = dup_actions(&actions, start);

        proof {
            assert(pa_views(tail@) =~= views.skip(start as int));
            lemma_tail_of_checkpoint::<S>(state0, views, start as int, ck_state@, latest@);
        }

        let state_bytes = match ck_state.serialize() {
            Some(b) => b,
            None => {
                proof {
                    assert(false);
                }
                Vec::new()
            },
        };

        if state_bytes.len() > u32::MAX as usize {
            return Err(Error::Hard);
        }

        let mut message = codec::dup_bytes(&state_bytes);
        write_actions_flat(&mut message, &tail, 0);

        proof {
            assert(pa_views(tail@).subrange(0, tail@.len() as int) =~= pa_views(tail@));
            assert(message@ =~= root_message::<S>(ck_state@, pa_views(tail@)));
        }

        let signature = signer.sign(message.as_slice());
        let author = codec::dup_bytes(signer.address());

        let mut out: Vec<u8> = Vec::new();
        let wrote = codec::write_u32_usize(&mut out, state_bytes.len());

        proof {
            assert(wrote is Ok);
        }

        codec::write_bytes(&mut out, state_bytes.as_slice());

        let wrote2 = codec::write_u32_usize(&mut out, tail.len());

        proof {
            assert(wrote2 is Ok);
        }

        write_actions_framed(&mut out, &tail, 0);
        codec::write_bytes(&mut out, signature.as_slice());

        let hash = crypto::keccak256(out.as_slice());

        let rp = RootProof { state: ck_state, actions: tail, signature, hash, author, latest };

        proof {
            rp.state.lemma_wf();
            rp.latest.lemma_wf();

            assert(out@ =~= root_ser::<S>(rp@));

            assert forall|j: int| 0 <= j < rp@.actions.len() implies pa_wf::<S::Action>(
                #[trigger] rp@.actions[j],
            ) by {
                assert(rp@.actions[j] == views[start + j]);
            }
        }

        Ok(rp)
    }

    /// Decodes a root proof from the whole of `data`.  A decoded root proof
    /// is well formed and re-encodes to exactly `data`.
    #[verifier::rlimit(100)]
    pub fn deserialize(data: &[u8]) -> (r: Result<RootProof<S>, Error>)
        ensures
            match r {
                Ok(rp) => {
                    &&& rp.wf()
                    &&& root_de::<S>(data@) == Some(rp@)
                    &&& root_ser::<S>(rp@) == data@
                    &&& rp@.hash == keccak_of(data@)
                },
                Err(e) => root_de::<S>(data@) is None && e == Error::Hard,
            },
    {
        let dlen: usize = data.len();

        if dlen < 4 + 4 + 65 {
            return Err(Error::Hard);
        }

        let size = codec::read_u32_usize(data, 0)?;

        proof {
            codec::lemma_u32_le(size as u32);
        }

        if size > dlen - 4 {
            return Err(Error::Hard);
        }

        let state = match ProofState::<S>::deserialize(&data[4..4 + size]) {
            Ok(s) => s,
            Err(_) => {
                return Err(Error::Hard);
            },
        };

        if dlen - 4 - size < 4 {
            return Err(Error::Hard);
        }

        let count = codec::read_u32_usize(data, 4 + size)?;

        proof {
            codec::lemma_u32_le(count as u32);
        }

        let (actions, end) = crate::action::read_actions::<S::Action>(data, 8 + size, count)?;

        if dlen - end != 65 {
            return Err(Error::Hard);
        }

        let ghost views = pa_views(actions@);
        let ghost state0 = state@;

        let mut latest = state.dup();

        let n = actions.len();
        let mut i: usize = 0;

        proof {
            assert(views.take(0) =~= Seq::<ProofActionV>::empty());
        }

        #[verifier::loop_isolation(false)]
        while i < n
            invariant
                i <= n,
                n == actions@.len(),
                views == pa_views(actions@),
                pa_all_wf(actions@),
                latest.wf(),
                ps_replay::<S>(state0, views.take(i as int)) == Some(latest@),
                forall|k: int|
                    1 <= k <= i ==> (#[trigger] ps_replay::<S>(
                        state0,
                        views.take(k),
                    ) matches Some(w) && !ps_serializable::<S>(w)),
            decreases n - i,
        {
            let applied = latest.apply(&actions[i]);

            proof {
                assert(views.take(i + 1) =~= views.take(i as int).push(views[i as int]));
                lemma_ps_replay_snoc::<S>(state0, views.take(i as int), views[i as int]);
            }

            match applied {
                Ok(_) => {},
                Err(_) => {
                    proof {
                        lemma_root_tail_bad::<S>(state0, views, i + 1);
                    }
                    return Err(Error::Hard);
                },
            }

            if latest.is_serializable() {
                proof {
                    lemma_root_tail_bad::<S>(state0, views, i + 1);
                }
                return Err(Error::Hard);
            }

            i = i + 1;
        }

        proof {
            assert(views.take(n as int) =~= views);
        }

        let state_bytes = match state.serialize() {
            Some(b) => b,
            None => {
                proof {
                    assert(false);
                }
                Vec::new()
            },
        };

        let mut message = codec::dup_bytes(&state_bytes);
        write_actions_flat(&mut message, &actions, 0);

        proof {
            assert(pa_views(actions@).subrange(0, actions@.len() as int) =~= views);
            assert(message@ =~= root_message::<S>(state0, views));
        }

        let signature = codec::read_bytes(data, end, 65)?;

        proof {
            assert(signature@ =~= data@.skip(end as int));
        }

        let author = match crypto::recover(message.as_slice(), signature.as_slice()) {
            Ok(a) => a,
            Err(_) => {
                return Err(Error::Hard);
            },
        };

        let hash = crypto::keccak256(data);

        let rp = RootProof { state, actions, signature, hash, author, latest };

        proof {
            rp.state.lemma_wf();
            rp.latest.lemma_wf();

            let v = root_de::<S>(data@).unwrap();
            assert(rp@ =~= v);
            lemma_root_assemble::<S>(data@, size as int, end as int, rp@);
        }

        Ok(rp)
    }

    /// Writes the root proof's encoding.
    pub fn serialize(&self) -> (r: Vec<u8>)
        requires
            self.wf(),
        ensures
            r@ == root_ser::<S>(self@),
    {
        let state_bytes = match self.state.serialize() {
            Some(b) => b,
            None => {
                proof {
                    assert(false);
                }
                Vec::new()
            },
        };

        let mut out: Vec<u8> = Vec::new();

        let wrote = codec::write_u32_usize(&mut out, state_bytes.len());

        proof {
            assert(wrote is Ok);
        }

        codec::write_bytes(&mut out, state_bytes.as_slice());

        let wrote2 = codec::write_u32_usize(&mut out, self.actions.len());

        proof {
            assert(wrote2 is Ok);
        }

        write_actions_framed(&mut out, &self.actions, 0);
        codec::write_bytes(&mut out, self.signature.as_slice());

        proof {
            assert(pa_views(self.actions@).subrange(0, self.actions@.len() as int) =~= pa_views(
                self.actions@,
            ));
            assert(out@ =~= root_ser::<S>(self@));
        }

        out
    }

    /// The hash of the root proof's encoding.
    pub fn hash(&self) -> (r: &Vec<u8>)
        ensures
            r@ == self@.hash,
    {
        &self.hash
    }

    /// The latest state: the base state with the whole tail replayed.
    pub fn state(&self) -> (r: &ProofState<S>)
        ensures
            r@ == self@.latest,
            self.wf() ==> r.wf(),
    {
        &self.latest
    }

    /// The address of the match's owner, recovered from the signature.
    pub fn author(&self) -> (r: &Vec<u8>)
        ensures
            r@ == self@.author,
    {
        &self.author
    }

    /// A fresh copy of the latest state, replayed from the base checkpoint
    /// through the tail.
    pub fn compute_state(&self) -> (r: ProofState<S>)
        requires
            self.wf(),
        ensures
            r.wf(),
            r@ == self@.latest,
    {
        let ghost state0 = self.state@;
        let ghost views = pa_views(self.actions@);

        let mut latest = self.state.dup();

        let n = self.actions.len();
        let mut i: usize = 0;

        proof {
            assert(views.take(0) =~= Seq::<ProofActionV>::empty());
        }

        #[verifier::loop_isolation(false)]
        while i < n
            invariant
                i <= n,
                latest.wf(),
                ps_replay::<S>(state0, views.take(i as int)) == Some(latest@),
            decreases n - i,
        {
            let applied = latest.apply(&self.actions[i]);

            proof {
                assert(views.take(i + 1) =~= views.take(i as int).push(views[i as int]));
                lemma_ps_replay_snoc::<S>(state0, views.take(i as int), views[i as int]);
            }

            match applied {
                Ok(_) => {},
                Err(_) => {
                    proof {
                        lemma_ps_replay_prefix::<S>(state0, views, i + 1);
                        assert(false);
                    }
                },
            }

            i = i + 1;
        }

        proof {
            assert(views.take(n as int) =~= views);
        }

        latest
    }
}

/// An owned copy of a slice of actions.
pub(crate) fn dup_actions<A: Action>(actions: &Vec<ProofAction<A>>, from: usize) -> (r: Vec<
    ProofAction<A>,
>)
    requires
        from <= actions@.len(),
        pa_all_wf(actions@),
    ensures
        pa_views(r@) == pa_views(actions@).subrange(from as int, actions@.len() as int),
        pa_all_wf(r@),
        r@.len() == actions@.len() - from,
{
    let n = actions.len();
    let mut out: Vec<ProofAction<A>> = Vec::new();
    let mut i: usize = from;

    proof {
        assert(pa_views(out@) =~= pa_views(actions@).subrange(from as int, from as int));
    }

    while i < n
        invariant
            from <= i <= n,
            n == actions@.len(),
            pa_all_wf(actions@),
            pa_all_wf(out@),
            out@.len() == i - from,
            pa_views(out@) == pa_views(actions@).subrange(from as int, i as int),
        decreases n - i,
    {
        let a = actions[i].dup();
        out.push(a);
        i = i + 1;

        proof {
            assert(pa_views(out@) =~= pa_views(actions@).subrange(from as int, i as int));
        }
    }

    out
}

/// A root proof whose parts sit at their positions in `data` encodes to
/// exactly `data`.
proof fn lemma_root_assemble<S: State>(data: Seq<u8>, size: int, end: int, v: RootProofV<S::V>)
    requires
        0 <= size <= u32::MAX,
        4 + size <= data.len(),
        8 + size <= end <= data.len(),
        data.len() == end + 65,
        ps_ser::<S>(v.state).len() == size,
        codec::u32_le(size as u32) == data.subrange(0, 4),
        ps_ser::<S>(v.state) == data.subrange(4, 4 + size),
        codec::u32_le(v.actions.len() as u32) == data.subrange(4 + size, 8 + size),
        framed_ser(v.actions) == data.subrange(8 + size, end),
        v.signature == data.skip(end),
    ensures
        root_ser::<S>(v) == data,
{
    assert(data.skip(end) =~= data.subrange(end, data.len() as int));
    assert(root_ser::<S>(v) =~= data);
}

/// If a replay prefix fails, or a position is prematurely serializable, the
/// tail is not a valid root tail.
proof fn lemma_root_tail_bad<S: State>(state: ProofStateV<S::V>, views: Seq<ProofActionV>, k: int)
    requires
        1 <= k <= views.len(),
        !(ps_replay::<S>(state, views.take(k)) matches Some(w) && !ps_serializable::<S>(w)),
    ensures
        !root_tail_ok::<S>(state, views),
{
}

/// If the whole replay fails, some prefix fails too, so the tail is bad.
proof fn lemma_ps_replay_prefix_none<S: State>(
    state: ProofStateV<S::V>,
    views: Seq<ProofActionV>,
    k: int,
)
    requires
        1 <= k <= views.len(),
        ps_replay::<S>(state, views.take(k)) is None,
    ensures
        ps_replay::<S>(state, views) is None,
{
    assert(views.take(k) + views.skip(k) =~= views);
    lemma_ps_replay_concat::<S>(state, views.take(k), views.skip(k));
}

} // verus!
